# h7cad

The verified core of the helpers around H7CAD's colour selector, plugin
manager and one-shot update check, written in Verus.

- `src/` is the library; every function in it is verified.
  - `text.rs`: decimal rendering, Unicode `White_Space` trimming, `i16`
    parsing, joining strings.
  - `color_select.rs`: the ACI integer strings that style editors store
    (encoding and decoding, with the round-trip laws), the colour dropdown's
    entries and the layout of the expanded 255-colour palette.
  - `update_check.rs`: the release tag in the GitHub "latest release" answer
    and the decision whether it names a newer version.
  - `version.rs`: Semantic Versioning precedence, the order behind that
    decision.
  - `plugin_manager.rs`, `update_notice.rs`: the text those windows show.
- `app/` is the iced front end and the HTTP request (ureq); it draws what the
  library computes.
- `tests/` runs the library on concrete values, including comparisons with
  std's own `trim`, `parse` and `to_string`.
