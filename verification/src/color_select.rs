//! The shared colour selector: the ACI integer strings that style editors
//! store, the main dropdown's choices and the layout of the expanded ACI
//! palette.

use vstd::prelude::*;
use crate::text::{
    chars_of, decimal, lemma_parse_decimal, parse_i16_chars, push_char, parse_i16_spec, trim, trim_whitespace, u64_to_decimal,
};

verus! {

/// A CAD colour: by layer, none, by block, an ACAD Color Index (ACI) entry,
/// or a true colour.
#[derive(Clone, Copy, Debug, PartialEq, Eq, Structural)]
pub enum AcadColor {
    /// Colour by layer (ACI 256).
    ByLayer,
    /// No colour (ACI 257).
    NoColor,
    /// Colour by block (ACI 0).
    ByBlock,
    /// An ACI entry; 1 to 255 are the palette colours.
    Index(u8),
    /// A true colour.
    Rgb { r: u8, g: u8, b: u8 },
}

/// Which "logical" entries the main dropdown offers besides the standard ACI
/// colours.
#[derive(Clone, Copy, Default)]
pub struct ColorExtras {
    pub by_layer: bool,
    pub by_block: bool,
}

/// The ACI integer that a style editor stores for `c`: ByBlock is 0, ByLayer
/// 256, an index its own number.  A colour without an ACI slot in that range
/// (a true colour, or no colour) is stored as ByLayer.
pub open spec fn aci_code(c: AcadColor) -> nat {
    match c {
        AcadColor::ByBlock => 0,
        AcadColor::ByLayer => 256,
        AcadColor::NoColor => 256,
        AcadColor::Index(i) => i as nat,
        AcadColor::Rgb { .. } => 256,
    }
}

/// The colour that the ACI integer `n` stands for: 0 is ByBlock, 256 ByLayer,
/// 1 to 255 an index; anything else falls back to ByLayer.
pub open spec fn color_of_code(n: int) -> AcadColor {
    if n == 0 {
        AcadColor::ByBlock
    } else if n == 256 {
        AcadColor::ByLayer
    } else if 1 <= n <= 255 {
        AcadColor::Index(n as u8)
    } else {
        AcadColor::ByLayer
    }
}

/// The ACI integer that the (already trimmed) text `s` holds: its value as an
/// `i16`, or 256 where it is not one.
pub open spec fn code_of_text(s: Seq<char>) -> int {
    match parse_i16_spec(s) {
        Some(v) => v as int,
        None => 256,
    }
}

/// What `aci_string_to_color` decodes `s` to.
pub open spec fn decode_aci(s: Seq<char>) -> AcadColor {
    color_of_code(code_of_text(trim(s)))
}

/// Encode a colour as the ACI integer string the style editors store
/// (ByBlock=0, ByLayer=256, indexed 1-255; RGB has no ACI slot → ByLayer).
pub fn color_to_aci_string(c: AcadColor) -> (s: String)
    ensures
        s@ == decimal(aci_code(c)),
{
    let code: u64 = match c {
        AcadColor::ByBlock => 0,
        AcadColor::ByLayer => 256,
        AcadColor::NoColor => 256,
        AcadColor::Index(i) => i as u64,
        AcadColor::Rgb { .. } => 256,
    };
    u64_to_decimal(code)
}

/// The colour that the ACI integer text `trimmed` holds, which carries no
/// surrounding whitespace.
pub fn aci_text_to_color(trimmed: &str) -> (c: AcadColor)
    ensures
        c == color_of_code(code_of_text(trimmed@)),
{
    let v = chars_of(trimmed);
    let n: i16 = match parse_i16_chars(&v) {
        Some(n) => n,
        None => 256,
    };
    if n == 0 {
        AcadColor::ByBlock
    } else if n == 256 {
        AcadColor::ByLayer
    } else if 1 <= n && n <= 255 {
        AcadColor::Index(n as u8)
    } else {
        AcadColor::ByLayer
    }
}

/// Decode an ACI integer string back into an `AcadColor`.
pub fn aci_string_to_color(s: &str) -> (c: AcadColor)
    ensures
        c == decode_aci(s@),
{
    let t = trim_whitespace(s);
    aci_text_to_color(t.as_str())
}


/// What an ACI integer stands for: 0 and only 0 is ByBlock, an index colour
/// is its own number (1 to 255), and every other integer (256, negative ones,
/// ones above 256) is ByLayer.
pub proof fn lemma_color_of_code(n: int)
    ensures
        color_of_code(n) == AcadColor::ByBlock <==> n == 0,
        1 <= n <= 255 ==> color_of_code(n) == AcadColor::Index(n as u8),
        color_of_code(n) matches AcadColor::Index(i) ==> i == n && 1 <= n <= 255,
        (n < 0 || n >= 256) ==> color_of_code(n) == AcadColor::ByLayer,
        !(color_of_code(n) is NoColor) && !(color_of_code(n) is Rgb),
{
}

/// Decoding the stored string of any colour gives the colour that its ACI
/// integer stands for: ByBlock, ByLayer and the palette indices 1 to 255 come
/// back unchanged; a colour without an ACI slot comes back as ByLayer, and
/// index 0 as ByBlock.
pub proof fn lemma_encode_decode(c: AcadColor)
    ensures
        decode_aci(decimal(aci_code(c))) == color_of_code(aci_code(c) as int),
        (c == AcadColor::ByBlock || c == AcadColor::ByLayer || (c matches AcadColor::Index(i)
            && i >= 1)) ==> decode_aci(decimal(aci_code(c))) == c,
        (c is NoColor || c is Rgb) ==> decode_aci(decimal(aci_code(c))) == AcadColor::ByLayer,
{
    lemma_parse_decimal(aci_code(c));
}

/// Every string decodes to ByBlock, ByLayer or a palette index 1 to 255, and
/// encoding that colour and decoding again gives the same colour.
pub proof fn lemma_decode_is_stable(s: Seq<char>)
    ensures
        decode_aci(s) == AcadColor::ByBlock || decode_aci(s) == AcadColor::ByLayer || (decode_aci(
            s,
        ) matches AcadColor::Index(i) && 1 <= i <= 255),
        decode_aci(decimal(aci_code(decode_aci(s)))) == decode_aci(s),
{
    lemma_encode_decode(decode_aci(s));
}


/// The standard ACI colours 1 to 7 that the main dropdown always offers.
pub open spec fn standard_colors() -> Seq<AcadColor> {
    Seq::new(7, |i: int| AcadColor::Index((i + 1) as u8))
}

/// The dropdown's fixed entries: ByLayer and ByBlock where `extras` asks for
/// them, then the standard colours 1 to 7.
pub open spec fn base_choices(extras: ColorExtras) -> Seq<AcadColor> {
    (if extras.by_layer { seq![AcadColor::ByLayer] } else { Seq::empty() }) + (if extras.by_block {
        seq![AcadColor::ByBlock]
    } else {
        Seq::empty()
    }) + standard_colors()
}

/// The dropdown's entries: the fixed ones, and the current colour after them
/// where it is not already one of them (so a non-standard index still shows).
pub open spec fn dropdown_choices(current: AcadColor, extras: ColorExtras) -> Seq<AcadColor> {
    if base_choices(extras).contains(current) {
        base_choices(extras)
    } else {
        base_choices(extras).push(current)
    }
}

/// The number of swatches in each row of the expanded palette.
pub const PALETTE_COLUMNS: u16 = 16;

/// Row `r` of the expanded palette: the indices from `16 r + 1` on, sixteen of
/// them, the last row stopping at 255.
pub open spec fn palette_row(r: int) -> Seq<u8> {
    let first = 16 * r + 1;
    let len = if first + 15 <= 255 { 16 } else { 255 - first + 1 };
    Seq::new(len as nat, |j: int| (first + j) as u8)
}

/// The expanded palette: the ACI indices 1 to 255 in rows of sixteen.
pub open spec fn palette_rows() -> Seq<Seq<u8>> {
    Seq::new(16, |r: int| palette_row(r))
}

/// What the colour selector shows, apart from how it is drawn.
pub struct ColorSelector {
    /// The dropdown's entries, in order.
    pub options: Vec<AcadColor>,
    /// The entry the dropdown shows as selected: the current colour.
    pub selected: AcadColor,
    /// The rows of the expanded palette, where it is open.
    pub palette: Option<Vec<Vec<u8>>>,
    /// The label of the button that opens or closes the palette.
    pub more_label: String,
}

/// Whether `v` holds `c`.
fn contains_color(v: &Vec<AcadColor>, c: AcadColor) -> (r: bool)
    ensures
        r == v@.contains(c),
{
    let mut i: usize = 0;
    while i < v.len()
        invariant
            i <= v.len(),
            forall|k: int| 0 <= k < i ==> v@[k] != c,
        decreases v.len() - i,
    {
        if v[i] == c {
            return true;
        }
        i = i + 1;
    }
    false
}

/// The main dropdown's entries for the current colour `current`.
pub fn dropdown_options(current: AcadColor, extras: ColorExtras) -> (opts: Vec<AcadColor>)
    ensures
        opts@ == dropdown_choices(current, extras),
{
    let mut opts: Vec<AcadColor> = Vec::new();
    if extras.by_layer {
        opts.push(AcadColor::ByLayer);
    }
    if extras.by_block {
        opts.push(AcadColor::ByBlock);
    }
    let ghost head = opts@;
    assert(head == (if extras.by_layer { seq![AcadColor::ByLayer] } else { Seq::empty() }) + (
    if extras.by_block {
        seq![AcadColor::ByBlock]
    } else {
        Seq::empty()
    }));
    let mut i: u8 = 1;
    while i <= 7
        invariant
            1 <= i <= 8,
            opts@ == head + standard_colors().take(i - 1),
        decreases 8 - i,
    {
        opts.push(AcadColor::Index(i));
        assert(standard_colors().take(i as int) == standard_colors().take(i - 1).push(
            AcadColor::Index(i),
        ));
        i = i + 1;
    }
    assert(standard_colors().take(7) == standard_colors());
    if !contains_color(&opts, current) {
        opts.push(current);
    }
    opts
}

/// The rows of the expanded ACI palette.
pub fn palette_grid() -> (rows: Vec<Vec<u8>>)
    ensures
        rows@.len() == palette_rows().len(),
        forall|r: int| 0 <= r < rows@.len() ==> #[trigger] rows@[r]@ == palette_rows()[r],
{
    let mut rows: Vec<Vec<u8>> = Vec::new();
    let mut idx: u16 = 1;
    while idx <= 255
        invariant
            1 <= idx <= 256,
            idx == 16 * rows@.len() + 1 || (idx == 256 && rows@.len() == 16),
            rows@.len() <= 16,
            forall|r: int| 0 <= r < rows@.len() ==> #[trigger] rows@[r]@ == palette_row(r),
        decreases 256 - idx,
    {
        let ghost r_index = rows@.len() as int;
        let mut row: Vec<u8> = Vec::new();
        let mut col: u16 = 0;
        while col < PALETTE_COLUMNS && idx <= 255
            invariant
                col <= 16,
                idx == 16 * r_index + 1 + col,
                idx <= 256,
                0 <= r_index < 16,
                row@ == palette_row(r_index).take(col as int),
                col < 16 && idx <= 255 ==> col < palette_row(r_index).len(),
            decreases 16 - col,
        {
            row.push(idx as u8);
            assert(palette_row(r_index).take(col + 1) == palette_row(r_index).take(col as int).push(
                idx as u8,
            ));
            idx = idx + 1;
            col = col + 1;
        }
        assert(palette_row(r_index).take(col as int) == palette_row(r_index));
        rows.push(row);
    }
    rows
}

/// The label of the button that toggles the palette: a cross while it is
/// open, an ellipsis while it is closed.
pub fn more_button_label(palette_open: bool) -> (s: String)
    ensures
        s@ == (if palette_open { seq!['\u{d7}'] } else { seq!['\u{22ef}'] }),
{
    let mut s = String::new();
    if palette_open {
        push_char(&mut s, '\u{d7}');
    } else {
        push_char(&mut s, '\u{22ef}');
    }
    s
}

/// Build a colour selector.
///
/// * `current` — the currently selected colour (shown in the dropdown).
/// * `palette_open` — whether the expanded 255-colour grid is shown.
/// * `extras` — whether ByLayer / ByBlock appear in the dropdown.
pub fn color_selector(current: AcadColor, palette_open: bool, extras: ColorExtras) -> (sel:
    ColorSelector)
    ensures
        sel.options@ == dropdown_choices(current, extras),
        sel.selected == current,
        sel.palette is Some <==> palette_open,
        sel.palette matches Some(rows) ==> rows@.len() == palette_rows().len() && forall|r: int|
            0 <= r < rows@.len() ==> #[trigger] rows@[r]@ == palette_rows()[r],
        sel.more_label@ == (if palette_open { seq!['\u{d7}'] } else { seq!['\u{22ef}'] }),
{
    let options = dropdown_options(current, extras);
    let palette = if palette_open { Some(palette_grid()) } else { None };
    ColorSelector { options, selected: current, palette, more_label: more_button_label(palette_open) }
}


/// The dropdown always offers the current colour, and offers no colour twice.
pub proof fn lemma_dropdown_choices(current: AcadColor, extras: ColorExtras)
    ensures
        dropdown_choices(current, extras).contains(current),
        dropdown_choices(current, extras).no_duplicates(),
        dropdown_choices(current, extras).take(base_choices(extras).len() as int)
            == base_choices(extras),
{
    let b = base_choices(extras);
    let head = (if extras.by_layer { seq![AcadColor::ByLayer] } else { Seq::empty() }) + (
    if extras.by_block {
        seq![AcadColor::ByBlock]
    } else {
        Seq::empty()
    });
    assert(b == head + standard_colors());
    assert forall|i: int, j: int| 0 <= i < b.len() && 0 <= j < b.len() && i != j implies b[i]
        != b[j] by {
        if i >= head.len() && j >= head.len() {
            assert(b[i] == standard_colors()[i - head.len()]);
            assert(b[j] == standard_colors()[j - head.len()]);
        } else if i < head.len() && j >= head.len() {
            assert(b[j] == standard_colors()[j - head.len()]);
        } else if j < head.len() && i >= head.len() {
            assert(b[i] == standard_colors()[i - head.len()]);
        }
    }
    if b.contains(current) {
        assert(b.take(b.len() as int) == b);
    } else {
        let d = b.push(current);
        assert(d[b.len() as int] == current);
        assert(d.take(b.len() as int) == b);
        assert forall|i: int, j: int| 0 <= i < d.len() && 0 <= j < d.len() && i != j implies d[i]
            != d[j] by {
            if i < b.len() && j < b.len() {
                assert(d[i] == b[i] && d[j] == b[j]);
            } else if i < b.len() {
                assert(d[i] == b[i]);
            } else {
                assert(d[j] == b[j]);
            }
        }
    }
}

/// The expanded palette holds every ACI index from 1 to 255 exactly once, in
/// order: index `k` is in row `(k - 1) / 16`, column `(k - 1) % 16`, and the
/// rows hold 255 swatches in all.
pub proof fn lemma_palette_layout()
    ensures
        forall|k: int|
            1 <= k <= 255 ==> #[trigger] palette_rows()[(k - 1) / 16][(k - 1) % 16] == k,
        forall|r: int, c: int|
            0 <= r < 16 && 0 <= c < palette_rows()[r].len() ==> 1 <= #[trigger] palette_rows()[r][c]
                <= 255,
        forall|r: int| 0 <= r < 15 ==> #[trigger] palette_rows()[r].len() == 16,
        palette_rows()[15].len() == 15,
{
    assert forall|k: int| 1 <= k <= 255 implies #[trigger] palette_rows()[(k - 1) / 16][(k - 1)
        % 16] == k by {
        let r = (k - 1) / 16;
        let c = (k - 1) % 16;
        assert(0 <= r < 16);
        assert(k - 1 == 16 * r + c);
        assert(c < palette_row(r).len());
    }
}

/// Each extra entry is offered exactly when its own flag is set, whatever
/// the other flag: ByLayer first where `by_layer` is set, then ByBlock where
/// `by_block` is set, then ACI 1 to 7 in order; the dropdown offers ByBlock
/// (or ByLayer) exactly when its flag is set or it is the current colour.
pub proof fn lemma_dropdown_extras(current: AcadColor, extras: ColorExtras)
    ensures
        base_choices(extras).contains(AcadColor::ByLayer) <==> extras.by_layer,
        base_choices(extras).contains(AcadColor::ByBlock) <==> extras.by_block,
        base_choices(extras).len() == 7 + (if extras.by_layer { 1int } else { 0 }) + (
        if extras.by_block {
            1int
        } else {
            0
        }),
        extras.by_layer ==> base_choices(extras)[0] == AcadColor::ByLayer,
        extras.by_block ==> base_choices(extras)[if extras.by_layer { 1int } else { 0 }]
            == AcadColor::ByBlock,
        forall|i: int|
            0 <= i < 7 ==> #[trigger] base_choices(extras)[base_choices(extras).len() - 7 + i]
                == AcadColor::Index((i + 1) as u8),
        dropdown_choices(current, extras).contains(AcadColor::ByBlock) <==> (extras.by_block
            || current == AcadColor::ByBlock),
        dropdown_choices(current, extras).contains(AcadColor::ByLayer) <==> (extras.by_layer
            || current == AcadColor::ByLayer),
{
    let b = base_choices(extras);
    let head = (if extras.by_layer { seq![AcadColor::ByLayer] } else { Seq::empty() }) + (
    if extras.by_block {
        seq![AcadColor::ByBlock]
    } else {
        Seq::empty()
    });
    assert(b == head + standard_colors());
    assert forall|i: int| 0 <= i < 7 implies #[trigger] b[b.len() - 7 + i] == AcadColor::Index(
        (i + 1) as u8,
    ) by {
        assert(b[b.len() - 7 + i] == standard_colors()[i]);
    }
    if extras.by_layer {
        assert(b[0] == AcadColor::ByLayer);
    }
    if extras.by_block {
        let k = if extras.by_layer { 1int } else { 0 };
        assert(b[k] == AcadColor::ByBlock);
    }
    assert(!standard_colors().contains(AcadColor::ByLayer));
    assert(!standard_colors().contains(AcadColor::ByBlock));
    if b.contains(AcadColor::ByBlock) {
        let k = choose|k: int| 0 <= k < b.len() && b[k] == AcadColor::ByBlock;
        if k >= head.len() {
            assert(b[k] == standard_colors()[k - head.len()]);
        }
    }
    if b.contains(AcadColor::ByLayer) {
        let k = choose|k: int| 0 <= k < b.len() && b[k] == AcadColor::ByLayer;
        if k >= head.len() {
            assert(b[k] == standard_colors()[k - head.len()]);
        }
    }
    let d = dropdown_choices(current, extras);
    if !b.contains(current) {
        assert(d == b.push(current));
        assert(d[b.len() as int] == current);
        if d.contains(AcadColor::ByBlock) {
            let k = choose|k: int| 0 <= k < d.len() && d[k] == AcadColor::ByBlock;
            if k < b.len() {
                assert(d[k] == b[k]);
            }
        }
        if d.contains(AcadColor::ByLayer) {
            let k = choose|k: int| 0 <= k < d.len() && d[k] == AcadColor::ByLayer;
            if k < b.len() {
                assert(d[k] == b[k]);
            }
        }
        if b.contains(AcadColor::ByBlock) {
            let k = choose|k: int| 0 <= k < b.len() && b[k] == AcadColor::ByBlock;
            assert(d[k] == b[k]);
        }
        if b.contains(AcadColor::ByLayer) {
            let k = choose|k: int| 0 <= k < b.len() && b[k] == AcadColor::ByLayer;
            assert(d[k] == b[k]);
        }
    }
}

} // verus!
