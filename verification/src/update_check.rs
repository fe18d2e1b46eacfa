//! The decision part of the one-shot update check: finding the release tag
//! in the body of the GitHub "latest release" answer and deciding whether it
//! names a newer version than the installed one.

use vstd::prelude::*;
use crate::text::{chars_of, push_chars, slice_chars};
use crate::version::{is_semver, lemma_version_order, version_is_newer, version_newer};

verus! {

/// The text that introduces the release tag in the JSON answer:
/// `"tag_name":"`.
pub open spec fn tag_key() -> Seq<char> {
    seq!['"', 't', 'a', 'g', '_', 'n', 'a', 'm', 'e', '"', ':', '"']
}

/// Whether `p` occurs in `s` at position `i`.
pub open spec fn occurs_at(s: Seq<char>, p: Seq<char>, i: int) -> bool {
    0 <= i && i + p.len() <= s.len() && s.subrange(i, i + p.len()) == p
}

/// The first position at or after `i` where `p` occurs in `s`, as
/// `str::find` reports it.
pub open spec fn find_from(s: Seq<char>, p: Seq<char>, i: int) -> Option<int>
    decreases s.len() + 1 - i,
{
    if i < 0 || i + p.len() > s.len() {
        None
    } else if occurs_at(s, p, i) {
        Some(i)
    } else {
        find_from(s, p, i + 1)
    }
}

/// The first position at or after `i` where the character `c` occurs in `s`.
pub open spec fn find_char_from(s: Seq<char>, c: char, i: int) -> Option<int> {
    find_from(s, seq![c], i)
}

/// The release tag in `body`: the text after the first `"tag_name":"` up to
/// the next `"`; `None` where either is missing.
pub open spec fn extract_tag_spec(body: Seq<char>) -> Option<Seq<char>> {
    match find_from(body, tag_key(), 0) {
        None => None,
        Some(i) => match find_char_from(body, '"', i + tag_key().len()) {
            None => None,
            Some(j) => Some(body.subrange(i + tag_key().len(), j)),
        },
    }
}

/// `s` without its leading `v` characters, as `s.trim_start_matches('v')`
/// gives it.
pub open spec fn strip_v(s: Seq<char>) -> Seq<char>
    decreases s.len(),
{
    if s.len() > 0 && s[0] == 'v' {
        strip_v(s.drop_first())
    } else {
        s
    }
}

/// The newer version that `body` announces: the release tag without its
/// leading `v`s, where that version is newer than the installed version
/// `current` (see [`version_newer`]); `None` where the body holds no tag or
/// the installed version is as new or newer.
pub open spec fn newer_version(body: Seq<char>, current: Seq<char>) -> Option<Seq<char>> {
    match extract_tag_spec(body) {
        None => None,
        Some(tag) => if version_newer(strip_v(tag), current) {
            Some(strip_v(tag))
        } else {
            None
        },
    }
}

/// Whether `p` occurs in `s` at position `i`.
fn matches_at(s: &Vec<char>, p: &Vec<char>, i: usize) -> (r: bool)
    requires
        i + p.len() <= s.len(),
    ensures
        r == occurs_at(s@, p@, i as int),
{
    let mut k: usize = 0;
    while k < p.len()
        invariant
            i + p.len() <= s.len(),
            k <= p.len(),
            forall|m: int| 0 <= m < k ==> s@[i + m] == p@[m],
        decreases p.len() - k,
    {
        if s[i + k] != p[k] {
            assert(s@.subrange(i as int, i + p.len())[k as int] != p@[k as int]);
            return false;
        }
        k = k + 1;
    }
    assert(s@.subrange(i as int, i + p.len()) =~= p@);
    true
}

/// The first position at or after `from` where `p` occurs in `s`.
pub fn find_chars(s: &Vec<char>, p: &Vec<char>, from: usize) -> (r: Option<usize>)
    ensures
        r is None <==> find_from(s@, p@, from as int) is None,
        r matches Some(i) ==> find_from(s@, p@, from as int) == Some(i as int) && from <= i && i
            + p.len() <= s.len(),
{
    if p.len() > s.len() {
        assert(find_from(s@, p@, from as int) is None);
        return None;
    }
    let last = s.len() - p.len();
    if from > last {
        return None;
    }
    let mut i: usize = from;
    while i < last
        invariant
            last == s.len() - p.len(),
            from <= i <= last,
            find_from(s@, p@, from as int) == find_from(s@, p@, i as int),
        decreases last - i,
    {
        if matches_at(s, p, i) {
            return Some(i);
        }
        i = i + 1;
    }
    if matches_at(s, p, i) {
        Some(i)
    } else {
        assert(find_from(s@, p@, i + 1) is None);
        None
    }
}

fn extract_tag_chars(body: &Vec<char>) -> (r: Option<Vec<char>>)
    ensures
        r matches Some(t) ==> extract_tag_spec(body@) == Some(t@),
        r is None ==> extract_tag_spec(body@) is None,
{
    let key: Vec<char> = vec!['"', 't', 'a', 'g', '_', 'n', 'a', 'm', 'e', '"', ':', '"'];
    assert(key@ == tag_key());
    let i = match find_chars(body, &key, 0) {
        None => return None,
        Some(i) => i,
    };
    assert(find_from(body@, tag_key(), 0) == Some(i as int));
    let start = i + key.len();
    assert(start == i + tag_key().len());
    let quote: Vec<char> = vec!['"'];
    assert(quote@ == seq!['"']);
    let end = match find_chars(body, &quote, start) {
        None => {
            assert(find_char_from(body@, '"', start as int) is None);
            return None;
        },
        Some(j) => j,
    };
    assert(find_char_from(body@, '"', start as int) == Some(end as int));
    Some(slice_chars(body, start, end))
}

/// Minimal substring extraction of the `"tag_name"` field of the GitHub
/// releases answer: the text between the first `"tag_name":"` and the next
/// `"`.
pub fn extract_tag(body: &str) -> (r: Option<String>)
    ensures
        r matches Some(t) ==> extract_tag_spec(body@) == Some(t@),
        r is None ==> extract_tag_spec(body@) is None,
{
    let v = chars_of(body);
    match extract_tag_chars(&v) {
        None => None,
        Some(t) => {
            let mut s = String::new();
            push_chars(&mut s, &t);
            Some(s)
        },
    }
}

proof fn lemma_strip_v_skip(s: Seq<char>, i: int)
    requires
        0 <= i <= s.len(),
        forall|k: int| 0 <= k < i ==> #[trigger] s[k] == 'v',
        i == s.len() || s[i] != 'v',
    ensures
        strip_v(s) == s.subrange(i, s.len() as int),
    decreases i,
{
    if i == 0 {
        assert(s.subrange(0, s.len() as int) =~= s);
    } else {
        let t = s.drop_first();
        assert forall|k: int| 0 <= k < i - 1 implies #[trigger] t[k] == 'v' by {
            assert(t[k] == s[k + 1]);
        }
        lemma_strip_v_skip(t, i - 1);
        assert(t.subrange(i - 1, t.len() as int) =~= s.subrange(i, s.len() as int));
    }
}

/// `s` without its leading `v` characters.
pub fn strip_leading_v(s: &Vec<char>) -> (r: Vec<char>)
    ensures
        r@ == strip_v(s@),
{
    let mut i: usize = 0;
    while i < s.len() && s[i] == 'v'
        invariant
            i <= s.len(),
            forall|k: int| 0 <= k < i ==> #[trigger] s@[k] == 'v',
        decreases s.len() - i,
    {
        i = i + 1;
    }
    proof {
        lemma_strip_v_skip(s@, i as int);
    }
    slice_chars(s, i, s.len())
}

/// The newer version that the body of the "latest release" answer announces,
/// compared with the installed version `current`: `Some(latest)` when a newer
/// release is available (by Semantic Versioning precedence; a tag that is not
/// written as SemVer counts as newer wherever it differs), `None` when up to
/// date, when the installed build is ahead, or when the body holds no release
/// tag.
pub fn latest_if_outdated(body: &str, current: &str) -> (r: Option<String>)
    ensures
        r matches Some(v) ==> newer_version(body@, current@) == Some(v@),
        r is None ==> newer_version(body@, current@) is None,
{
    let v = chars_of(body);
    let tag = match extract_tag_chars(&v) {
        None => return None,
        Some(t) => t,
    };
    let latest = strip_leading_v(&tag);
    let cur = chars_of(current);
    if version_is_newer(&latest, &cur) {
        let mut s = String::new();
        push_chars(&mut s, &latest);
        Some(s)
    } else {
        None
    }
}


/// `find_from` reports the first occurrence at or after `i`.
pub proof fn lemma_find_from_first(s: Seq<char>, p: Seq<char>, i: int, k: int)
    requires
        0 <= i <= k,
        occurs_at(s, p, k),
        forall|j: int| i <= j < k ==> !#[trigger] occurs_at(s, p, j),
    ensures
        find_from(s, p, i) == Some(k),
    decreases k - i,
{
    if i < k {
        lemma_find_from_first(s, p, i + 1, k);
    }
}

/// Whatever `find_from` reports is an occurrence, the first one at or after
/// `i`.
pub proof fn lemma_find_from_sound(s: Seq<char>, p: Seq<char>, i: int)
    requires
        i >= 0,
    ensures
        find_from(s, p, i) matches Some(k) ==> i <= k && occurs_at(s, p, k) && forall|j: int|
            i <= j < k ==> !#[trigger] occurs_at(s, p, j),
        find_from(s, p, i) is None ==> forall|j: int| i <= j ==> !#[trigger] occurs_at(s, p, j),
    decreases s.len() + 1 - i,
{
    if i + p.len() <= s.len() && !occurs_at(s, p, i) {
        lemma_find_from_sound(s, p, i + 1);
    }
}

/// Reading back a written tag: in a body made of some text, the key
/// `"tag_name":"`, a tag without `"`, a closing `"` and anything after it,
/// the extracted tag is that tag, provided the key does not occur earlier.
pub proof fn lemma_extract_written_tag(
    prefix: Seq<char>,
    tag: Seq<char>,
    rest: Seq<char>,
)
    requires
        forall|i: int| 0 <= i < tag.len() ==> #[trigger] tag[i] != '"',
        forall|j: int|
            0 <= j < prefix.len() ==> !#[trigger] occurs_at(
                prefix + tag_key() + tag + seq!['"'] + rest,
                tag_key(),
                j,
            ),
    ensures
        extract_tag_spec(prefix + tag_key() + tag + seq!['"'] + rest) == Some(tag),
{
    let s = prefix + tag_key() + tag + seq!['"'] + rest;
    let a = prefix.len() as int;
    let b = a + tag_key().len();
    let c = b + tag.len();
    assert(s.subrange(a, b) =~= tag_key());
    lemma_find_from_first(s, tag_key(), 0, a);
    assert(s.subrange(c, c + 1) =~= seq!['"']);
    assert forall|j: int| b <= j < c implies !#[trigger] occurs_at(s, seq!['"'], j) by {
        assert(s[j] == tag[j - b]);
        assert(s.subrange(j, j + 1)[0] == s[j]);
    }
    lemma_find_from_first(s, seq!['"'], b, c);
    assert(s.subrange(b, c) =~= tag);
}

/// An extracted tag never holds a `"`.
pub proof fn lemma_extracted_tag_unquoted(body: Seq<char>)
    ensures
        extract_tag_spec(body) matches Some(t) ==> forall|i: int|
            0 <= i < t.len() ==> #[trigger] t[i] != '"',
{
    lemma_find_from_sound(body, tag_key(), 0);
    if let Some(k) = find_from(body, tag_key(), 0) {
        let b = k + tag_key().len();
        lemma_find_from_sound(body, seq!['"'], b);
        if let Some(c) = find_from(body, seq!['"'], b) {
            let t = body.subrange(b, c);
            assert forall|i: int| 0 <= i < t.len() implies #[trigger] t[i] != '"' by {
                assert(t[i] == body[b + i]);
                if body[b + i] == '"' {
                    assert(body.subrange(b + i, b + i + 1) =~= seq!['"']);
                    assert(occurs_at(body, seq!['"'], b + i));
                }
            }
        }
    }
}

/// Stripping leading `v`s removes only `v`s from the front and keeps the
/// rest, leaves no leading `v`, and a second strip changes nothing.
pub proof fn lemma_strip_v(s: Seq<char>)
    ensures
        strip_v(s).len() > 0 ==> strip_v(s)[0] != 'v',
        strip_v(strip_v(s)) == strip_v(s),
        strip_v(s).len() <= s.len(),
        strip_v(s) == s.subrange(s.len() - strip_v(s).len(), s.len() as int),
        forall|k: int| 0 <= k < s.len() - strip_v(s).len() ==> #[trigger] s[k] == 'v',
    decreases s.len(),
{
    if s.len() > 0 && s[0] == 'v' {
        lemma_strip_v(s.drop_first());
        let t = strip_v(s.drop_first());
        assert(s.drop_first().subrange(s.len() - 1 - t.len(), s.len() - 1) =~= s.subrange(
            s.len() - t.len(),
            s.len() as int,
        ));
        assert forall|k: int| 1 <= k < s.len() - t.len() implies #[trigger] s[k] == 'v' by {
            assert(s[k] == s.drop_first()[k - 1]);
        }
    } else {
        assert(s.subrange(0, s.len() as int) =~= s);
    }
}

/// A reported version is newer than the installed one, so it differs from
/// it (and, where both are Semantic Versions, the installed one is not newer
/// than it), and it carries no leading `v`; no version is reported exactly
/// when the body holds no tag or its tag, without leading `v`s, is not newer
/// than the installed version.
pub proof fn lemma_newer_version(body: Seq<char>, current: Seq<char>)
    ensures
        newer_version(body, current) matches Some(v) ==> version_newer(v, current) && v != current
            && (is_semver(v) && is_semver(current) ==> !version_newer(current, v)) && (v.len() > 0
            ==> v[0] != 'v'),
        newer_version(body, current) is None <==> (extract_tag_spec(body) is None
            || !version_newer(strip_v(extract_tag_spec(body)->0), current)),
{
    if let Some(t) = extract_tag_spec(body) {
        lemma_strip_v(t);
        lemma_version_order(strip_v(t), current);
    }
}

} // verus!
