//! The order of release versions: Semantic Versioning precedence, with
//! plain inequality for a version that is not written as SemVer.

use vstd::prelude::*;
use crate::text::{all_digits, char_digit, digit_value, digits_value, is_digit, slice_chars};

verus! {

/// The parts of `s` between its `.` characters (one empty part for empty
/// text), as `s.split('.')` yields them.
pub open spec fn split_dots(s: Seq<char>) -> Seq<Seq<char>>
    decreases s.len(),
{
    if s.len() == 0 {
        seq![Seq::empty()]
    } else {
        let p = split_dots(s.drop_last());
        if s.last() == '.' {
            p.push(Seq::empty())
        } else {
            p.update(p.len() - 1, p.last().push(s.last()))
        }
    }
}

/// The characters of `s` before its first `c` (all of `s` where it holds no
/// `c`).
pub open spec fn before_char(s: Seq<char>, c: char) -> Seq<char>
    decreases s.len(),
{
    if s.len() == 0 || s[0] == c {
        Seq::empty()
    } else {
        seq![s[0]] + before_char(s.drop_first(), c)
    }
}

/// The characters of `s` after its first `c`; `None` where it holds no `c`.
pub open spec fn after_char(s: Seq<char>, c: char) -> Option<Seq<char>>
    decreases s.len(),
{
    if s.len() == 0 {
        None
    } else if s[0] == c {
        Some(s.drop_first())
    } else {
        after_char(s.drop_first(), c)
    }
}

/// The version `s` without its build metadata (anything from the first `+`
/// on, which precedence ignores).
pub open spec fn without_build(s: Seq<char>) -> Seq<char> {
    before_char(s, '+')
}

/// The `MAJOR.MINOR.PATCH` part of the version `s`.
pub open spec fn core_part(s: Seq<char>) -> Seq<char> {
    before_char(without_build(s), '-')
}

/// The pre-release part of the version `s` (after the first `-`), if any.
pub open spec fn pre_release(s: Seq<char>) -> Option<Seq<char>> {
    after_char(without_build(s), '-')
}

/// Whether `p` is a numeric identifier: a non-empty run of ASCII digits.
pub open spec fn is_numeric(p: Seq<char>) -> bool {
    p.len() > 0 && all_digits(p)
}

/// Whether `c` may appear in a pre-release identifier: an ASCII letter or
/// digit, or `-`.
pub open spec fn is_ident_char(c: char) -> bool {
    is_digit(c) || ('a' <= c && c <= 'z') || ('A' <= c && c <= 'Z') || c == '-'
}

/// Whether `p` is a pre-release identifier: non-empty, of letters, digits
/// and `-`.
pub open spec fn is_identifier(p: Seq<char>) -> bool {
    p.len() > 0 && forall|i: int| 0 <= i < p.len() ==> is_ident_char(#[trigger] p[i])
}

/// Whether every element of `ps` is an identifier.
pub open spec fn all_identifiers(ps: Seq<Seq<char>>) -> bool {
    forall|i: int| 0 <= i < ps.len() ==> is_identifier(#[trigger] ps[i])
}

/// Whether `s` is written as a Semantic Version: three dot-separated
/// numbers, then optionally `-` and dot-separated identifiers, then
/// optionally `+` and build metadata.  Numbers with leading zeros are
/// accepted and compare by their value.
pub open spec fn is_semver(s: Seq<char>) -> bool {
    &&& split_dots(core_part(s)).len() == 3
    &&& forall|i: int| 0 <= i < 3 ==> is_numeric(#[trigger] split_dots(core_part(s))[i])
    &&& match pre_release(s) {
        None => true,
        Some(p) => all_identifiers(split_dots(p)),
    }
}

/// The numbers `MAJOR`, `MINOR` and `PATCH` of the version `s`.
pub open spec fn core_values(s: Seq<char>) -> Seq<int> {
    split_dots(core_part(s)).map_values(|p: Seq<char>| digits_value(p))
}

/// Part `i` of `v`, 0 where `v` has no such part.
pub open spec fn part_at(v: Seq<int>, i: int) -> int {
    if 0 <= i < v.len() {
        v[i]
    } else {
        0
    }
}


/// -1, 0 or 1 as `a` orders before, with or after `b` when their numbers
/// from position `i` on are compared left to right (a missing number counts
/// as 0).
pub open spec fn values_order(a: Seq<int>, b: Seq<int>, i: int) -> int
    decreases a.len() + b.len() - i,
{
    if i < 0 || (i >= a.len() && i >= b.len()) {
        0
    } else if part_at(a, i) != part_at(b, i) {
        order_sign(part_at(a, i), part_at(b, i))
    } else {
        values_order(a, b, i + 1)
    }
}

/// -1, 0 or 1 as `x` orders before, with or after `y` by the code points of
/// their characters, a proper prefix first.
pub open spec fn text_order(x: Seq<char>, y: Seq<char>) -> int
    decreases x.len(),
{
    if x.len() == 0 && y.len() == 0 {
        0
    } else if x.len() == 0 {
        -1
    } else if y.len() == 0 {
        1
    } else if x[0] < y[0] {
        -1
    } else if x[0] > y[0] {
        1
    } else {
        text_order(x.drop_first(), y.drop_first())
    }
}

/// -1, 0 or 1 as the pre-release identifier `x` orders before, with or
/// after `y`: numbers by value, numbers before other identifiers, other
/// identifiers by their characters.
pub open spec fn ident_order(x: Seq<char>, y: Seq<char>) -> int {
    if is_numeric(x) && is_numeric(y) {
        order_sign(digits_value(x), digits_value(y))
    } else if is_numeric(x) {
        -1
    } else if is_numeric(y) {
        1
    } else {
        text_order(x, y)
    }
}

/// -1, 0 or 1 as the identifiers `xs` order before, with or after `ys` from
/// position `i` on: the first that differ decide, and where one list runs
/// out first it orders first.
pub open spec fn idents_order(xs: Seq<Seq<char>>, ys: Seq<Seq<char>>, i: int) -> int
    decreases xs.len() + ys.len() - i,
{
    if i < 0 || (i >= xs.len() && i >= ys.len()) {
        0
    } else if i >= xs.len() {
        -1
    } else if i >= ys.len() {
        1
    } else if ident_order(xs[i], ys[i]) != 0 {
        ident_order(xs[i], ys[i])
    } else {
        idents_order(xs, ys, i + 1)
    }
}

/// Whether the Semantic Version `a` has higher precedence than `b`: the
/// greater `MAJOR.MINOR.PATCH` wins; with those equal, a version without
/// pre-release wins over one with; with both pre-releases, their identifiers
/// decide. Build metadata is ignored.
pub open spec fn semver_newer(a: Seq<char>, b: Seq<char>) -> bool {
    let o = values_order(core_values(a), core_values(b), 0);
    if o != 0 {
        o > 0
    } else {
        match (pre_release(a), pre_release(b)) {
            (None, None) => false,
            (None, Some(_)) => true,
            (Some(_), None) => false,
            (Some(x), Some(y)) => idents_order(split_dots(x), split_dots(y), 0) > 0,
        }
    }
}

/// Whether the version `a` is newer than the installed version `b`: by
/// Semantic Versioning precedence where both are written as SemVer, and
/// otherwise wherever they differ.
pub open spec fn version_newer(a: Seq<char>, b: Seq<char>) -> bool {
    if is_semver(a) && is_semver(b) {
        semver_newer(a, b)
    } else {
        a != b
    }
}

/// -1, 0 or 1 as `x` is less than, equal to or greater than `y`.
pub open spec fn order_sign(x: int, y: int) -> int {
    if x > y {
        1
    } else if x < y {
        -1
    } else {
        0
    }
}

/// `t` with `k` zeros in front of it.
pub open spec fn zero_padded(t: Seq<char>, k: nat) -> Seq<char> {
    Seq::new(k, |i: int| '0') + t
}

/// Leading zeros do not change the value of a run of digits.
proof fn lemma_zero_padding(t: Seq<char>, k: nat)
    ensures
        digits_value(zero_padded(t, k)) == digits_value(t),
    decreases t.len() + k,
{
    let z = zero_padded(t, k);
    if t.len() == 0 {
        if k > 0 {
            assert(z.drop_last() =~= zero_padded(t, (k - 1) as nat));
            lemma_zero_padding(t, (k - 1) as nat);
            assert(z.last() == '0');
        } else {
            assert(z =~= Seq::<char>::empty());
        }
    } else {
        assert(z.drop_last() =~= zero_padded(t.drop_last(), k));
        lemma_zero_padding(t.drop_last(), k);
        assert(z.last() == t.last());
    }
}

/// Comparing two equally long runs of digits digit by digit from the front:
/// the comparison so far decides unless it is a tie, and then the next
/// digits do.
proof fn lemma_compare_step(x: Seq<char>, y: Seq<char>, dx: char, dy: char)
    requires
        all_digits(x),
        all_digits(y),
        is_digit(dx),
        is_digit(dy),
    ensures
        order_sign(digits_value(x.push(dx)), digits_value(y.push(dy))) == if order_sign(
            digits_value(x),
            digits_value(y),
        ) != 0 {
            order_sign(digits_value(x), digits_value(y))
        } else {
            order_sign(digit_value(dx), digit_value(dy))
        },
{
    assert(x.push(dx).drop_last() =~= x);
    assert(y.push(dy).drop_last() =~= y);
    assert(digits_value(x.push(dx)) == digits_value(x) * 10 + digit_value(dx));
    assert(digits_value(y.push(dy)) == digits_value(y) * 10 + digit_value(dy));
}

/// -1, 0 or 1 as the run of digits `a` writes a smaller, the same or a
/// greater number than the run `b` (however long they are).
pub fn compare_digit_runs(a: &Vec<char>, b: &Vec<char>) -> (r: i8)
    requires
        all_digits(a@),
        all_digits(b@),
    ensures
        r == order_sign(digits_value(a@), digits_value(b@)),
{
    let la = a.len();
    let lb = b.len();
    let n = if la >= lb { la } else { lb };
    let ghost pa = zero_padded(a@, (n - la) as nat);
    let ghost pb = zero_padded(b@, (n - lb) as nat);
    assert(pa.take(0) =~= Seq::<char>::empty());
    assert(pb.take(0) =~= Seq::<char>::empty());
    let mut c: i8 = 0;
    let mut i: usize = 0;
    while i < n
        invariant
            la == a.len(),
            lb == b.len(),
            n >= la,
            n >= lb,
            i <= n,
            pa == zero_padded(a@, (n - la) as nat),
            pb == zero_padded(b@, (n - lb) as nat),
            pa.len() == n,
            pb.len() == n,
            all_digits(a@),
            all_digits(b@),
            all_digits(pa.take(i as int)),
            all_digits(pb.take(i as int)),
            c == order_sign(digits_value(pa.take(i as int)), digits_value(pb.take(i as int))),
        decreases n - i,
    {
        let ca = if i < n - la { '0' } else { a[i - (n - la)] };
        let cb = if i < n - lb { '0' } else { b[i - (n - lb)] };
        assert(ca == pa[i as int]);
        assert(cb == pb[i as int]);
        assert(is_digit(ca)) by {
            if i >= n - la {
                assert(is_digit(a@[i - (n - la)]));
            }
        }
        assert(is_digit(cb)) by {
            if i >= n - lb {
                assert(is_digit(b@[i - (n - lb)]));
            }
        }
        proof {
            lemma_compare_step(pa.take(i as int), pb.take(i as int), ca, cb);
            assert(pa.take(i + 1) =~= pa.take(i as int).push(ca));
            assert(pb.take(i + 1) =~= pb.take(i as int).push(cb));
            assert(all_digits(pa.take(i + 1))) by {
                assert forall|k: int| 0 <= k < i + 1 implies is_digit(#[trigger] pa.take(i + 1)[k]) by {
                    if k < i {
                        assert(pa.take(i + 1)[k] == pa.take(i as int)[k]);
                    }
                }
            }
            assert(all_digits(pb.take(i + 1))) by {
                assert forall|k: int| 0 <= k < i + 1 implies is_digit(#[trigger] pb.take(i + 1)[k]) by {
                    if k < i {
                        assert(pb.take(i + 1)[k] == pb.take(i as int)[k]);
                    }
                }
            }
        }
        if c == 0 {
            let da = match char_digit(ca) {
                Some(d) => d,
                None => 0,
            };
            let db = match char_digit(cb) {
                Some(d) => d,
                None => 0,
            };
            c = if da > db { 1 } else if da < db { -1 } else { 0 };
        }
        i = i + 1;
    }
    proof {
        assert(pa.take(n as int) =~= pa);
        assert(pb.take(n as int) =~= pb);
        lemma_zero_padding(a@, (n - la) as nat);
        lemma_zero_padding(b@, (n - lb) as nat);
    }
    c
}


/// The views of the character vectors in `v`.
pub open spec fn char_views(v: Seq<Vec<char>>) -> Seq<Seq<char>> {
    v.map_values(|p: Vec<char>| p@)
}

/// The parts of `s` between its `.` characters.
pub fn split_parts(s: &Vec<char>) -> (parts: Vec<Vec<char>>)
    ensures
        char_views(parts@) == split_dots(s@),
{
    let mut done: Vec<Vec<char>> = Vec::new();
    let mut cur: Vec<char> = Vec::new();
    let mut i: usize = 0;
    assert(s@.take(0) =~= Seq::<char>::empty());
    assert(char_views(done@).push(cur@) =~= split_dots(s@.take(0)));
    while i < s.len()
        invariant
            i <= s.len(),
            char_views(done@).push(cur@) == split_dots(s@.take(i as int)),
        decreases s.len() - i,
    {
        let c = s[i];
        let ghost t = s@.take(i + 1);
        assert(t.drop_last() =~= s@.take(i as int));
        assert(t.last() == c);
        let ghost before = char_views(done@).push(cur@);
        if c == '.' {
            let finished = cur;
            done.push(finished);
            cur = Vec::new();
            assert(char_views(done@).push(cur@) =~= before.push(Seq::empty()));
        } else {
            cur.push(c);
            assert(char_views(done@).push(cur@) =~= before.update(
                before.len() - 1,
                before.last().push(c),
            ));
        }
        i = i + 1;
    }
    assert(s@.take(s.len() as int) =~= s@);
    done.push(cur);
    assert(char_views(done@) =~= split_dots(s@));
    done
}

proof fn lemma_split_at_char(s: Seq<char>, c: char, i: int)
    requires
        0 <= i <= s.len(),
        forall|k: int| 0 <= k < i ==> #[trigger] s[k] != c,
        i == s.len() || s[i] == c,
    ensures
        before_char(s, c) == s.take(i),
        after_char(s, c) == (if i < s.len() { Some(s.skip(i + 1)) } else { None::<Seq<char>> }),
    decreases i,
{
    if i == 0 {
        assert(s.take(0) =~= Seq::<char>::empty());
        if s.len() > 0 {
            assert(s.skip(1) =~= s.drop_first());
        }
    } else {
        let t = s.drop_first();
        assert forall|k: int| 0 <= k < i - 1 implies #[trigger] t[k] != c by {
            assert(t[k] == s[k + 1]);
        }
        lemma_split_at_char(t, c, i - 1);
        assert(seq![s[0]] + t.take(i - 1) =~= s.take(i));
        if i < s.len() {
            assert(t.skip(i) =~= s.skip(i + 1));
        }
    }
}

/// The position of the first `c` in `s`, or its length where it holds none.
fn first_index(s: &Vec<char>, c: char) -> (i: usize)
    ensures
        i <= s.len(),
        before_char(s@, c) == s@.take(i as int),
        after_char(s@, c) == (if i < s.len() { Some(s@.skip(i + 1)) } else { None::<Seq<char>> }),
{
    let mut i: usize = 0;
    while i < s.len() && s[i] != c
        invariant
            i <= s.len(),
            forall|k: int| 0 <= k < i ==> #[trigger] s@[k] != c,
        decreases s.len() - i,
    {
        i = i + 1;
    }
    proof {
        lemma_split_at_char(s@, c, i as int);
    }
    i
}

/// Whether `p` is a numeric identifier.
fn is_numeric_run(p: &Vec<char>) -> (r: bool)
    ensures
        r == is_numeric(p@),
{
    if p.len() == 0 {
        return false;
    }
    let mut k: usize = 0;
    while k < p.len()
        invariant
            k <= p.len(),
            forall|j: int| 0 <= j < k ==> is_digit(#[trigger] p@[j]),
        decreases p.len() - k,
    {
        if char_digit(p[k]).is_none() {
            return false;
        }
        k = k + 1;
    }
    true
}

/// Whether `p` is a pre-release identifier.
fn is_identifier_run(p: &Vec<char>) -> (r: bool)
    ensures
        r == is_identifier(p@),
{
    if p.len() == 0 {
        return false;
    }
    let mut k: usize = 0;
    while k < p.len()
        invariant
            k <= p.len(),
            forall|j: int| 0 <= j < k ==> is_ident_char(#[trigger] p@[j]),
        decreases p.len() - k,
    {
        let c = p[k];
        if !(('0' <= c && c <= '9') || ('a' <= c && c <= 'z') || ('A' <= c && c <= 'Z') || c
            == '-') {
            return false;
        }
        k = k + 1;
    }
    true
}

/// The parts of a version that precedence looks at.
pub struct SemverParts {
    /// `MAJOR`, `MINOR` and `PATCH`, as digit runs.
    pub core: Vec<Vec<char>>,
    /// The pre-release identifiers, where there is a pre-release.
    pub pre: Option<Vec<Vec<char>>>,
}

/// The parts of the version `s` where it is written as a Semantic Version;
/// `None` where it is not.
pub fn semver_parts(s: &Vec<char>) -> (r: Option<SemverParts>)
    ensures
        r is Some <==> is_semver(s@),
        r matches Some(p) ==> char_views(p.core@) == split_dots(core_part(s@)) && match p.pre {
            None => pre_release(s@) is None,
            Some(q) => pre_release(s@) matches Some(x) && char_views(q@) == split_dots(x),
        },
{
    let plus = first_index(s, '+');
    let main = slice_chars(s, 0, plus);
    assert(main@ == without_build(s@));
    let dash = first_index(&main, '-');
    let core_chars = slice_chars(&main, 0, dash);
    assert(core_chars@ == core_part(s@));
    let core = split_parts(&core_chars);
    if core.len() != 3 {
        return None;
    }
    let mut k: usize = 0;
    while k < 3
        invariant
            core.len() == 3,
            k <= 3,
            char_views(core@) == split_dots(core_part(s@)),
            forall|j: int| 0 <= j < k ==> is_numeric(#[trigger] split_dots(core_part(s@))[j]),
        decreases 3 - k,
    {
        if !is_numeric_run(&core[k]) {
            assert(char_views(core@)[k as int] == core@[k as int]@);
            return None;
        }
        assert(char_views(core@)[k as int] == core@[k as int]@);
        k = k + 1;
    }
    if dash == main.len() {
        return Some(SemverParts { core, pre: None });
    }
    let pre_chars = slice_chars(&main, dash + 1, main.len());
    assert(pre_chars@ =~= main@.skip(dash + 1));
    assert(pre_release(s@) == Some(pre_chars@));
    let pre = split_parts(&pre_chars);
    let mut k: usize = 0;
    while k < pre.len()
        invariant
            k <= pre.len(),
            char_views(pre@) == split_dots(pre_chars@),
            pre_release(s@) == Some(pre_chars@),
            forall|j: int| 0 <= j < k ==> is_identifier(#[trigger] split_dots(pre_chars@)[j]),
        decreases pre.len() - k,
    {
        assert(char_views(pre@)[k as int] == pre@[k as int]@);
        if !is_identifier_run(&pre[k]) {
            assert(!is_identifier(split_dots(pre_chars@)[k as int]));
            assert(!all_identifiers(split_dots(pre_chars@)));
            return None;
        }
        k = k + 1;
    }
    Some(SemverParts { core, pre: Some(pre) })
}

/// -1, 0 or 1 as `x` orders before, with or after `y` by code points.
pub fn text_order_of(x: &Vec<char>, y: &Vec<char>) -> (r: i8)
    ensures
        r == text_order(x@, y@),
{
    let mut k: usize = 0;
    assert(x@.skip(0) =~= x@);
    assert(y@.skip(0) =~= y@);
    while k < x.len() && k < y.len()
        invariant
            k <= x.len(),
            k <= y.len(),
            text_order(x@, y@) == text_order(x@.skip(k as int), y@.skip(k as int)),
        decreases x.len() - k,
    {
        assert(x@.skip(k as int)[0] == x@[k as int]);
        assert(y@.skip(k as int)[0] == y@[k as int]);
        if x[k] < y[k] {
            return -1;
        }
        if x[k] > y[k] {
            return 1;
        }
        assert(x@.skip(k as int).drop_first() =~= x@.skip(k + 1));
        assert(y@.skip(k as int).drop_first() =~= y@.skip(k + 1));
        k = k + 1;
    }
    if k == x.len() && k == y.len() {
        0
    } else if k == x.len() {
        -1
    } else {
        1
    }
}

/// -1, 0 or 1 as the identifier `x` orders before, with or after `y`.
pub fn ident_order_of(x: &Vec<char>, y: &Vec<char>) -> (r: i8)
    ensures
        r == ident_order(x@, y@),
{
    let nx = is_numeric_run(x);
    let ny = is_numeric_run(y);
    if nx && ny {
        compare_digit_runs(x, y)
    } else if nx {
        -1
    } else if ny {
        1
    } else {
        text_order_of(x, y)
    }
}

/// Whether the version `a` is newer than the installed version `b` (see
/// [`version_newer`]).
pub fn version_is_newer(a: &Vec<char>, b: &Vec<char>) -> (r: bool)
    ensures
        r == version_newer(a@, b@),
{
    let (pa, pb) = match (semver_parts(a), semver_parts(b)) {
        (Some(pa), Some(pb)) => (pa, pb),
        _ => {
            return !same_chars(a, b);
        },
    };
    let ghost ca = core_values(a@);
    let ghost cb = core_values(b@);
    let mut i: usize = 0;
    while i < 3
        invariant
            i <= 3,
            pa.core.len() == 3,
            pb.core.len() == 3,
            ca == core_values(a@),
            cb == core_values(b@),
            char_views(pa.core@) == split_dots(core_part(a@)),
            char_views(pb.core@) == split_dots(core_part(b@)),
            is_semver(a@),
            is_semver(b@),
            values_order(ca, cb, 0) == values_order(ca, cb, i as int),
        decreases 3 - i,
    {
        assert(char_views(pa.core@)[i as int] == pa.core@[i as int]@);
        assert(char_views(pb.core@)[i as int] == pb.core@[i as int]@);
        assert(is_numeric(split_dots(core_part(a@))[i as int]));
        assert(is_numeric(split_dots(core_part(b@))[i as int]));
        let c = compare_digit_runs(&pa.core[i], &pb.core[i]);
        if c > 0 {
            return true;
        }
        if c < 0 {
            return false;
        }
        i = i + 1;
    }
    match (pa.pre, pb.pre) {
        (None, None) => false,
        (None, Some(_)) => true,
        (Some(_), None) => false,
        (Some(xs), Some(ys)) => {
            let ghost vx = char_views(xs@);
            let ghost vy = char_views(ys@);
            assert(values_order(ca, cb, 3) == 0);
            assert(version_newer(a@, b@) == (idents_order(vx, vy, 0) > 0));
            let mut k: usize = 0;
            while k < xs.len() && k < ys.len()
                invariant
                    k <= xs.len(),
                    k <= ys.len(),
                    vx == char_views(xs@),
                    vy == char_views(ys@),
                    version_newer(a@, b@) == (idents_order(vx, vy, 0) > 0),
                    idents_order(vx, vy, 0) == idents_order(vx, vy, k as int),
                decreases xs.len() - k,
            {
                let o = ident_order_of(&xs[k], &ys[k]);
                assert(vx[k as int] == xs@[k as int]@);
                assert(vy[k as int] == ys@[k as int]@);
                assert(o == ident_order(vx[k as int], vy[k as int]));
                if o != 0 {
                    assert(idents_order(vx, vy, k as int) == o);
                    return o > 0;
                }
                k = k + 1;
            }
            k == ys.len() && k < xs.len()
        },
    }
}

/// Whether `a` and `b` hold the same characters.
fn same_chars(a: &Vec<char>, b: &Vec<char>) -> (r: bool)
    ensures
        r == (a@ == b@),
{
    if a.len() != b.len() {
        return false;
    }
    let mut k: usize = 0;
    while k < a.len()
        invariant
            a.len() == b.len(),
            k <= a.len(),
            forall|m: int| 0 <= m < k ==> a@[m] == b@[m],
        decreases a.len() - k,
    {
        if a[k] != b[k] {
            return false;
        }
        k = k + 1;
    }
    assert(a@ =~= b@);
    true
}

proof fn lemma_values_order_antisymmetric(a: Seq<int>, b: Seq<int>, i: int)
    ensures
        values_order(a, b, i) == -values_order(b, a, i),
    decreases a.len() + b.len() - i,
{
    if !(i < 0 || (i >= a.len() && i >= b.len())) && part_at(a, i) == part_at(b, i) {
        lemma_values_order_antisymmetric(a, b, i + 1);
    }
}

proof fn lemma_text_order_antisymmetric(x: Seq<char>, y: Seq<char>)
    ensures
        text_order(x, y) == -text_order(y, x),
    decreases x.len(),
{
    if x.len() > 0 && y.len() > 0 && x[0] == y[0] {
        lemma_text_order_antisymmetric(x.drop_first(), y.drop_first());
    }
}

proof fn lemma_idents_order_antisymmetric(xs: Seq<Seq<char>>, ys: Seq<Seq<char>>, i: int)
    ensures
        idents_order(xs, ys, i) == -idents_order(ys, xs, i),
    decreases xs.len() + ys.len() - i,
{
    if 0 <= i < xs.len() && i < ys.len() {
        lemma_text_order_antisymmetric(xs[i], ys[i]);
        lemma_idents_order_antisymmetric(xs, ys, i + 1);
    }
}

/// "Newer" between Semantic Versions is a strict order: no version is newer
/// than itself, and of two versions at most one is newer than the other.  A
/// version is never newer than itself, SemVer or not, so a newer version
/// always differs from the installed one.
pub proof fn lemma_version_order(a: Seq<char>, b: Seq<char>)
    ensures
        !version_newer(a, a),
        version_newer(a, b) ==> a != b,
        is_semver(a) && is_semver(b) && version_newer(a, b) ==> !version_newer(b, a),
{
    lemma_values_order_antisymmetric(core_values(a), core_values(a), 0);
    lemma_values_order_antisymmetric(core_values(a), core_values(b), 0);
    if let (Some(x), Some(y)) = (pre_release(a), pre_release(b)) {
        lemma_idents_order_antisymmetric(split_dots(x), split_dots(y), 0);
    }
    if let Some(x) = pre_release(a) {
        lemma_idents_order_antisymmetric(split_dots(x), split_dots(x), 0);
    }
}

proof fn lemma_text_order_first_difference(x: Seq<char>, y: Seq<char>, k: int)
    requires
        0 <= k < x.len(),
        k < y.len(),
        forall|j: int| 0 <= j < k ==> x[j] == y[j],
        x[k] > y[k],
    ensures
        text_order(x, y) == 1,
    decreases k,
{
    if k > 0 {
        assert forall|j: int| 0 <= j < k - 1 implies x.drop_first()[j] == y.drop_first()[j] by {
            assert(x[j + 1] == y[j + 1]);
        }
        assert(x[0] == y[0]);
        lemma_text_order_first_difference(x.drop_first(), y.drop_first(), k - 1);
    }
}

proof fn lemma_text_order_prefix(x: Seq<char>, y: Seq<char>)
    requires
        x.len() < y.len(),
        forall|j: int| 0 <= j < x.len() ==> x[j] == y[j],
    ensures
        text_order(x, y) == -1,
    decreases x.len(),
{
    if x.len() > 0 {
        assert(x[0] == y[0]);
        assert forall|j: int| 0 <= j < x.len() - 1 implies x.drop_first()[j] == y.drop_first()[j] by {
            assert(x[j + 1] == y[j + 1]);
        }
        lemma_text_order_prefix(x.drop_first(), y.drop_first());
    }
}

proof fn lemma_idents_first_difference(xs: Seq<Seq<char>>, ys: Seq<Seq<char>>, i: int, k: int)
    requires
        0 <= i <= k < xs.len(),
        k < ys.len(),
        forall|j: int| i <= j < k ==> ident_order(xs[j], ys[j]) == 0,
        ident_order(xs[k], ys[k]) > 0,
    ensures
        idents_order(xs, ys, i) > 0,
    decreases k - i,
{
    if i < k {
        lemma_idents_first_difference(xs, ys, i + 1, k);
    }
}

proof fn lemma_idents_prefix(xs: Seq<Seq<char>>, ys: Seq<Seq<char>>, i: int)
    requires
        0 <= i <= xs.len(),
        xs.len() < ys.len(),
        forall|j: int| i <= j < xs.len() ==> ident_order(xs[j], ys[j]) == 0,
    ensures
        idents_order(xs, ys, i) < 0,
    decreases xs.len() - i,
{
    if i < xs.len() {
        lemma_idents_prefix(xs, ys, i + 1);
    }
}

/// How pre-release identifiers order: numeric identifiers by their value, a
/// numeric identifier before any other, other identifiers by the code points
/// of their characters (the first differing character decides, a proper
/// prefix comes first); lists of identifiers by the first pair that differs,
/// a proper prefix (with equal identifiers) first.
pub proof fn lemma_identifier_order(
    x: Seq<char>,
    y: Seq<char>,
    k: int,
    xs: Seq<Seq<char>>,
    ys: Seq<Seq<char>>,
    m: int,
)
    ensures
        is_numeric(x) && is_numeric(y) ==> (ident_order(x, y) > 0 <==> digits_value(x)
            > digits_value(y)) && (ident_order(x, y) == 0 <==> digits_value(x) == digits_value(y)),
        is_numeric(x) && !is_numeric(y) ==> ident_order(x, y) < 0 && ident_order(y, x) > 0,
        !is_numeric(x) && !is_numeric(y) && 0 <= k < x.len() && k < y.len() && (forall|j: int|
            0 <= j < k ==> x[j] == y[j]) && x[k] > y[k] ==> ident_order(x, y) > 0,
        !is_numeric(x) && !is_numeric(y) && x.len() < y.len() && (forall|j: int|
            0 <= j < x.len() ==> x[j] == y[j]) ==> ident_order(x, y) < 0,
        ident_order(x, x) == 0,
        0 <= m < xs.len() && m < ys.len() && (forall|j: int|
            0 <= j < m ==> #[trigger] ident_order(xs[j], ys[j]) == 0) && ident_order(xs[m], ys[m])
            > 0 ==> idents_order(xs, ys, 0) > 0,
        xs.len() < ys.len() && (forall|j: int|
            0 <= j < xs.len() ==> #[trigger] ident_order(xs[j], ys[j]) == 0) ==> idents_order(
            xs,
            ys,
            0,
        ) < 0,
{
    lemma_text_order_antisymmetric(x, x);
    if !is_numeric(x) && !is_numeric(y) && 0 <= k < x.len() && k < y.len() && (forall|j: int|
        0 <= j < k ==> x[j] == y[j]) && x[k] > y[k] {
        lemma_text_order_first_difference(x, y, k);
    }
    if !is_numeric(x) && !is_numeric(y) && x.len() < y.len() && (forall|j: int|
        0 <= j < x.len() ==> x[j] == y[j]) {
        lemma_text_order_prefix(x, y);
    }
    if 0 <= m < xs.len() && m < ys.len() && (forall|j: int|
        0 <= j < m ==> #[trigger] ident_order(xs[j], ys[j]) == 0) && ident_order(xs[m], ys[m]) > 0 {
        lemma_idents_first_difference(xs, ys, 0, m);
    }
    if xs.len() < ys.len() && (forall|j: int|
        0 <= j < xs.len() ==> #[trigger] ident_order(xs[j], ys[j]) == 0) {
        lemma_idents_prefix(xs, ys, 0);
    }
}

/// The `k`-th of the numbers `MAJOR`, `MINOR`, `PATCH` of `s`.
pub open spec fn core_number(s: Seq<char>, k: int) -> int {
    digits_value(split_dots(core_part(s))[k])
}

/// Whether `a` and `b` agree in `MAJOR.MINOR.PATCH` before position `k` and
/// `a`'s number at `k` is the greater.
pub open spec fn core_greater_at(a: Seq<char>, b: Seq<char>, k: int) -> bool {
    &&& 0 <= k < 3
    &&& forall|j: int| 0 <= j < k ==> core_number(a, j) == core_number(b, j)
    &&& core_number(a, k) > core_number(b, k)
}

proof fn lemma_values_order_lex(a: Seq<int>, b: Seq<int>, n: int, i: int)
    requires
        a.len() == n,
        b.len() == n,
        0 <= i <= n,
    ensures
        values_order(a, b, i) > 0 <==> exists|k: int|
            i <= k < n && (forall|j: int| i <= j < k ==> a[j] == b[j]) && #[trigger] a[k] > b[k],
        values_order(a, b, i) == 0 <==> forall|j: int| i <= j < n ==> #[trigger] a[j] == b[j],
    decreases n - i,
{
    if i < n {
        lemma_values_order_lex(a, b, n, i + 1);
        if a[i] == b[i] {
            if values_order(a, b, i + 1) > 0 {
                let k = choose|k: int|
                    i + 1 <= k < n && (forall|j: int| i + 1 <= j < k ==> a[j] == b[j]) && #[trigger] a[k]
                        > b[k];
                assert(forall|j: int| i <= j < k ==> a[j] == b[j]);
            }
            if exists|k: int|
                i <= k < n && (forall|j: int| i <= j < k ==> a[j] == b[j]) && #[trigger] a[k] > b[k] {
                let k = choose|k: int|
                    i <= k < n && (forall|j: int| i <= j < k ==> a[j] == b[j]) && #[trigger] a[k] > b[k];
                assert(k != i);
                assert(forall|j: int| i + 1 <= j < k ==> a[j] == b[j]);
            }
        } else {
            if a[i] > b[i] {
                assert(forall|j: int| i <= j < i ==> a[j] == b[j]);
            } else {
                if exists|k: int|
                    i <= k < n && (forall|j: int| i <= j < k ==> a[j] == b[j]) && #[trigger] a[k]
                        > b[k] {
                    let k = choose|k: int|
                        i <= k < n && (forall|j: int| i <= j < k ==> a[j] == b[j]) && #[trigger] a[k]
                            > b[k];
                    if k > i {
                        assert(a[i] == b[i]);
                    }
                }
            }
        }
    }
}

/// Semantic Versioning precedence, stated over the versions' own numbers:
/// for two Semantic Versions, where `MAJOR.MINOR.PATCH` differ, the one
/// whose first differing number is greater is newer, pre-releases or not;
/// where they agree, a release is newer than a pre-release, a pre-release is
/// not newer than a release, and two releases are not newer than each other.
/// A version that is not written as SemVer is newer wherever it differs.
pub proof fn lemma_semver_precedence(a: Seq<char>, b: Seq<char>)
    ensures
        is_semver(a) && is_semver(b) && (exists|k: int| 0 <= k < 3 && core_number(a, k)
            != core_number(b, k)) ==> (version_newer(a, b) <==> exists|k: int|
            #[trigger] core_greater_at(a, b, k)),
        is_semver(a) && is_semver(b) && (forall|k: int|
            0 <= k < 3 ==> core_number(a, k) == #[trigger] core_number(b, k)) ==> {
            &&& pre_release(a) is None && pre_release(b) is Some ==> version_newer(a, b)
            &&& pre_release(a) is Some && pre_release(b) is None ==> !version_newer(a, b)
            &&& pre_release(a) is None && pre_release(b) is None ==> !version_newer(a, b)
            &&& pre_release(a) is Some && pre_release(b) is Some ==> (version_newer(a, b)
                <==> idents_order(split_dots(pre_release(a)->0), split_dots(pre_release(b)->0), 0)
                > 0)
        },
        !(is_semver(a) && is_semver(b)) ==> (version_newer(a, b) <==> a != b),
{
    if is_semver(a) && is_semver(b) {
        let ca = core_values(a);
        let cb = core_values(b);
        assert(ca.len() == 3 && cb.len() == 3);
        assert forall|k: int| 0 <= k < 3 implies ca[k] == core_number(a, k) && cb[k] == core_number(
            b,
            k,
        ) by {}
        lemma_values_order_lex(ca, cb, 3, 0);
        lemma_values_order_antisymmetric(ca, cb, 0);
        lemma_values_order_lex(cb, ca, 3, 0);
        if exists|k: int| 0 <= k < 3 && core_number(a, k) != core_number(b, k) {
            let k0 = choose|k: int| 0 <= k < 3 && core_number(a, k) != core_number(b, k);
            assert(ca[k0] != cb[k0]);
            assert(values_order(ca, cb, 0) != 0);
            if version_newer(a, b) {
                let k = choose|k: int|
                    0 <= k < 3 && (forall|j: int| 0 <= j < k ==> ca[j] == cb[j]) && #[trigger] ca[k]
                        > cb[k];
                assert(core_greater_at(a, b, k));
            }
            if exists|k: int| #[trigger] core_greater_at(a, b, k) {
                let k = choose|k: int| #[trigger] core_greater_at(a, b, k);
                assert(ca[k] > cb[k]);
                assert(forall|j: int| 0 <= j < k ==> ca[j] == cb[j]);
            }
        }
        if forall|k: int| 0 <= k < 3 ==> core_number(a, k) == #[trigger] core_number(b, k) {
            assert(forall|j: int| 0 <= j < 3 ==> #[trigger] ca[j] == cb[j]);
        }
    }
}

} // verus!
