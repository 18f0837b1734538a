//! Character-level model of the string operations that the library is
//! specified with (trimming, prefixes, searching, lines), together with
//! executable versions proved to compute exactly those models.
//!
//! Every string is viewed as its sequence of Unicode scalar values
//! (`Seq<char>`); positions are character positions.

use vstd::prelude::*;

verus! {

broadcast use vstd::string::group_string_axioms;

// ---------------------------------------------------------------------------
// Specifications
// ---------------------------------------------------------------------------

/// Unicode `White_Space`, the set that `char::is_whitespace` (and therefore
/// `str::trim`) uses.
pub open spec fn is_ws(c: char) -> bool {
    let x = c as u32;
    (9 <= x && x <= 13) || x == 32 || x == 0x85 || x == 0xA0 || x == 0x1680 || (0x2000 <= x
        && x <= 0x200A) || x == 0x2028 || x == 0x2029 || x == 0x202F || x == 0x205F || x
        == 0x3000
}

/// Which characters a trimming operation removes.
pub enum Strip {
    /// Unicode white space.
    Space,
    /// One given character.
    Char(char),
}

pub open spec fn strips(k: Strip, c: char) -> bool {
    match k {
        Strip::Space => is_ws(c),
        Strip::Char(d) => c == d,
    }
}

/// First position at or after `i` that does not hold a removable character.
pub open spec fn skip_fwd(s: Seq<char>, k: Strip, i: int) -> int
    decreases s.len() - i,
{
    if 0 <= i < s.len() && strips(k, s[i]) {
        skip_fwd(s, k, i + 1)
    } else {
        i
    }
}

/// Moving back from the end position `j`, never below `lo`, the first end
/// position whose previous character is not removable.
pub open spec fn skip_back(s: Seq<char>, k: Strip, lo: int, j: int) -> int
    decreases j - lo,
{
    if lo < j && j <= s.len() && strips(k, s[j - 1]) {
        skip_back(s, k, lo, j - 1)
    } else {
        j
    }
}

/// `str::trim_matches`: drop removable characters from both ends.
pub open spec fn trim_with(s: Seq<char>, k: Strip) -> Seq<char> {
    let a = skip_fwd(s, k, 0);
    s.subrange(a, skip_back(s, k, a, s.len() as int))
}

/// `str::trim`.
pub open spec fn trim(s: Seq<char>) -> Seq<char> {
    trim_with(s, Strip::Space)
}

/// `str::trim_end_matches` with one character.
pub open spec fn trim_end_char(s: Seq<char>, c: char) -> Seq<char> {
    s.take(skip_back(s, Strip::Char(c), 0, s.len() as int))
}

/// `str::starts_with`.
pub open spec fn starts_with(s: Seq<char>, p: Seq<char>) -> bool {
    p.len() <= s.len() && s.take(p.len() as int) == p
}

/// `str::ends_with`.
pub open spec fn ends_with(s: Seq<char>, p: Seq<char>) -> bool {
    p.len() <= s.len() && s.skip(s.len() - p.len()) == p
}

/// `str::strip_prefix`.
pub open spec fn strip_prefix(s: Seq<char>, p: Seq<char>) -> Option<Seq<char>> {
    if starts_with(s, p) {
        Some(s.skip(p.len() as int))
    } else {
        None
    }
}

/// `str::strip_suffix`.
pub open spec fn strip_suffix(s: Seq<char>, p: Seq<char>) -> Option<Seq<char>> {
    if ends_with(s, p) {
        Some(s.take(s.len() - p.len()))
    } else {
        None
    }
}

/// `strip_prefix(p).unwrap_or(s)`.
pub open spec fn drop_prefix(s: Seq<char>, p: Seq<char>) -> Seq<char> {
    match strip_prefix(s, p) {
        Some(r) => r,
        None => s,
    }
}

/// `strip_suffix(p).unwrap_or(s)`.
pub open spec fn drop_suffix(s: Seq<char>, p: Seq<char>) -> Seq<char> {
    match strip_suffix(s, p) {
        Some(r) => r,
        None => s,
    }
}

/// First position at or after `i` that holds `c`.
pub open spec fn find_from(s: Seq<char>, c: char, i: int) -> Option<int>
    decreases s.len() - i,
{
    if i < 0 || i >= s.len() {
        None
    } else if s[i] == c {
        Some(i)
    } else {
        find_from(s, c, i + 1)
    }
}

/// `str::find` with one character.
pub open spec fn find_char(s: Seq<char>, c: char) -> Option<int> {
    find_from(s, c, 0)
}

/// Last position before `j` that holds `c`.
pub open spec fn rfind_before(s: Seq<char>, c: char, j: int) -> Option<int>
    decreases j,
{
    if j <= 0 || j > s.len() {
        None
    } else if s[j - 1] == c {
        Some(j - 1)
    } else {
        rfind_before(s, c, j - 1)
    }
}

/// `str::rfind` with one character.
pub open spec fn rfind_char(s: Seq<char>, c: char) -> Option<int> {
    rfind_before(s, c, s.len() as int)
}

/// `str::split_once` with one character.
pub open spec fn split_once(s: Seq<char>, c: char) -> Option<(Seq<char>, Seq<char>)> {
    match find_char(s, c) {
        Some(k) => Some((s.take(k), s.skip(k + 1))),
        None => None,
    }
}

/// `p` occurs in `s` starting at position `i`.
pub open spec fn occurs_at(s: Seq<char>, p: Seq<char>, i: int) -> bool {
    0 <= i && i + p.len() <= s.len() && s.subrange(i, i + p.len()) == p
}

/// First position at or after `i` where `p` occurs.
pub open spec fn find_sub_from(s: Seq<char>, p: Seq<char>, i: int) -> Option<int>
    decreases s.len() + 1 - i,
{
    if i < 0 || i + p.len() > s.len() {
        None
    } else if occurs_at(s, p, i) {
        Some(i)
    } else {
        find_sub_from(s, p, i + 1)
    }
}

/// `str::find` with a string pattern.
pub open spec fn find_sub(s: Seq<char>, p: Seq<char>) -> Option<int> {
    find_sub_from(s, p, 0)
}

/// `str::contains` with a string pattern.
pub open spec fn contains_sub(s: Seq<char>, p: Seq<char>) -> bool {
    find_sub(s, p) is Some
}

/// Text after the last `c`, or all of `s` (`rsplit(c).next()`).
pub open spec fn after_last(s: Seq<char>, c: char) -> Seq<char> {
    match rfind_char(s, c) {
        Some(k) => s.skip(k + 1),
        None => s,
    }
}

/// Number of characters before the first `'\n'` of `s`, or its length.
pub open spec fn line_len(s: Seq<char>) -> int {
    match find_char(s, '\n') {
        Some(k) => k,
        None => s.len() as int,
    }
}

/// The first line of a non-empty `s` as `str::lines` yields it: up to the
/// first `'\n'`, without one `'\r'` that stands right before that `'\n'`.
pub open spec fn first_line(s: Seq<char>) -> Seq<char> {
    let n = line_len(s);
    if n < s.len() && n > 0 && s[n - 1] == '\r' {
        s.take(n - 1)
    } else {
        s.take(n)
    }
}

/// What follows the first line and its terminating `'\n'`.
pub open spec fn after_first_line(s: Seq<char>) -> Seq<char> {
    let n = line_len(s);
    if n < s.len() {
        s.skip(n + 1)
    } else {
        Seq::empty()
    }
}

/// `str::lines`.
pub open spec fn lines(s: Seq<char>) -> Seq<Seq<char>>
    decreases s.len(),
{
    if s.len() == 0 {
        Seq::empty()
    } else {
        proof {
            lemma_find_from_bounds(s, '\n', 0);
        }
        seq![first_line(s)].add(lines(after_first_line(s)))
    }
}

// ---------------------------------------------------------------------------
// Lemmas
// ---------------------------------------------------------------------------

pub proof fn lemma_find_from_bounds(s: Seq<char>, c: char, i: int)
    ensures
        find_from(s, c, i) matches Some(k) ==> i <= k < s.len() && s[k] == c,
    decreases s.len() - i,
{
    if 0 <= i < s.len() && s[i] != c {
        lemma_find_from_bounds(s, c, i + 1);
    }
}

pub proof fn lemma_rfind_before_bounds(s: Seq<char>, c: char, j: int)
    ensures
        rfind_before(s, c, j) matches Some(k) ==> 0 <= k < j && k < s.len() && s[k] == c,
    decreases j,
{
    if 0 < j <= s.len() && s[j - 1] != c {
        lemma_rfind_before_bounds(s, c, j - 1);
    }
}

pub proof fn lemma_find_sub_from_bounds(s: Seq<char>, p: Seq<char>, i: int)
    ensures
        find_sub_from(s, p, i) matches Some(k) ==> i <= k && occurs_at(s, p, k),
    decreases s.len() + 1 - i,
{
    if 0 <= i && i + p.len() <= s.len() && !occurs_at(s, p, i) {
        lemma_find_sub_from_bounds(s, p, i + 1);
    }
}

/// `find_char` is the first occurrence.
pub proof fn lemma_find_from_first(s: Seq<char>, c: char, i: int)
    requires
        0 <= i,
    ensures
        find_from(s, c, i) matches Some(k) ==> forall|j: int| i <= j < k ==> s[j] != c,
        find_from(s, c, i) is None ==> forall|j: int| i <= j < s.len() ==> s[j] != c,
    decreases s.len() - i,
{
    if i < s.len() && s[i] != c {
        lemma_find_from_first(s, c, i + 1);
    }
}

/// The search finds the first position that holds `c`.
pub proof fn lemma_find_from_exact(s: Seq<char>, c: char, i: int, k: int)
    requires
        0 <= i <= k <= s.len(),
        forall|j: int| i <= j < k ==> s[j] != c,
        k == s.len() || s[k] == c,
    ensures
        find_from(s, c, i) == if k < s.len() {
            Some(k)
        } else {
            None::<int>
        },
    decreases k - i,
{
    if i < k {
        lemma_find_from_exact(s, c, i + 1, k);
    }
}

/// Searching a suffix of `s` is searching `s` from a later position.
pub proof fn lemma_find_from_skip(s: Seq<char>, c: char, p: int, i: int)
    requires
        0 <= p <= s.len(),
        0 <= i,
    ensures
        find_from(s.skip(p), c, i) == (match find_from(s, c, i + p) {
            Some(k) => Some(k - p),
            None => None,
        }),
    decreases s.len() - p - i,
{
    if i < s.len() - p && s.skip(p)[i] != c {
        lemma_find_from_skip(s, c, p, i + 1);
    }
}

/// The first line of the suffix of `s` that starts at `pos`, and what follows
/// it, in terms of positions in `s`.
pub proof fn lemma_line_at(s: Seq<char>, pos: int)
    requires
        0 <= pos < s.len(),
    ensures
        ({
            let n = match find_from(s, '\n', pos) {
                Some(k) => k,
                None => s.len() as int,
            };
            let le = if n < s.len() && n > pos && s[n - 1] == '\r' {
                n - 1
            } else {
                n
            };
            &&& pos <= le <= n <= s.len()
            &&& first_line(s.skip(pos)) == s.subrange(pos, le)
            &&& after_first_line(s.skip(pos)) == if n < s.len() {
                s.skip(n + 1)
            } else {
                Seq::<char>::empty()
            }
        }),
{
    lemma_find_from_skip(s, '\n', pos, 0);
    lemma_find_from_bounds(s, '\n', pos);
    let w = s.skip(pos);
    let n = match find_from(s, '\n', pos) {
        Some(k) => k,
        None => s.len() as int,
    };
    assert(line_len(w) == n - pos);
    if n < s.len() {
        assert(w.skip(n - pos + 1) == s.skip(n + 1));
    }
    assert(w.take(n - pos) == s.subrange(pos, n));
    if n > pos {
        assert(w.take(n - pos - 1) == s.subrange(pos, n - 1));
    }
}

/// `t` is a piece of `s`: the characters of `s` from one position up to a
/// later one.
pub open spec fn piece(t: Seq<char>, s: Seq<char>) -> bool {
    exists|a: int, b: int| 0 <= a <= b <= s.len() && #[trigger] s.subrange(a, b) == t
}

/// A piece of a piece of `s` is a piece of `s`.
pub proof fn lemma_piece_trans(t: Seq<char>, u: Seq<char>, s: Seq<char>)
    requires
        piece(t, u),
        piece(u, s),
    ensures
        piece(t, s),
{
    let (a1, b1) = choose|a: int, b: int| 0 <= a <= b <= s.len() && #[trigger] s.subrange(a, b) == u;
    let (a2, b2) = choose|a: int, b: int| 0 <= a <= b <= u.len() && #[trigger] u.subrange(a, b) == t;
    assert(s.subrange(a1 + a2, a1 + b2) =~= t);
}

/// Every subrange of `s` is a piece of it.
pub proof fn lemma_subrange_piece(s: Seq<char>, a: int, b: int)
    requires
        0 <= a <= b <= s.len(),
    ensures
        piece(s.subrange(a, b), s),
{
}

/// The search from `k` finds an occurrence at or after `k`, when there is one.
proof fn lemma_find_sub_some(s: Seq<char>, p: Seq<char>, k: int, i: int)
    requires
        0 <= k <= i,
        occurs_at(s, p, i),
    ensures
        find_sub_from(s, p, k) is Some,
    decreases i - k,
{
    if !occurs_at(s, p, k) {
        lemma_find_sub_some(s, p, k + 1, i);
    }
}

/// A piece of `s` occurs in `s`.
pub proof fn lemma_piece_contained(t: Seq<char>, s: Seq<char>)
    requires
        piece(t, s),
    ensures
        contains_sub(s, t),
{
    let (a, b) = choose|a: int, b: int| 0 <= a <= b <= s.len() && #[trigger] s.subrange(a, b) == t;
    assert(occurs_at(s, t, a));
    lemma_find_sub_some(s, t, 0, a);
}

proof fn lemma_skip_fwd_bounds(s: Seq<char>, k: Strip, i: int)
    requires
        0 <= i <= s.len(),
    ensures
        i <= skip_fwd(s, k, i) <= s.len(),
    decreases s.len() - i,
{
    if i < s.len() && strips(k, s[i]) {
        lemma_skip_fwd_bounds(s, k, i + 1);
    }
}

proof fn lemma_skip_back_bounds(s: Seq<char>, k: Strip, lo: int, j: int)
    requires
        0 <= lo <= j <= s.len(),
    ensures
        lo <= skip_back(s, k, lo, j) <= j,
    decreases j - lo,
{
    if lo < j && strips(k, s[j - 1]) {
        lemma_skip_back_bounds(s, k, lo, j - 1);
    }
}

/// Trimming gives a piece of the text.
pub proof fn lemma_trim_with_piece(s: Seq<char>, k: Strip)
    ensures
        piece(trim_with(s, k), s),
{
    lemma_skip_fwd_bounds(s, k, 0);
    let a = skip_fwd(s, k, 0);
    lemma_skip_back_bounds(s, k, a, s.len() as int);
    lemma_subrange_piece(s, a, skip_back(s, k, a, s.len() as int));
}

/// Every line of `s` is a piece of `s`.
pub proof fn lemma_lines_are_pieces(s: Seq<char>, i: int)
    requires
        0 <= i < lines(s).len(),
    ensures
        piece(lines(s)[i], s),
    decreases s.len(),
{
    lemma_find_from_bounds(s, '\n', 0);
    let n = line_len(s);
    let rest = after_first_line(s);
    if i == 0 {
        if n < s.len() && n > 0 && s[n - 1] == '\r' {
            assert(s.take(n - 1) == s.subrange(0, n - 1));
            lemma_subrange_piece(s, 0, n - 1);
        } else {
            assert(s.take(n) == s.subrange(0, n));
            lemma_subrange_piece(s, 0, n);
        }
    } else {
        assert(lines(s)[i] == lines(rest)[i - 1]);
        lemma_lines_are_pieces(rest, i - 1);
        if n < s.len() {
            assert(rest == s.subrange(n + 1, s.len() as int));
            lemma_subrange_piece(s, n + 1, s.len() as int);
        } else {
            assert(rest == s.subrange(0, 0));
            lemma_subrange_piece(s, 0, 0);
        }
        lemma_piece_trans(lines(s)[i], rest, s);
    }
}

/// A line without a line break or a trailing carriage return, followed by a
/// line break, is the first line of the text.
pub proof fn lemma_lines_cons(a: Seq<char>, rest: Seq<char>)
    requires
        forall|j: int| 0 <= j < a.len() ==> #[trigger] a[j] != '\n',
        !(a.len() > 0 && a.last() == '\r'),
    ensures
        lines(a + "\n"@ + rest) == seq![a] + lines(rest),
{
    reveal_strlit("\n");
    let s = a + "\n"@ + rest;
    assert(s[a.len() as int] == '\n');
    assert forall|j: int| 0 <= j < a.len() implies s[j] != '\n' by {
        assert(s[j] == a[j]);
    }
    lemma_find_from_exact(s, '\n', 0, a.len() as int);
    if a.len() > 0 {
        assert(s[a.len() - 1] == a.last());
    }
    assert(first_line(s) =~= a);
    assert(after_first_line(s) =~= rest);
    assert(seq![a].add(lines(rest)) == seq![a] + lines(rest));
}

/// Occurrences of `p` in `a + b` that start inside `a` end inside `a`.
pub open spec fn no_straddle(a: Seq<char>, b: Seq<char>, p: Seq<char>) -> bool {
    forall|i: int| 0 <= i < a.len() && i + p.len() > a.len() ==> !#[trigger] occurs_at(a + b, p, i)
}

proof fn lemma_find_sub_from_left(a: Seq<char>, b: Seq<char>, p: Seq<char>, i: int)
    requires
        0 <= i <= a.len(),
        no_straddle(a, b, p),
    ensures
        find_sub_from(a + b, p, i) == (match find_sub_from(a, p, i) {
            Some(k) => Some(k),
            None => find_sub_from(a + b, p, a.len() as int),
        }),
    decreases a.len() - i,
{
    if i < a.len() {
        lemma_find_sub_from_left(a, b, p, i + 1);
        if i + p.len() <= a.len() {
            assert((a + b).subrange(i, i + p.len()) == a.subrange(i, i + p.len()));
            assert(occurs_at(a + b, p, i) == occurs_at(a, p, i));
        } else {
            assert(!occurs_at(a + b, p, i));
            assert(find_sub_from(a, p, i) is None);
            assert(find_sub_from(a, p, i + 1) is None);
        }
    } else if p.len() == 0 {
        assert(a.subrange(i, i) =~= p);
        assert((a + b).subrange(i, i) =~= p);
    }
}

proof fn lemma_find_sub_from_right(a: Seq<char>, b: Seq<char>, p: Seq<char>, j: int)
    requires
        0 <= j <= b.len() + 1,
    ensures
        find_sub_from(a + b, p, a.len() + j) == (match find_sub_from(b, p, j) {
            Some(k) => Some(k + a.len()),
            None => None,
        }),
    decreases b.len() + 1 - j,
{
    let s = a + b;
    let i = a.len() + j;
    if i + p.len() <= s.len() {
        assert(s.subrange(i, i + p.len()) == b.subrange(j, j + p.len()));
        lemma_find_sub_from_right(a, b, p, j + 1);
    }
}

/// Searching `a + b` searches `a`, then `b`, when no occurrence straddles.
pub proof fn lemma_find_sub_concat(a: Seq<char>, b: Seq<char>, p: Seq<char>)
    requires
        no_straddle(a, b, p),
    ensures
        find_sub(a + b, p) == (match find_sub(a, p) {
            Some(k) => Some(k),
            None => match find_sub(b, p) {
                Some(k) => Some(k + a.len()),
                None => None,
            },
        }),
{
    lemma_find_sub_from_left(a, b, p, 0);
    lemma_find_sub_from_right(a, b, p, 0);
    if find_sub(a, p) is None {
        assert(a.len() + 0 == a.len());
    }
}

/// A pattern whose first character occurs nowhere else in it never
/// straddles into a text that starts with that character.
pub proof fn lemma_no_straddle_lead(a: Seq<char>, b: Seq<char>, p: Seq<char>)
    requires
        p.len() > 0,
        forall|j: int| 0 < j < p.len() ==> #[trigger] p[j] != p[0],
        b.len() > 0,
        b[0] == p[0],
    ensures
        no_straddle(a, b, p),
{
    assert forall|i: int| 0 <= i < a.len() && i + p.len() > a.len() implies !#[trigger] occurs_at(
        a + b,
        p,
        i,
    ) by {
        if occurs_at(a + b, p, i) {
            let s = a + b;
            assert(s.subrange(i, i + p.len())[a.len() - i] == s[a.len() as int]);
        }
    }
}

/// A pattern without a line break never straddles a line break.
pub proof fn lemma_no_straddle_newline(a: Seq<char>, b: Seq<char>, p: Seq<char>)
    requires
        forall|j: int| 0 <= j < p.len() ==> p[j] != '\n',
        (a.len() > 0 && a.last() == '\n') || (b.len() > 0 && b[0] == '\n'),
    ensures
        no_straddle(a, b, p),
{
    assert forall|i: int| 0 <= i < a.len() && i + p.len() > a.len() implies !#[trigger] occurs_at(
        a + b,
        p,
        i,
    ) by {
        if occurs_at(a + b, p, i) {
            let s = a + b;
            if a.len() > 0 && a.last() == '\n' {
                assert(s.subrange(i, i + p.len())[a.len() - 1 - i] == s[a.len() - 1]);
            } else {
                assert(s.subrange(i, i + p.len())[a.len() - i] == s[a.len() as int]);
            }
        }
    }
}

/// A pattern whose first character does not occur does not occur.
pub proof fn lemma_find_sub_absent_first(s: Seq<char>, p: Seq<char>, i: int)
    requires
        p.len() > 0,
        forall|j: int| 0 <= j < s.len() ==> s[j] != p[0],
    ensures
        find_sub_from(s, p, i) is None,
    decreases s.len() + 1 - i,
{
    if 0 <= i && i + p.len() <= s.len() {
        assert(s.subrange(i, i + p.len())[0] == s[i]);
        lemma_find_sub_absent_first(s, p, i + 1);
    }
}

/// A non-empty pattern is found at the start of a text it begins.
pub proof fn lemma_find_sub_at_start(p: Seq<char>, rest: Seq<char>)
    ensures
        find_sub(p + rest, p) == Some(0int),
{
    assert((p + rest).subrange(0, p.len() as int) == p);
}

// ---------------------------------------------------------------------------
// Executable operations
// ---------------------------------------------------------------------------

/// The characters of `s`, in order.
pub fn chars_of(s: &str) -> (out: Vec<char>)
    ensures
        out@ == s@,
{
    let mut out: Vec<char> = Vec::new();
    for c in it: s.chars()
        invariant
            out@ == it.seq().take(it.index() as int),
            it.seq() == s@,
    {
        out.push(c);
    }
    out
}

pub fn is_ws_char(c: char) -> (r: bool)
    ensures
        r == is_ws(c),
{
    let x = c as u32;
    (9 <= x && x <= 13) || x == 32 || x == 0x85 || x == 0xA0 || x == 0x1680 || (0x2000 <= x
        && x <= 0x200A) || x == 0x2028 || x == 0x2029 || x == 0x202F || x == 0x205F || x
        == 0x3000
}

fn strips_char(k: &Strip, c: char) -> (r: bool)
    ensures
        r == strips(*k, c),
{
    match k {
        Strip::Space => is_ws_char(c),
        Strip::Char(d) => c == *d,
    }
}

/// Bounds `(a, b)` with `v@.subrange(a, b) == trim_with(v@, k)`, searched
/// within `[lo, hi)`.
pub fn trim_bounds(v: &Vec<char>, k: &Strip, lo: usize, hi: usize) -> (r: (usize, usize))
    requires
        lo <= hi <= v.len(),
    ensures
        lo <= r.0 <= r.1 <= hi,
        v@.subrange(r.0 as int, r.1 as int) == trim_with(v@.subrange(lo as int, hi as int), *k),
{
    let ghost w = v@.subrange(lo as int, hi as int);
    let mut a = lo;
    while a < hi && strips_char(k, v[a])
        invariant
            lo <= a <= hi <= v.len(),
            w == v@.subrange(lo as int, hi as int),
            skip_fwd(w, *k, 0) == skip_fwd(w, *k, a - lo),
        decreases hi - a,
    {
        a = a + 1;
    }
    let mut b = hi;
    while a < b && strips_char(k, v[b - 1])
        invariant
            lo <= a <= b <= hi <= v.len(),
            w == v@.subrange(lo as int, hi as int),
            skip_fwd(w, *k, 0) == a - lo,
            skip_back(w, *k, a - lo, w.len() as int) == skip_back(w, *k, a - lo, b - lo),
        decreases b,
    {
        b = b - 1;
    }
    assert(v@.subrange(a as int, b as int) == w.subrange(a - lo, b - lo));
    (a, b)
}

/// End bound `e` with `v@.subrange(lo, e) == trim_end_char(v@.subrange(lo, hi), c)`.
pub fn trim_end_char_in(v: &Vec<char>, lo: usize, hi: usize, c: char) -> (e: usize)
    requires
        lo <= hi <= v.len(),
    ensures
        lo <= e <= hi,
        v@.subrange(lo as int, e as int) == trim_end_char(v@.subrange(lo as int, hi as int), c),
{
    let ghost w = v@.subrange(lo as int, hi as int);
    let mut e = hi;
    while lo < e && v[e - 1] == c
        invariant
            lo <= e <= hi <= v.len(),
            w == v@.subrange(lo as int, hi as int),
            skip_back(w, Strip::Char(c), 0, w.len() as int) == skip_back(
                w,
                Strip::Char(c),
                0,
                e - lo,
            ),
        decreases e,
    {
        e = e - 1;
    }
    assert(w.take(e - lo) == v@.subrange(lo as int, e as int));
    e
}

/// `p` occurs in `v` at position `i`.
pub fn occurs_at_exec(v: &Vec<char>, p: &Vec<char>, i: usize) -> (r: bool)
    ensures
        r == occurs_at(v@, p@, i as int),
{
    if i > v.len() || p.len() > v.len() - i {
        return false;
    }
    let mut j: usize = 0;
    while j < p.len()
        invariant
            i + p.len() <= v.len(),
            j <= p.len(),
            forall|t: int| 0 <= t < j ==> v@[i + t] == p@[t],
        decreases p.len() - j,
    {
        if v[i + j] != p[j] {
            assert(v@.subrange(i as int, i + p.len())[j as int] != p@[j as int]);
            return false;
        }
        j = j + 1;
    }
    assert(v@.subrange(i as int, i + p.len()) == p@);
    true
}

/// `starts_with(v@.subrange(lo, hi), p@)`.
pub fn starts_with_in(v: &Vec<char>, lo: usize, hi: usize, p: &Vec<char>) -> (r: bool)
    requires
        lo <= hi <= v.len(),
    ensures
        r == starts_with(v@.subrange(lo as int, hi as int), p@),
{
    if p.len() > hi - lo {
        return false;
    }
    let r = occurs_at_exec(v, p, lo);
    assert(v@.subrange(lo as int, hi as int).take(p.len() as int) == v@.subrange(
        lo as int,
        lo + p.len(),
    ));
    r
}

/// `v@.subrange(lo, hi) == p@`.
pub fn eq_in(v: &Vec<char>, lo: usize, hi: usize, p: &Vec<char>) -> (r: bool)
    requires
        lo <= hi <= v.len(),
    ensures
        r == (v@.subrange(lo as int, hi as int) == p@),
{
    if p.len() != hi - lo {
        return false;
    }
    occurs_at_exec(v, p, lo)
}

/// `strip_prefix(v@.subrange(lo, hi), p@)`, as the new lower bound.
pub fn strip_prefix_in(v: &Vec<char>, lo: usize, hi: usize, p: &Vec<char>) -> (r: Option<usize>)
    requires
        lo <= hi <= v.len(),
    ensures
        r matches Some(k) ==> lo <= k <= hi && strip_prefix(
            v@.subrange(lo as int, hi as int),
            p@,
        ) == Some(v@.subrange(k as int, hi as int)),
        r is None ==> strip_prefix(v@.subrange(lo as int, hi as int), p@) is None,
{
    if starts_with_in(v, lo, hi, p) {
        assert(v@.subrange(lo as int, hi as int).skip(p.len() as int) == v@.subrange(
            lo + p.len(),
            hi as int,
        ));
        Some(lo + p.len())
    } else {
        None
    }
}

/// `strip_suffix(v@.subrange(lo, hi), p@)`, as the new upper bound.
pub fn strip_suffix_in(v: &Vec<char>, lo: usize, hi: usize, p: &Vec<char>) -> (r: Option<usize>)
    requires
        lo <= hi <= v.len(),
    ensures
        r matches Some(k) ==> lo <= k <= hi && strip_suffix(
            v@.subrange(lo as int, hi as int),
            p@,
        ) == Some(v@.subrange(lo as int, k as int)),
        r is None ==> strip_suffix(v@.subrange(lo as int, hi as int), p@) is None,
{
    let ghost w = v@.subrange(lo as int, hi as int);
    if p.len() > hi - lo {
        return None;
    }
    let k = hi - p.len();
    let r = occurs_at_exec(v, p, k);
    assert(w.skip(w.len() - p.len()) == v@.subrange(k as int, hi as int));
    assert(w.take(w.len() - p.len()) == v@.subrange(lo as int, k as int));
    if r {
        Some(k)
    } else {
        None
    }
}

/// `split_once(v@.subrange(lo, hi), c)`, as the position of the separator.
pub fn split_once_in(v: &Vec<char>, lo: usize, hi: usize, c: char) -> (r: Option<usize>)
    requires
        lo <= hi <= v.len(),
    ensures
        r matches Some(k) ==> lo <= k < hi && split_once(v@.subrange(lo as int, hi as int), c)
            == Some((v@.subrange(lo as int, k as int), v@.subrange(k + 1, hi as int))),
        r is None ==> split_once(v@.subrange(lo as int, hi as int), c) is None,
{
    let ghost w = v@.subrange(lo as int, hi as int);
    let mut j = lo;
    while j < hi
        invariant
            lo <= j <= hi <= v.len(),
            w == v@.subrange(lo as int, hi as int),
            find_from(w, c, 0) == find_from(w, c, j - lo),
        decreases hi - j,
    {
        if v[j] == c {
            assert(w.take(j - lo) == v@.subrange(lo as int, j as int));
            assert(w.skip(j - lo + 1) == v@.subrange(j + 1, hi as int));
            return Some(j);
        }
        j = j + 1;
    }
    None
}

/// `contains_sub(v@.subrange(lo, hi), p@)`.
pub fn contains_in(v: &Vec<char>, lo: usize, hi: usize, p: &Vec<char>) -> (r: bool)
    requires
        lo <= hi <= v.len(),
    ensures
        r == contains_sub(v@.subrange(lo as int, hi as int), p@),
{
    let ghost w = v@.subrange(lo as int, hi as int);
    if p.len() > hi - lo {
        return false;
    }
    let mut j = lo;
    while j <= hi - p.len()
        invariant
            lo <= j,
            p.len() <= hi - lo,
            hi <= v.len(),
            w == v@.subrange(lo as int, hi as int),
            find_sub_from(w, p@, 0) == find_sub_from(w, p@, j - lo),
        decreases hi - j,
    {
        let found = occurs_at_exec(v, p, j);
        assert(w.subrange(j - lo, j - lo + p.len()) == v@.subrange(j as int, j + p.len()));
        assert(found == occurs_at(w, p@, j - lo));
        if found {
            return true;
        }
        if j == hi - p.len() {
            assert(find_sub_from(w, p@, j - lo + 1) is None);
            return false;
        }
        j = j + 1;
    }
    false
}

/// Executable `find_from`.
pub fn find_from_exec(v: &Vec<char>, c: char, i: usize) -> (r: Option<usize>)
    ensures
        r matches Some(k) ==> find_from(v@, c, i as int) == Some(k as int),
        r is None ==> find_from(v@, c, i as int) is None,
{
    let mut j = i;
    while j < v.len()
        invariant
            i <= j,
            find_from(v@, c, i as int) == find_from(v@, c, j as int),
        decreases v.len() - j,
    {
        if v[j] == c {
            return Some(j);
        }
        j = j + 1;
    }
    None
}

/// Executable `rfind_before`.
pub fn rfind_before_exec(v: &Vec<char>, c: char, j: usize) -> (r: Option<usize>)
    requires
        j <= v.len(),
    ensures
        r matches Some(k) ==> rfind_before(v@, c, j as int) == Some(k as int),
        r is None ==> rfind_before(v@, c, j as int) is None,
{
    let mut e = j;
    while e > 0
        invariant
            e <= j <= v.len(),
            rfind_before(v@, c, j as int) == rfind_before(v@, c, e as int),
        decreases e,
    {
        if v[e - 1] == c {
            return Some(e - 1);
        }
        e = e - 1;
    }
    None
}

/// Executable `find_sub_from`.
pub fn find_sub_from_exec(v: &Vec<char>, p: &Vec<char>, i: usize) -> (r: Option<usize>)
    ensures
        r matches Some(k) ==> find_sub_from(v@, p@, i as int) == Some(k as int),
        r is None ==> find_sub_from(v@, p@, i as int) is None,
{
    if p.len() > v.len() {
        return None;
    }
    let mut j = i;
    while j <= v.len() - p.len()
        invariant
            i <= j,
            p.len() <= v.len(),
            find_sub_from(v@, p@, i as int) == find_sub_from(v@, p@, j as int),
        decreases v.len() - j,
    {
        if occurs_at_exec(v, p, j) {
            return Some(j);
        }
        if j == v.len() - p.len() {
            assert(find_sub_from(v@, p@, j + 1) is None);
            return None;
        }
        j = j + 1;
    }
    None
}

/// The characters of `s` between positions `a` and `b`, as a new string.
pub fn substring(s: &str, a: usize, b: usize) -> (r: String)
    requires
        a <= b <= s@.len(),
    ensures
        r@ == s@.subrange(a as int, b as int),
{
    String::from_str(s.substring_char(a, b))
}

/// String equality on the character view.
pub fn str_eq(a: &str, b: &str) -> (r: bool)
    ensures
        r == (a@ == b@),
{
    let x = String::from_str(a);
    let y = String::from_str(b);
    x == y
}

} // verus!
