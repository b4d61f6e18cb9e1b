//! Character-level text operations: prefixes, searching, trimming and line
//! splitting, stated over `Seq<char>` and carried out on `Vec<char>` buffers
//! by index ranges.
use vstd::prelude::*;

verus! {

broadcast use vstd::string::group_string_axioms;

/// The Unicode `White_Space` property of a character, which `char::is_whitespace`
/// and `str::trim` go by: U+0009 to U+000D, U+0020, U+0085, U+00A0, U+1680,
/// U+2000 to U+200A, U+2028, U+2029, U+202F, U+205F and U+3000.
pub open spec fn char_is_whitespace(c: char) -> bool {
    let u = c as u32;
    ||| 0x09 <= u <= 0x0D
    ||| u == 0x20
    ||| u == 0x85
    ||| u == 0xA0
    ||| u == 0x1680
    ||| 0x2000 <= u <= 0x200A
    ||| u == 0x2028
    ||| u == 0x2029
    ||| u == 0x202F
    ||| u == 0x205F
    ||| u == 0x3000
}

/// Whether `c` is Unicode whitespace.
pub fn is_whitespace(c: char) -> (r: bool)
    ensures
        r == char_is_whitespace(c),
{
    let u = c as u32;
    (0x09 <= u && u <= 0x0D) || u == 0x20 || u == 0x85 || u == 0xA0 || u == 0x1680 || (0x2000
        <= u && u <= 0x200A) || u == 0x2028 || u == 0x2029 || u == 0x202F || u == 0x205F || u
        == 0x3000
}

/// `s` begins with `p`.
pub open spec fn starts_with(s: Seq<char>, p: Seq<char>) -> bool {
    p.len() <= s.len() && s.subrange(0, p.len() as int) == p
}

/// `p` occurs in `s` starting at position `i`.
pub open spec fn matches_at(s: Seq<char>, p: Seq<char>, i: int) -> bool {
    0 <= i && i + p.len() <= s.len() && s.subrange(i, i + p.len()) == p
}

/// `i` is the position of the leftmost occurrence of `p` in `s`.
pub open spec fn is_first_match(s: Seq<char>, p: Seq<char>, i: int) -> bool {
    &&& matches_at(s, p, i)
    &&& forall|j: int| 0 <= j < i ==> !matches_at(s, p, j)
}

/// The position of the leftmost occurrence of `p` in `s`, if there is one
/// (what `str::find` reports, counted in characters).
pub open spec fn first_match(s: Seq<char>, p: Seq<char>) -> Option<int> {
    if exists|i: int| matches_at(s, p, i) {
        Some(choose|i: int| is_first_match(s, p, i))
    } else {
        None
    }
}

/// `s` without its leading run of `c` (`str::trim_start_matches(c)`).
pub open spec fn drop_front_char(s: Seq<char>, c: char) -> Seq<char>
    decreases s.len(),
{
    if s.len() > 0 && s[0] == c {
        drop_front_char(s.drop_first(), c)
    } else {
        s
    }
}

/// `s` without its trailing run of `c` (`str::trim_end_matches(c)`).
pub open spec fn drop_back_char(s: Seq<char>, c: char) -> Seq<char>
    decreases s.len(),
{
    if s.len() > 0 && s.last() == c {
        drop_back_char(s.drop_last(), c)
    } else {
        s
    }
}

/// `s` without its leading whitespace (`str::trim_start`).
pub open spec fn drop_front_ws(s: Seq<char>) -> Seq<char>
    decreases s.len(),
{
    if s.len() > 0 && char_is_whitespace(s[0]) {
        drop_front_ws(s.drop_first())
    } else {
        s
    }
}

/// `s` without its trailing whitespace (`str::trim_end`).
pub open spec fn drop_back_ws(s: Seq<char>) -> Seq<char>
    decreases s.len(),
{
    if s.len() > 0 && char_is_whitespace(s.last()) {
        drop_back_ws(s.drop_last())
    } else {
        s
    }
}

/// `str::trim`: both whitespace runs removed.
pub open spec fn trim(s: Seq<char>) -> Seq<char> {
    drop_back_ws(drop_front_ws(s))
}

/// `str::trim_matches(c)`: both runs of `c` removed.
pub open spec fn trim_char(s: Seq<char>, c: char) -> Seq<char> {
    drop_back_char(drop_front_char(s, c), c)
}

/// Position of the first `'\n'` at or after `i`, or the length of `s` when
/// there is none.
pub open spec fn line_end(s: Seq<char>, i: int) -> int
    decreases s.len() - i,
{
    if i >= s.len() {
        s.len() as int
    } else if s[i] == '\n' {
        i
    } else {
        line_end(s, i + 1)
    }
}

/// A line ended by `"\r\n"` loses its `'\r'`.
pub open spec fn strip_cr(line: Seq<char>) -> Seq<char> {
    if line.len() > 0 && line.last() == '\r' {
        line.drop_last()
    } else {
        line
    }
}

/// The lines of `s` from position `i` on, as `str::lines` yields them: split
/// at `"\n"` or `"\r\n"`, terminators dropped, the final terminator optional
/// (a last line with no `'\n'` keeps a trailing `'\r'`).
pub open spec fn lines_from(s: Seq<char>, i: int) -> Seq<Seq<char>>
    decreases s.len() - i,
{
    if i < 0 || i >= s.len() {
        seq![]
    } else {
        let e = line_end(s, i);
        if e < s.len() {
            proof {
                lemma_line_end(s, i);
            }
            seq![strip_cr(s.subrange(i, e))] + lines_from(s, e + 1)
        } else {
            seq![s.subrange(i, s.len() as int)]
        }
    }
}

/// `str::lines` of the whole of `s`.
pub open spec fn lines(s: Seq<char>) -> Seq<Seq<char>> {
    lines_from(s, 0)
}

pub proof fn lemma_line_end(s: Seq<char>, i: int)
    requires
        0 <= i <= s.len(),
    ensures
        i <= line_end(s, i) <= s.len(),
        line_end(s, i) < s.len() ==> s[line_end(s, i)] == '\n',
        forall|j: int| i <= j < line_end(s, i) ==> s[j] != '\n',
    decreases s.len() - i,
{
    if i < s.len() && s[i] != '\n' {
        lemma_line_end(s, i + 1);
    }
}

/// Two leftmost occurrences are the same occurrence.
pub proof fn lemma_first_match_unique(s: Seq<char>, p: Seq<char>, i: int)
    requires
        is_first_match(s, p, i),
    ensures
        first_match(s, p) == Some(i),
{
    let k = choose|k: int| is_first_match(s, p, k);
    assert(is_first_match(s, p, k));
    if k < i {
        assert(!matches_at(s, p, k));
    }
    if i < k {
        assert(!matches_at(s, p, i));
    }
}


/// Where `p` occurs in `s`, a leftmost occurrence exists and `first_match`
/// names it.
pub proof fn lemma_first_match_exists(s: Seq<char>, p: Seq<char>, w: int)
    requires
        matches_at(s, p, w),
    ensures
        first_match(s, p) matches Some(i) && is_first_match(s, p, i),
    decreases w,
{
    if exists|j: int| 0 <= j < w && matches_at(s, p, j) {
        let j = choose|j: int| 0 <= j < w && matches_at(s, p, j);
        lemma_first_match_exists(s, p, j);
    } else {
        assert(is_first_match(s, p, w));
        lemma_first_match_unique(s, p, w);
    }
}

proof fn lemma_drop_front_char(s: Seq<char>, c: char, lo: int, k: int, hi: int)
    requires
        0 <= lo <= k <= hi <= s.len(),
        forall|j: int| lo <= j < k ==> s[j] == c,
        k == hi || s[k] != c,
    ensures
        drop_front_char(s.subrange(lo, hi), c) == s.subrange(k, hi),
    decreases k - lo,
{
    if lo < k {
        assert(s.subrange(lo, hi).drop_first() == s.subrange(lo + 1, hi));
        lemma_drop_front_char(s, c, lo + 1, k, hi);
    }
}

proof fn lemma_drop_back_char(s: Seq<char>, c: char, lo: int, k: int, hi: int)
    requires
        0 <= lo <= k <= hi <= s.len(),
        forall|j: int| k <= j < hi ==> s[j] == c,
        k == lo || s[k - 1] != c,
    ensures
        drop_back_char(s.subrange(lo, hi), c) == s.subrange(lo, k),
    decreases hi - k,
{
    if k < hi {
        assert(s.subrange(lo, hi).drop_last() == s.subrange(lo, hi - 1));
        lemma_drop_back_char(s, c, lo, k, hi - 1);
    }
}

proof fn lemma_drop_front_ws(s: Seq<char>, lo: int, k: int, hi: int)
    requires
        0 <= lo <= k <= hi <= s.len(),
        forall|j: int| lo <= j < k ==> char_is_whitespace(s[j]),
        k == hi || !char_is_whitespace(s[k]),
    ensures
        drop_front_ws(s.subrange(lo, hi)) == s.subrange(k, hi),
    decreases k - lo,
{
    if lo < k {
        assert(s.subrange(lo, hi).drop_first() == s.subrange(lo + 1, hi));
        lemma_drop_front_ws(s, lo + 1, k, hi);
    }
}

proof fn lemma_drop_back_ws(s: Seq<char>, lo: int, k: int, hi: int)
    requires
        0 <= lo <= k <= hi <= s.len(),
        forall|j: int| k <= j < hi ==> char_is_whitespace(s[j]),
        k == lo || !char_is_whitespace(s[k - 1]),
    ensures
        drop_back_ws(s.subrange(lo, hi)) == s.subrange(lo, k),
    decreases hi - k,
{
    if k < hi {
        assert(s.subrange(lo, hi).drop_last() == s.subrange(lo, hi - 1));
        lemma_drop_back_ws(s, lo, k, hi - 1);
    }
}

/// The characters of `s`, in order.
pub fn chars_of(s: &str) -> (v: Vec<char>)
    ensures
        v@ == s@,
{
    let mut v: Vec<char> = Vec::new();
    for c in it: s.chars()
        invariant
            v@ == it.seq().take(it.index()),
    {
        v.push(c);
    }
    assert(v@ == s@);
    v
}

/// Whether `p` occurs in `s` at position `i`.
pub fn matches_at_exec(s: &Vec<char>, p: &Vec<char>, i: usize) -> (r: bool)
    ensures
        r == matches_at(s@, p@, i as int),
{
    if i > s.len() || p.len() > s.len() - i {
        return false;
    }
    let n = s.len();
    let mut k: usize = 0;
    while k < p.len()
        invariant
            n == s@.len(),
            i + p@.len() <= s@.len(),
            0 <= k <= p@.len(),
            forall|j: int| 0 <= j < k ==> s@[i + j] == p@[j],
        decreases p@.len() - k,
    {
        if s[i + k] != p[k] {
            assert(s@.subrange(i as int, i + p@.len())[k as int] != p@[k as int]);
            return false;
        }
        k = k + 1;
    }
    assert(s@.subrange(i as int, i + p@.len()) == p@);
    true
}

/// The leftmost occurrence of `p` in `s` at or after position `from`.
pub fn find_from(s: &Vec<char>, p: &Vec<char>, from: usize) -> (r: Option<usize>)
    requires
        from <= s@.len(),
        forall|j: int| 0 <= j < from ==> !matches_at(s@, p@, j),
    ensures
        match r {
            Some(i) => is_first_match(s@, p@, i as int),
            None => forall|j: int| !matches_at(s@, p@, j),
        },
{
    let mut i = from;
    while i < s.len()
        invariant
            from <= i <= s@.len(),
            forall|j: int| 0 <= j < i ==> !matches_at(s@, p@, j),
        decreases s@.len() - i,
    {
        if matches_at_exec(s, p, i) {
            return Some(i);
        }
        i = i + 1;
    }
    if matches_at_exec(s, p, i) {
        return Some(i);
    }
    assert forall|j: int| !matches_at(s@, p@, j) by {
        if j > i {
            assert(!(j + p@.len() <= s@.len()));
        }
    }
    None
}

/// The end of the run of `c` that starts at `lo` within `lo..hi`.
pub fn skip_front_char(s: &Vec<char>, lo: usize, hi: usize, c: char) -> (k: usize)
    requires
        lo <= hi <= s@.len(),
    ensures
        lo <= k <= hi,
        drop_front_char(s@.subrange(lo as int, hi as int), c) == s@.subrange(k as int, hi as int),
{
    let mut k = lo;
    while k < hi && s[k] == c
        invariant
            lo <= k <= hi <= s@.len(),
            forall|j: int| lo <= j < k ==> s@[j] == c,
        decreases hi - k,
    {
        k = k + 1;
    }
    proof {
        lemma_drop_front_char(s@, c, lo as int, k as int, hi as int);
    }
    k
}

/// The start of the run of `c` that ends at `hi` within `lo..hi`.
pub fn skip_back_char(s: &Vec<char>, lo: usize, hi: usize, c: char) -> (k: usize)
    requires
        lo <= hi <= s@.len(),
    ensures
        lo <= k <= hi,
        drop_back_char(s@.subrange(lo as int, hi as int), c) == s@.subrange(lo as int, k as int),
{
    let mut k = hi;
    while k > lo && s[k - 1] == c
        invariant
            lo <= k <= hi <= s@.len(),
            forall|j: int| k <= j < hi ==> s@[j] == c,
        decreases k - lo,
    {
        k = k - 1;
    }
    proof {
        lemma_drop_back_char(s@, c, lo as int, k as int, hi as int);
    }
    k
}

/// The end of the whitespace run that starts at `lo` within `lo..hi`.
pub fn skip_front_ws(s: &Vec<char>, lo: usize, hi: usize) -> (k: usize)
    requires
        lo <= hi <= s@.len(),
    ensures
        lo <= k <= hi,
        drop_front_ws(s@.subrange(lo as int, hi as int)) == s@.subrange(k as int, hi as int),
{
    let mut k = lo;
    while k < hi && is_whitespace(s[k])
        invariant
            lo <= k <= hi <= s@.len(),
            forall|j: int| lo <= j < k ==> char_is_whitespace(s@[j]),
        decreases hi - k,
    {
        k = k + 1;
    }
    proof {
        lemma_drop_front_ws(s@, lo as int, k as int, hi as int);
    }
    k
}

/// The start of the whitespace run that ends at `hi` within `lo..hi`.
pub fn skip_back_ws(s: &Vec<char>, lo: usize, hi: usize) -> (k: usize)
    requires
        lo <= hi <= s@.len(),
    ensures
        lo <= k <= hi,
        drop_back_ws(s@.subrange(lo as int, hi as int)) == s@.subrange(lo as int, k as int),
{
    let mut k = hi;
    while k > lo && is_whitespace(s[k - 1])
        invariant
            lo <= k <= hi <= s@.len(),
            forall|j: int| k <= j < hi ==> char_is_whitespace(s@[j]),
        decreases k - lo,
    {
        k = k - 1;
    }
    proof {
        lemma_drop_back_ws(s@, lo as int, k as int, hi as int);
    }
    k
}

/// The range that `str::trim` leaves of `lo..hi`.
pub fn trim_range(s: &Vec<char>, lo: usize, hi: usize) -> (r: (usize, usize))
    requires
        lo <= hi <= s@.len(),
    ensures
        lo <= r.0 <= r.1 <= hi,
        trim(s@.subrange(lo as int, hi as int)) == s@.subrange(r.0 as int, r.1 as int),
{
    let a = skip_front_ws(s, lo, hi);
    let b = skip_back_ws(s, a, hi);
    (a, b)
}

/// The range that `str::trim_matches(c)` leaves of `lo..hi`.
pub fn trim_char_range(s: &Vec<char>, lo: usize, hi: usize, c: char) -> (r: (usize, usize))
    requires
        lo <= hi <= s@.len(),
    ensures
        lo <= r.0 <= r.1 <= hi,
        trim_char(s@.subrange(lo as int, hi as int), c) == s@.subrange(r.0 as int, r.1 as int),
{
    let a = skip_front_char(s, lo, hi, c);
    let b = skip_back_char(s, a, hi, c);
    (a, b)
}

/// The position of the first `'\n'` at or after `i`, or the length of `s`.
pub fn find_line_end(s: &Vec<char>, i: usize) -> (e: usize)
    requires
        i <= s@.len(),
    ensures
        e == line_end(s@, i as int),
{
    let mut j = i;
    while j < s.len() && s[j] != '\n'
        invariant
            i <= j <= s@.len(),
            line_end(s@, i as int) == line_end(s@, j as int),
        decreases s@.len() - j,
    {
        j = j + 1;
    }
    j
}

/// For a line that starts at `i < s.len()`: where its text ends, and where
/// the next line starts (`s.len()` after the last line). The lines from `i`
/// on are that text followed by the lines from the next start.
pub fn next_line(s: &Vec<char>, i: usize) -> (r: (usize, usize))
    requires
        i < s@.len(),
    ensures
        i <= r.0 <= r.1 <= s@.len(),
        i < r.1,
        lines_from(s@, i as int) == seq![s@.subrange(i as int, r.0 as int)] + lines_from(
            s@,
            r.1 as int,
        ),
{
    let e = find_line_end(s, i);
    proof {
        lemma_line_end(s@, i as int);
    }
    if e < s.len() {
        let text_end = if e > i && s[e - 1] == '\r' {
            e - 1
        } else {
            e
        };
        assert(strip_cr(s@.subrange(i as int, e as int)) == s@.subrange(i as int, text_end as int));
        (text_end, e + 1)
    } else {
        let ghost rest: Seq<Seq<char>> = lines_from(s@, s@.len() as int);
        assert(rest == Seq::<Seq<char>>::empty());
        assert(seq![s@.subrange(i as int, s@.len() as int)] + rest == seq![
            s@.subrange(i as int, s@.len() as int),
        ]);
        (e, e)
    }
}


/// Where `drop_front_ws(s)` starts: it is the rest of `s` from there, and
/// everything before is whitespace.
pub proof fn lemma_drop_front_ws_at(s: Seq<char>) -> (k: int)
    ensures
        0 <= k <= s.len(),
        drop_front_ws(s) == s.subrange(k, s.len() as int),
        forall|i: int| 0 <= i < k ==> char_is_whitespace(#[trigger] s[i]),
    decreases s.len(),
{
    if s.len() > 0 && char_is_whitespace(s[0]) {
        let k1 = lemma_drop_front_ws_at(s.drop_first());
        assert forall|i: int| 0 <= i < k1 + 1 implies char_is_whitespace(#[trigger] s[i]) by {
            if i > 0 {
                assert(s[i] == s.drop_first()[i - 1]);
            }
        }
        assert(s.drop_first().subrange(k1, s.len() - 1) == s.subrange(k1 + 1, s.len() as int));
        k1 + 1
    } else {
        assert(s.subrange(0, s.len() as int) == s);
        0
    }
}

/// Where `drop_back_ws(s)` ends: it is `s` up to there, and everything after
/// is whitespace.
pub proof fn lemma_drop_back_ws_at(s: Seq<char>) -> (k: int)
    ensures
        0 <= k <= s.len(),
        drop_back_ws(s) == s.subrange(0, k),
        forall|i: int| k <= i < s.len() ==> char_is_whitespace(#[trigger] s[i]),
    decreases s.len(),
{
    if s.len() > 0 && char_is_whitespace(s.last()) {
        let k1 = lemma_drop_back_ws_at(s.drop_last());
        assert forall|i: int| k1 <= i < s.len() implies char_is_whitespace(#[trigger] s[i]) by {
            if i < s.len() - 1 {
                assert(s[i] == s.drop_last()[i]);
            }
        }
        assert(s.drop_last().subrange(0, k1) == s.subrange(0, k1));
        k1
    } else {
        assert(s.subrange(0, s.len() as int) == s);
        s.len() as int
    }
}

/// Where `drop_front_char(s, c)` starts: everything before is `c`.
pub proof fn lemma_drop_front_char_at(s: Seq<char>, c: char) -> (k: int)
    ensures
        0 <= k <= s.len(),
        drop_front_char(s, c) == s.subrange(k, s.len() as int),
        forall|i: int| 0 <= i < k ==> #[trigger] s[i] == c,
        k < s.len() ==> s[k] != c,
    decreases s.len(),
{
    if s.len() > 0 && s[0] == c {
        let k1 = lemma_drop_front_char_at(s.drop_first(), c);
        if k1 < s.len() - 1 {
            assert(s[k1 + 1] == s.drop_first()[k1]);
        }
        assert forall|i: int| 0 <= i < k1 + 1 implies #[trigger] s[i] == c by {
            if i > 0 {
                assert(s[i] == s.drop_first()[i - 1]);
            }
        }
        assert(s.drop_first().subrange(k1, s.len() - 1) == s.subrange(k1 + 1, s.len() as int));
        k1 + 1
    } else {
        assert(s.subrange(0, s.len() as int) == s);
        0
    }
}

/// Where `drop_back_char(s, c)` ends: everything after is `c`.
pub proof fn lemma_drop_back_char_at(s: Seq<char>, c: char) -> (k: int)
    ensures
        0 <= k <= s.len(),
        drop_back_char(s, c) == s.subrange(0, k),
        forall|i: int| k <= i < s.len() ==> #[trigger] s[i] == c,
    decreases s.len(),
{
    if s.len() > 0 && s.last() == c {
        let k1 = lemma_drop_back_char_at(s.drop_last(), c);
        assert forall|i: int| k1 <= i < s.len() implies #[trigger] s[i] == c by {
            if i < s.len() - 1 {
                assert(s[i] == s.drop_last()[i]);
            }
        }
        assert(s.drop_last().subrange(0, k1) == s.subrange(0, k1));
        k1
    } else {
        assert(s.subrange(0, s.len() as int) == s);
        s.len() as int
    }
}

/// `trim(s)` is the piece `s[a..b]`, and everything of `s` outside it is
/// whitespace.
pub proof fn lemma_trim_at(s: Seq<char>) -> (r: (int, int))
    ensures
        0 <= r.0 <= r.1 <= s.len(),
        trim(s) == s.subrange(r.0, r.1),
        forall|i: int| 0 <= i < r.0 ==> char_is_whitespace(#[trigger] s[i]),
        forall|i: int| r.1 <= i < s.len() ==> char_is_whitespace(#[trigger] s[i]),
{
    let a = lemma_drop_front_ws_at(s);
    let rest = s.subrange(a, s.len() as int);
    let b = lemma_drop_back_ws_at(rest);
    assert(rest.subrange(0, b) == s.subrange(a, a + b));
    assert forall|i: int| a + b <= i < s.len() implies char_is_whitespace(#[trigger] s[i]) by {
        assert(s[i] == rest[i - a]);
    }
    (a, a + b)
}

/// `trim_char(s, c)` is the piece `s[a..b]`, and everything of `s` outside it
/// is `c`.
pub proof fn lemma_trim_char_at(s: Seq<char>, c: char) -> (r: (int, int))
    ensures
        0 <= r.0 <= r.1 <= s.len(),
        trim_char(s, c) == s.subrange(r.0, r.1),
        forall|i: int| 0 <= i < r.0 ==> #[trigger] s[i] == c,
        forall|i: int| r.1 <= i < s.len() ==> #[trigger] s[i] == c,
{
    let a = lemma_drop_front_char_at(s, c);
    let rest = s.subrange(a, s.len() as int);
    let b = lemma_drop_back_char_at(rest, c);
    assert(rest.subrange(0, b) == s.subrange(a, a + b));
    assert forall|i: int| a + b <= i < s.len() implies #[trigger] s[i] == c by {
        assert(s[i] == rest[i - a]);
    }
    (a, a + b)
}

/// The characters that trimming removes are the Unicode `White_Space`
/// characters: tab, line feed, vertical tab, form feed, carriage return,
/// space, next line, no-break space, ogham space mark, the spaces from en quad
/// to hair space, line and paragraph separators, narrow no-break space, medium
/// mathematical space and ideographic space; no other character.
pub proof fn law_white_space_characters(c: char)
    ensures
        char_is_whitespace(c) <==> (c == '\t' || c == '\n' || c == '\u{0B}' || c == '\u{0C}' || c
            == '\r' || c == ' ' || c == '\u{85}' || c == '\u{A0}' || c == '\u{1680}' || c
            == '\u{2000}' || c == '\u{2001}' || c == '\u{2002}' || c == '\u{2003}' || c
            == '\u{2004}' || c == '\u{2005}' || c == '\u{2006}' || c == '\u{2007}' || c
            == '\u{2008}' || c == '\u{2009}' || c == '\u{200A}' || c == '\u{2028}' || c
            == '\u{2029}' || c == '\u{202F}' || c == '\u{205F}' || c == '\u{3000}'),
{
}

/// Trimming never removes a visible ASCII character: a text that starts and
/// ends with one (`'!'` to `'~'`) is left as it is.
pub proof fn law_trim_keeps_visible_ascii(s: Seq<char>)
    requires
        s.len() > 0,
        0x21 <= s[0] as u32 <= 0x7E,
        0x21 <= s.last() as u32 <= 0x7E,
    ensures
        trim(s) == s,
{
    let r = lemma_trim_at(s);
    if r.0 > 0 {
        assert(char_is_whitespace(s[0]));
    }
    if r.1 < s.len() {
        assert(char_is_whitespace(s[s.len() - 1]));
    }
    assert(s.subrange(0, s.len() as int) == s);
}


/// Lines put back together with a `'\n'` between each two.
pub open spec fn join_lines(ls: Seq<Seq<char>>) -> Seq<char>
    decreases ls.len(),
{
    if ls.len() == 0 {
        seq![]
    } else if ls.len() == 1 {
        ls[0]
    } else {
        ls[0] + seq!['\n'] + join_lines(ls.drop_first())
    }
}

proof fn lemma_lines_from_rejoin(s: Seq<char>, i: int)
    requires
        0 <= i <= s.len(),
        !s.contains('\r'),
    ensures
        forall|k: int| 0 <= k < lines_from(s, i).len() ==> !(#[trigger] lines_from(s, i)[k]).contains('\n'),
        i < s.len() ==> lines_from(s, i).len() > 0,
        i == s.len() || s.last() != '\n' ==> join_lines(lines_from(s, i)) == s.subrange(i, s.len() as int),
        i < s.len() && s.last() == '\n' ==> join_lines(lines_from(s, i)) + seq!['\n'] == s.subrange(
            i,
            s.len() as int,
        ),
    decreases s.len() - i,
{
    if i < s.len() {
        let e = line_end(s, i);
        lemma_line_end(s, i);
        let l = s.subrange(i, e);
        assert(!l.contains('\n')) by {
            if l.contains('\n') {
                let x = choose|x: int| 0 <= x < l.len() && l[x] == '\n';
                assert(s[i + x] == '\n');
            }
        }
        if e < s.len() {
            if l.len() > 0 {
                assert(l.last() == s[e - 1]);
                assert(s[e - 1] != '\r') by {
                    if s[e - 1] == '\r' {
                        assert(s.contains('\r'));
                    }
                }
            }
            assert(strip_cr(l) == l);
            let rest = lines_from(s, e + 1);
            lemma_lines_from_rejoin(s, e + 1);
            assert(lines_from(s, i) == seq![l] + rest);
            let ls = lines_from(s, i);
            assert forall|k: int| 0 <= k < ls.len() implies !(#[trigger] ls[k]).contains('\n') by {
                if k > 0 {
                    assert(ls[k] == rest[k - 1]);
                }
            }
            if e + 1 == s.len() {
                assert(rest == Seq::<Seq<char>>::empty());
                assert(ls =~= seq![l]);
                assert(s.last() == '\n');
                assert(l + seq!['\n'] =~= s.subrange(i, s.len() as int));
            } else {
                assert(ls.drop_first() == rest);
                assert(join_lines(ls) == l + seq!['\n'] + join_lines(rest));
                if s.last() != '\n' {
                    assert(l + seq!['\n'] + s.subrange(e + 1, s.len() as int) =~= s.subrange(
                        i,
                        s.len() as int,
                    ));
                } else {
                    assert(l + seq!['\n'] + s.subrange(e + 1, s.len() as int) =~= s.subrange(
                        i,
                        s.len() as int,
                    ));
                    assert(join_lines(ls) + seq!['\n'] =~= l + seq!['\n'] + (join_lines(rest)
                        + seq!['\n']));
                }
            }
        } else {
            let ls = lines_from(s, i);
            assert(ls == seq![s.subrange(i, s.len() as int)]);
            assert(s.last() == s[s.len() - 1]);
            assert(s[s.len() - 1] != '\n');
        }
    } else {
        assert(s.subrange(i, s.len() as int) =~= Seq::<char>::empty());
    }
}

/// For a text without carriage returns, `lines` cuts it at its newlines:
/// no line holds a newline, and joining the lines with newlines gives the
/// text back, but for a final newline, which `lines` does not keep.
pub proof fn law_lines_rejoin(s: Seq<char>)
    requires
        !s.contains('\r'),
    ensures
        forall|k: int| 0 <= k < lines(s).len() ==> !(#[trigger] lines(s)[k]).contains('\n'),
        s.len() == 0 || s.last() != '\n' ==> join_lines(lines(s)) == s,
        s.len() > 0 && s.last() == '\n' ==> join_lines(lines(s)) + seq!['\n'] == s,
{
    lemma_lines_from_rejoin(s, 0);
    assert(s.subrange(0, s.len() as int) == s);
}

/// The first line of a text is what comes before its first newline, less a
/// `'\r'` just before that newline.
pub proof fn law_first_line(a: Seq<char>, b: Seq<char>)
    requires
        !a.contains('\n'),
    ensures
        lines(a + seq!['\n'] + b)[0] == if a.len() > 0 && a.last() == '\r' {
            a.drop_last()
        } else {
            a
        },
{
    let s = a + seq!['\n'] + b;
    assert forall|j: int| 0 <= j < a.len() implies s[j] != '\n' by {
        assert(s[j] == a[j]);
        if a[j] == '\n' {
            assert(a.contains('\n'));
        }
    }
    assert forall|j: int| 0 <= j <= a.len() implies line_end(s, j) == a.len() by {
        lemma_line_end_reaches(s, j, a.len() as int);
    }
    assert(s.subrange(0, a.len() as int) == a);
}

proof fn lemma_line_end_reaches(s: Seq<char>, j: int, e: int)
    requires
        0 <= j <= e < s.len(),
        s[e] == '\n',
        forall|x: int| j <= x < e ==> s[x] != '\n',
    ensures
        line_end(s, j) == e,
    decreases e - j,
{
    if j < e {
        lemma_line_end_reaches(s, j + 1, e);
    }
}

} // verus!
