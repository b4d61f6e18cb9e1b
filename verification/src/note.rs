//! Reading a markdown note: the YAML frontmatter block, the body, and the
//! note's title.
use vstd::prelude::*;
use vstd::string::StrSliceExecFns;

use crate::path::{file_stem_text, is_portable_path, portable_stem};
use crate::text::{
    char_is_whitespace, chars_of, drop_front_char, find_from, first_match, is_first_match,
    lemma_drop_front_char_at, lemma_first_match_exists, lemma_first_match_unique,
    lemma_trim_at, lemma_trim_char_at, lines, lines_from, matches_at, matches_at_exec, next_line,
    skip_front_char, starts_with, trim, trim_char, trim_char_range, trim_range,
};

verus! {

broadcast use vstd::string::group_string_axioms;

/// The line that opens a frontmatter block.
pub open spec fn fence() -> Seq<char> {
    seq!['-', '-', '-']
}

/// What closes a frontmatter block: a fence at the start of a line.
pub open spec fn closing_fence() -> Seq<char> {
    seq!['\n', '-', '-', '-']
}

/// The prefix of a frontmatter line that gives the title.
pub open spec fn title_key() -> Seq<char> {
    seq!['t', 'i', 't', 'l', 'e', ':']
}

/// The prefix of a level-one markdown heading.
pub open spec fn heading_mark() -> Seq<char> {
    seq!['#', ' ']
}

/// A note split into its frontmatter (without the fences) and its body.
/// A note has frontmatter when it starts with `---` and a later line starts
/// with `---`; the body is what follows that closing fence, without leading
/// newlines. Otherwise there is no frontmatter and the body is the whole note.
pub open spec fn frontmatter_split(content: Seq<char>) -> (Option<Seq<char>>, Seq<char>) {
    if starts_with(content, fence()) {
        let rest = content.skip(3);
        match first_match(rest, closing_fence()) {
            Some(e) => (Some(rest.take(e)), drop_front_char(rest.skip(e + 4), '\n')),
            None => (None, content),
        }
    } else {
        (None, content)
    }
}

/// The value of a `title:` line: trimmed, then stripped of double and then of
/// single quotes.
pub open spec fn title_value(line: Seq<char>) -> Seq<char> {
    trim_char(trim_char(trim(line.skip(title_key().len() as int)), '"'), '\'')
}

/// The first `title:` line with a non-empty value gives the title.
pub open spec fn frontmatter_title(lines: Seq<Seq<char>>) -> Option<Seq<char>>
    decreases lines.len(),
{
    if lines.len() == 0 {
        None
    } else if starts_with(lines[0], title_key()) && title_value(lines[0]).len() > 0 {
        Some(title_value(lines[0]))
    } else {
        frontmatter_title(lines.drop_first())
    }
}

/// The first `# ` heading gives the title, trimmed.
pub open spec fn heading_title(lines: Seq<Seq<char>>) -> Option<Seq<char>>
    decreases lines.len(),
{
    if lines.len() == 0 {
        None
    } else if starts_with(lines[0], heading_mark()) {
        Some(trim(lines[0].skip(heading_mark().len() as int)))
    } else {
        heading_title(lines.drop_first())
    }
}

/// The title that the note's own text gives: from the frontmatter if it has
/// a usable `title:` line, else from the body's first `# ` heading.
pub open spec fn text_title(frontmatter: Option<Seq<char>>, body: Seq<char>) -> Option<Seq<char>> {
    let from_frontmatter = match frontmatter {
        Some(f) => frontmatter_title(lines(f)),
        None => None,
    };
    match from_frontmatter {
        Some(t) => Some(t),
        None => heading_title(lines(body)),
    }
}

pub open spec fn view_opt_str(o: Option<&str>) -> Option<Seq<char>> {
    match o {
        Some(s) => Some(s@),
        None => None,
    }
}

pub open spec fn view_opt_string(o: Option<String>) -> Option<Seq<char>> {
    match o {
        Some(s) => Some(s@),
        None => None,
    }
}

fn fence_chars() -> (v: Vec<char>)
    ensures
        v@ == fence(),
{
    let mut v: Vec<char> = Vec::new();
    v.push('-');
    v.push('-');
    v.push('-');
    assert(v@ == fence());
    v
}

fn closing_fence_chars() -> (v: Vec<char>)
    ensures
        v@ == closing_fence(),
{
    let mut v: Vec<char> = Vec::new();
    v.push('\n');
    v.push('-');
    v.push('-');
    v.push('-');
    assert(v@ == closing_fence());
    v
}

fn title_key_chars() -> (v: Vec<char>)
    ensures
        v@ == title_key(),
{
    let mut v: Vec<char> = Vec::new();
    v.push('t');
    v.push('i');
    v.push('t');
    v.push('l');
    v.push('e');
    v.push(':');
    assert(v@ == title_key());
    v
}

fn heading_mark_chars() -> (v: Vec<char>)
    ensures
        v@ == heading_mark(),
{
    let mut v: Vec<char> = Vec::new();
    v.push('#');
    v.push(' ');
    assert(v@ == heading_mark());
    v
}

/// A line `s[i..e]` starts with `p` exactly when `p` occurs at `i` and fits.
proof fn lemma_line_prefix(s: Seq<char>, p: Seq<char>, i: int, e: int)
    requires
        0 <= i <= e <= s.len(),
    ensures
        starts_with(s.subrange(i, e), p) <==> (p.len() <= e - i && matches_at(s, p, i)),
        p.len() <= e - i ==> s.subrange(i, e).skip(p.len() as int) == s.subrange(
            i + p.len(),
            e,
        ),
{
    if p.len() <= e - i {
        assert(s.subrange(i, e).subrange(0, p.len() as int) == s.subrange(i, i + p.len()));
    }
}

proof fn lemma_head_rest(line: Seq<char>, rest: Seq<Seq<char>>)
    ensures
        (seq![line] + rest).len() > 0,
        (seq![line] + rest)[0] == line,
        (seq![line] + rest).drop_first() == rest,
{
    assert((seq![line] + rest).drop_first() == rest);
}

/// Where in `s` the frontmatter title lies, if the lines of `s` give one.
fn frontmatter_title_range(s: &Vec<char>) -> (r: Option<(usize, usize)>)
    ensures
        match r {
            Some((a, b)) => a <= b <= s@.len() && frontmatter_title(lines(s@)) == Some(
                s@.subrange(a as int, b as int),
            ),
            None => frontmatter_title(lines(s@)) is None,
        },
{
    let key = title_key_chars();
    let mut i: usize = 0;
    while i < s.len()
        invariant
            i <= s@.len(),
            key@ == title_key(),
            frontmatter_title(lines(s@)) == frontmatter_title(lines_from(s@, i as int)),
        decreases s@.len() - i,
    {
        let (text_end, next) = next_line(s, i);
        let ghost line = s@.subrange(i as int, text_end as int);
        let ghost rest = lines_from(s@, next as int);
        proof {
            lemma_head_rest(line, rest);
            lemma_line_prefix(s@, title_key(), i as int, text_end as int);
        }
        if text_end - i >= 6 && matches_at_exec(s, &key, i) {
            let (a1, b1) = trim_range(s, i + 6, text_end);
            let (a2, b2) = trim_char_range(s, a1, b1, '"');
            let (a3, b3) = trim_char_range(s, a2, b2, '\'');
            assert(title_value(line) == s@.subrange(a3 as int, b3 as int));
            if a3 < b3 {
                return Some((a3, b3));
            }
        }
        i = next;
    }
    None
}

/// Where in `s` the first heading's text lies, if the lines of `s` have one.
fn heading_range(s: &Vec<char>) -> (r: Option<(usize, usize)>)
    ensures
        match r {
            Some((a, b)) => a <= b <= s@.len() && heading_title(lines(s@)) == Some(
                s@.subrange(a as int, b as int),
            ),
            None => heading_title(lines(s@)) is None,
        },
{
    let mark = heading_mark_chars();
    let mut i: usize = 0;
    while i < s.len()
        invariant
            i <= s@.len(),
            mark@ == heading_mark(),
            heading_title(lines(s@)) == heading_title(lines_from(s@, i as int)),
        decreases s@.len() - i,
    {
        let (text_end, next) = next_line(s, i);
        let ghost line = s@.subrange(i as int, text_end as int);
        let ghost rest = lines_from(s@, next as int);
        proof {
            lemma_head_rest(line, rest);
            lemma_line_prefix(s@, heading_mark(), i as int, text_end as int);
        }
        if text_end - i >= 2 && matches_at_exec(s, &mark, i) {
            let (a, b) = trim_range(s, i + 2, text_end);
            return Some((a, b));
        }
        i = next;
    }
    None
}

/// A note written as a frontmatter block holding `frontmatter`, then `body`.
pub open spec fn with_frontmatter(frontmatter: Seq<char>, body: Seq<char>) -> Seq<char> {
    fence() + frontmatter + closing_fence() + body
}

/// Splitting a note written with a frontmatter block gives that block back,
/// and the body without its leading newlines, provided no line of the block
/// itself starts with `---`.
pub proof fn law_split_recovers_frontmatter(frontmatter: Seq<char>, body: Seq<char>)
    requires
        forall|i: int| !matches_at(frontmatter, closing_fence(), i),
    ensures
        frontmatter_split(with_frontmatter(frontmatter, body)) == (
            Some(frontmatter),
            drop_front_char(body, '\n'),
        ),
{
    let content = with_frontmatter(frontmatter, body);
    let rest = frontmatter + closing_fence() + body;
    assert(starts_with(content, fence())) by {
        assert(content.subrange(0, 3) =~= fence());
    }
    assert(content.skip(3) =~= rest);
    lemma_closing_fence_after(frontmatter, body);
}

/// In `frontmatter + "\n---" + body`, the first closing fence is the one
/// written after `frontmatter`, when `frontmatter` holds none.
#[verifier::rlimit(30)]
proof fn lemma_closing_fence_after(frontmatter: Seq<char>, body: Seq<char>)
    requires
        forall|i: int| !matches_at(frontmatter, closing_fence(), i),
    ensures
        first_match(frontmatter + closing_fence() + body, closing_fence()) == Some(
            frontmatter.len() as int,
        ),
        (frontmatter + closing_fence() + body).take(frontmatter.len() as int) == frontmatter,
        (frontmatter + closing_fence() + body).skip(frontmatter.len() as int + 4) == body,
{
    let rest = frontmatter + closing_fence() + body;
    let f = frontmatter.len() as int;
    assert(rest.subrange(f, f + 4) =~= closing_fence());
    assert forall|j: int| 0 <= j < f implies !matches_at(rest, closing_fence(), j) by {
        if j + 4 <= f {
            assert(rest.subrange(j, j + 4) =~= frontmatter.subrange(j, j + 4));
            assert(!matches_at(frontmatter, closing_fence(), j));
        } else if matches_at(rest, closing_fence(), j) {
            assert(rest.subrange(j, j + 4)[f - j] == rest[f]);
            assert(rest[f] == '\n');
            assert(closing_fence()[f - j] == '-');
        }
    }
    assert(is_first_match(rest, closing_fence(), f));
    lemma_first_match_unique(rest, closing_fence(), f);
    assert(rest.take(f) =~= frontmatter);
    assert(rest.skip(f + 4) =~= body);
}


/// A line begins with `p` exactly when its first characters are those of `p`.
proof fn lemma_starts_with_chars(line: Seq<char>, p: Seq<char>)
    ensures
        starts_with(line, p) <==> (p.len() <= line.len() && forall|i: int|
            0 <= i < p.len() ==> #[trigger] line[i] == p[i]),
{
    if p.len() <= line.len() && forall|i: int| 0 <= i < p.len() ==> #[trigger] line[i] == p[i] {
        assert(line.subrange(0, p.len() as int) =~= p);
    }
    if starts_with(line, p) {
        assert forall|i: int| 0 <= i < p.len() implies #[trigger] line[i] == p[i] by {
            assert(line.subrange(0, p.len() as int)[i] == line[i]);
        }
    }
}

/// A body's heading title comes from its earliest line that starts with
/// `# `: the rest of that line, trimmed.
pub proof fn law_heading_title_is_first_heading(ls: Seq<Seq<char>>, k: int)
    requires
        0 <= k < ls.len(),
        ls[k].len() >= 2 && ls[k][0] == '#' && ls[k][1] == ' ',
        forall|j: int|
            0 <= j < k ==> !(#[trigger] ls[j].len() >= 2 && ls[j][0] == '#' && ls[j][1] == ' '),
    ensures
        heading_title(ls) == Some(trim(ls[k].subrange(2, ls[k].len() as int))),
    decreases k,
{
    lemma_starts_with_chars(ls[0], heading_mark());
    if k == 0 {
        assert(ls[0].skip(2) == ls[0].subrange(2, ls[0].len() as int));
    } else {
        assert(!(ls[0].len() >= 2 && ls[0][0] == '#' && ls[0][1] == ' '));
        assert(!starts_with(ls[0], heading_mark()));
        let rest = ls.drop_first();
        assert forall|j: int| 0 <= j < k - 1 implies !(#[trigger] rest[j].len() >= 2 && rest[j][0]
            == '#' && rest[j][1] == ' ') by {
            assert(rest[j] == ls[j + 1]);
        }
        law_heading_title_is_first_heading(rest, k - 1);
    }
}

/// A body with no line that starts with `# ` gives no heading title.
pub proof fn law_no_heading_no_title(ls: Seq<Seq<char>>)
    requires
        forall|j: int|
            0 <= j < ls.len() ==> !(#[trigger] ls[j].len() >= 2 && ls[j][0] == '#' && ls[j][1]
                == ' '),
    ensures
        heading_title(ls) is None,
    decreases ls.len(),
{
    if ls.len() > 0 {
        lemma_starts_with_chars(ls[0], heading_mark());
        assert(!(ls[0].len() >= 2 && ls[0][0] == '#' && ls[0][1] == ' '));
        let rest = ls.drop_first();
        assert forall|j: int| 0 <= j < rest.len() implies !(#[trigger] rest[j].len() >= 2
            && rest[j][0] == '#' && rest[j][1] == ' ') by {
            assert(rest[j] == ls[j + 1]);
        }
        law_no_heading_no_title(rest);
    }
}

/// The value of a `title:` line is the whole rest of the line after the six
/// characters `title:`, trimmed, then stripped of double and of single
/// quotes; it is a piece of that rest, and what lies outside the piece is
/// whitespace or quotes (so colons inside the value are kept).
pub proof fn law_title_value_is_rest_of_line(v: Seq<char>)
    ensures
        title_value(seq!['t', 'i', 't', 'l', 'e', ':'] + v) == trim_char(
            trim_char(trim(v), '"'),
            '\'',
        ),
        exists|a: int, b: int|
            0 <= a <= b <= v.len() && title_value(seq!['t', 'i', 't', 'l', 'e', ':'] + v)
                == v.subrange(a, b) && forall|i: int|
                (0 <= i < a || b <= i < v.len()) ==> (char_is_whitespace(#[trigger] v[i])
                    || v[i] == '"' || v[i] == '\''),
{
    let line = seq!['t', 'i', 't', 'l', 'e', ':'] + v;
    assert(line.skip(6) =~= v);
    let (a1, b1) = lemma_trim_at(v);
    let t1 = v.subrange(a1, b1);
    let (a2, b2) = lemma_trim_char_at(t1, '"');
    let t2 = t1.subrange(a2, b2);
    assert(t2 == v.subrange(a1 + a2, a1 + b2));
    let (a3, b3) = lemma_trim_char_at(t2, '\'');
    assert(t2.subrange(a3, b3) == v.subrange(a1 + a2 + a3, a1 + a2 + b3));
    let a = a1 + a2 + a3;
    let b = a1 + a2 + b3;
    assert forall|i: int| (0 <= i < a || b <= i < v.len()) implies (char_is_whitespace(
        #[trigger] v[i],
    ) || v[i] == '"' || v[i] == '\'') by {
        if i < a1 || b1 <= i {
        } else if i < a1 + a2 || a1 + b2 <= i {
            assert(v[i] == t1[i - a1]);
        } else {
            assert(v[i] == t1[i - a1]);
            assert(t1[i - a1] == t2[i - a1 - a2]);
        }
    }
}

/// A frontmatter's title comes from its earliest line that starts with
/// `title:` and has a non-empty value.
pub proof fn law_frontmatter_title_is_first_usable(ls: Seq<Seq<char>>, k: int)
    requires
        0 <= k < ls.len(),
        starts_with(ls[k], seq!['t', 'i', 't', 'l', 'e', ':']),
        title_value(ls[k]).len() > 0,
        forall|j: int|
            0 <= j < k ==> !starts_with(#[trigger] ls[j], seq!['t', 'i', 't', 'l', 'e', ':'])
                || title_value(ls[j]).len() == 0,
    ensures
        frontmatter_title(ls) == Some(title_value(ls[k])),
    decreases k,
{
    assert(title_key() =~= seq!['t', 'i', 't', 'l', 'e', ':']);
    if k > 0 {
        let rest = ls.drop_first();
        assert forall|j: int| 0 <= j < k - 1 implies !starts_with(
            #[trigger] rest[j],
            seq!['t', 'i', 't', 'l', 'e', ':'],
        ) || title_value(rest[j]).len() == 0 by {
            assert(rest[j] == ls[j + 1]);
        }
        law_frontmatter_title_is_first_usable(rest, k - 1);
    }
}

/// A frontmatter with no `title:` line of non-empty value gives no title.
pub proof fn law_no_usable_title_line(ls: Seq<Seq<char>>)
    requires
        forall|j: int|
            0 <= j < ls.len() ==> !starts_with(#[trigger] ls[j], seq!['t', 'i', 't', 'l', 'e', ':'])
                || title_value(ls[j]).len() == 0,
    ensures
        frontmatter_title(ls) is None,
    decreases ls.len(),
{
    assert(title_key() =~= seq!['t', 'i', 't', 'l', 'e', ':']);
    if ls.len() > 0 {
        let rest = ls.drop_first();
        assert forall|j: int| 0 <= j < rest.len() implies !starts_with(
            #[trigger] rest[j],
            seq!['t', 'i', 't', 'l', 'e', ':'],
        ) || title_value(rest[j]).len() == 0 by {
            assert(rest[j] == ls[j + 1]);
        }
        law_no_usable_title_line(rest);
    }
}

/// How a note splits. A note that does not begin with `---` has no
/// frontmatter, and whenever there is no frontmatter the body is the whole
/// note. A note that begins with `---` and has a line starting with `---`
/// later has frontmatter. When it has frontmatter, the note is `---`, the
/// frontmatter (which holds no line starting with `---`), `\n---`, some
/// newlines, and the body, which does not start with a newline.
pub proof fn law_split_takes_pieces_of_note(c: Seq<char>)
    ensures
        !starts_with(c, seq!['-', '-', '-']) ==> frontmatter_split(c) == (None::<Seq<char>>, c),
        frontmatter_split(c).0 is None ==> frontmatter_split(c).1 == c,
        (starts_with(c, seq!['-', '-', '-']) && exists|i: int|
            3 <= i && i + 4 <= c.len() && #[trigger] c.subrange(i, i + 4) == seq![
                '\n',
                '-',
                '-',
                '-',
            ]) ==> frontmatter_split(c).0 is Some,
        frontmatter_split(c).0 matches Some(f) ==> exists|k: int|
            #![trigger c.subrange(k, c.len() as int)]
            {
                let e = 3 + f.len() as int;
                &&& e + 4 <= k <= c.len()
                &&& c.subrange(0, 3) == seq!['-', '-', '-']
                &&& c.subrange(3, e) == f
                &&& c.subrange(e, e + 4) == seq!['\n', '-', '-', '-']
                &&& forall|i: int| e + 4 <= i < k ==> #[trigger] c[i] == '\n'
                &&& (k < c.len() ==> c[k] != '\n')
                &&& frontmatter_split(c).1 == c.subrange(k, c.len() as int)
                &&& forall|i: int|
                    0 <= i && i + 4 <= f.len() ==> #[trigger] f.subrange(i, i + 4) != seq![
                        '\n',
                        '-',
                        '-',
                        '-',
                    ]
            },
{
    assert(fence() =~= seq!['-', '-', '-']);
    assert(closing_fence() =~= seq!['\n', '-', '-', '-']);
    if starts_with(c, fence()) {
        let rest = c.skip(3);
        if exists|i: int|
            3 <= i && i + 4 <= c.len() && #[trigger] c.subrange(i, i + 4) == closing_fence() {
            let i = choose|i: int|
                3 <= i && i + 4 <= c.len() && #[trigger] c.subrange(i, i + 4) == closing_fence();
            assert(rest.subrange(i - 3, i + 1) == c.subrange(i, i + 4));
            lemma_first_match_exists(rest, closing_fence(), i - 3);
        }
        match first_match(rest, closing_fence()) {
            Some(e) => {
                let w = choose|w: int| matches_at(rest, closing_fence(), w);
                lemma_first_match_exists(rest, closing_fence(), w);
                let f = rest.take(e);
                let tail = rest.skip(e + 4);
                let j = lemma_drop_front_char_at(tail, '\n');
                let k = 3 + e + 4 + j;
                assert(c.subrange(0, 3) == seq!['-', '-', '-']);
                assert(c.subrange(3, 3 + e) == f);
                assert(c.subrange(3 + e, 3 + e + 4) == rest.subrange(e, e + 4));
                assert forall|x: int| 3 + e + 4 <= x < k implies #[trigger] c[x] == '\n' by {
                    assert(c[x] == tail[x - (3 + e + 4)]);
                }
                if k < c.len() {
                    assert(c[k] == tail[j]);
                }
                assert(tail.subrange(j, tail.len() as int) == c.subrange(k, c.len() as int));
                assert forall|x: int| 0 <= x && x + 4 <= f.len() implies #[trigger] f.subrange(
                    x,
                    x + 4,
                ) != seq!['\n', '-', '-', '-'] by {
                    assert(f.subrange(x, x + 4) == rest.subrange(x, x + 4));
                    assert(!matches_at(rest, closing_fence(), x));
                }
                assert(f.len() == e);
                assert(frontmatter_split(c) == (Some(f), drop_front_char(tail, '\n')));
                assert(frontmatter_split(c).1 == c.subrange(k, c.len() as int));
                let ee = 3 + f.len() as int;
                assert(ee + 4 <= k <= c.len());
                assert(c.subrange(ee, ee + 4) == seq!['\n', '-', '-', '-']);
            },
            None => {},
        }
    }
}

/// Splits a note into its frontmatter and its body.
pub fn split_frontmatter(content: &str) -> (r: (Option<&str>, &str))
    ensures
        (view_opt_str(r.0), r.1@) == frontmatter_split(content@),
{
    let c = chars_of(content);
    let n = c.len();
    let open = fence_chars();
    if !matches_at_exec(&c, &open, 0) {
        assert(!starts_with(content@, fence()));
        return (None, content);
    }
    assert(starts_with(content@, fence())) by {
        assert(content@.subrange(0, 3) == fence());
    }
    let ghost rest = content@.skip(3);
    let close = closing_fence_chars();
    assert forall|j: int| 0 <= j < 3 implies !matches_at(c@, close@, j) by {
        assert(c@[j] == c@.subrange(0, 3)[j]);
        if matches_at(c@, close@, j) {
            assert(c@.subrange(j, j + 4)[0] == '\n');
        }
    }
    assert forall|m: int| 0 <= m implies #[trigger] matches_at(rest, closing_fence(), m)
        == matches_at(c@, closing_fence(), m + 3) by {
        if m + 4 <= rest.len() {
            assert(rest.subrange(m, m + 4) == c@.subrange(m + 3, m + 7));
        }
    }
    match find_from(&c, &close, 3) {
        Some(i) => {
            assert(matches_at(c@, closing_fence(), i as int));
            assert(i >= 3 && i + 4 <= c@.len());
            assert(is_first_match(rest, closing_fence(), i - 3)) by {
                assert(matches_at(rest, closing_fence(), i - 3));
                assert forall|j: int| 0 <= j < i - 3 implies !matches_at(
                    rest,
                    closing_fence(),
                    j,
                ) by {
                    assert(!matches_at(c@, closing_fence(), j + 3));
                }
            }
            proof {
                lemma_first_match_unique(rest, closing_fence(), i - 3);
            }
            let fm = content.substring_char(3, i);
            assert(fm@ == rest.take(i - 3));
            let k = skip_front_char(&c, i + 4, n, '\n');
            assert(rest.skip(i - 3 + 4) == c@.subrange(i + 4, c@.len() as int));
            let body = content.substring_char(k, n);
            (Some(fm), body)
        },
        None => {
            assert forall|m: int| !matches_at(rest, closing_fence(), m) by {
                if 0 <= m {
                    assert(!matches_at(c@, closing_fence(), m + 3));
                }
            }
            (None, content)
        },
    }
}

/// The title that the note's text gives, if any: the frontmatter's `title:`
/// line first, then the body's first `# ` heading.
pub fn title_from_text(frontmatter: Option<&str>, body: &str) -> (r: Option<String>)
    ensures
        view_opt_string(r) == text_title(view_opt_str(frontmatter), body@),
{
    if let Some(fm) = frontmatter {
        let c = chars_of(fm);
        if let Some((a, b)) = frontmatter_title_range(&c) {
            return Some(fm.substring_char(a, b).to_owned());
        }
    }
    let c = chars_of(body);
    match heading_range(&c) {
        Some((a, b)) => Some(body.substring_char(a, b).to_owned()),
        None => None,
    }
}

/// The note's title: the one its text gives, or else the stem of the file
/// name in `path`.
pub fn extract_title(frontmatter: Option<&str>, body: &str, path: &str) -> (t: String)
    ensures
        text_title(view_opt_str(frontmatter), body@) matches Some(x) ==> t@ == x,
        text_title(view_opt_str(frontmatter), body@) is None && is_portable_path(path@) ==> t@
            == portable_stem(path@),
{
    match title_from_text(frontmatter, body) {
        Some(t) => t,
        None => file_stem_text(path),
    }
}

/// A note's title and body, from its text and its path.
pub fn parse_note(content: &str, path: &str) -> (r: (String, String))
    ensures
        r.1@ == frontmatter_split(content@).1,
        text_title(frontmatter_split(content@).0, frontmatter_split(content@).1) matches Some(x)
            ==> r.0@ == x,
        text_title(frontmatter_split(content@).0, frontmatter_split(content@).1) is None
            && is_portable_path(path@) ==> r.0@ == portable_stem(path@),
{
    let (frontmatter, body) = split_frontmatter(content);
    let title = extract_title(frontmatter, body, path);
    (title, body.to_owned())
}

} // verus!
