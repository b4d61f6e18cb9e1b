//! File stems of note paths, as `Path::file_stem` gives them for paths that
//! every platform splits the same way.
use vstd::prelude::*;

use crate::text::{drop_back_char, starts_with};

verus! {

/// Position of the last `c` in `s`, or -1 when there is none.
pub open spec fn last_index_of(s: Seq<char>, c: char) -> int
    decreases s.len(),
{
    if s.len() == 0 {
        -1
    } else if s.last() == c {
        s.len() - 1
    } else {
        last_index_of(s.drop_last(), c)
    }
}

pub proof fn lemma_last_index_of(s: Seq<char>, c: char)
    ensures
        -1 <= last_index_of(s, c) < s.len(),
        last_index_of(s, c) >= 0 ==> s[last_index_of(s, c)] == c,
        forall|j: int| last_index_of(s, c) < j < s.len() ==> s[j] != c,
    decreases s.len(),
{
    if s.len() > 0 && s.last() != c {
        lemma_last_index_of(s.drop_last(), c);
        assert forall|j: int| last_index_of(s, c) < j < s.len() implies s[j] != c by {
            if j < s.len() - 1 {
                assert(s.drop_last()[j] == s[j]);
            }
        }
    }
}

pub proof fn lemma_drop_back_char_prefix(s: Seq<char>, c: char)
    ensures
        drop_back_char(s, c).len() <= s.len(),
        drop_back_char(s, c) == s.take(drop_back_char(s, c).len() as int),
    decreases s.len(),
{
    if s.len() > 0 && s.last() == c {
        lemma_drop_back_char_prefix(s.drop_last(), c);
        assert(s.drop_last().take(drop_back_char(s, c).len() as int) == s.take(
            drop_back_char(s, c).len() as int,
        ));
    } else {
        assert(s.take(s.len() as int) == s);
    }
}

/// The last component of a `/`-separated path once repeated and trailing
/// separators and `.` components are dropped, as `Path::components`
/// normalises them; empty when no component is left.
pub open spec fn last_component(p: Seq<char>) -> Seq<char>
    decreases p.len(),
{
    let q = drop_back_char(p, '/');
    let seg = q.skip(last_index_of(q, '/') + 1);
    if seg == seq!['.'] {
        proof {
            lemma_drop_back_char_prefix(p, '/');
            lemma_last_index_of(q, '/');
            assert(seg.len() == 1);
            assert(q.len() >= 1);
        }
        last_component(q.take(q.len() - 1))
    } else {
        seg
    }
}

/// `Path::file_name` of a `/`-separated path: the last component, unless
/// there is none or it is `..`.
pub open spec fn path_file_name(p: Seq<char>) -> Option<Seq<char>> {
    let c = last_component(p);
    if c.len() == 0 || c == seq!['.', '.'] {
        None
    } else {
        Some(c)
    }
}

/// The stem of a file name: the whole name when it has no `.` other than a
/// leading one, else the part before the last `.`.
pub open spec fn name_stem(name: Seq<char>) -> Seq<char> {
    let i = last_index_of(name, '.');
    if i <= 0 {
        name
    } else {
        name.take(i)
    }
}

/// `Path::file_stem` of a `/`-separated path, as text; empty when there is no
/// file name.
pub open spec fn portable_stem(p: Seq<char>) -> Seq<char> {
    match path_file_name(p) {
        Some(n) => name_stem(n),
        None => seq![],
    }
}

/// A path that every platform splits the same way: `/` is its only
/// separator, and nothing in it can read as a Windows prefix (no `\`, no
/// `:`, no leading `//`).
pub open spec fn is_portable_path(p: Seq<char>) -> bool {
    &&& !p.contains('\\')
    &&& !p.contains(':')
    &&& !starts_with(p, seq!['/', '/'])
}

/// A path that names a file has a non-empty stem.
pub proof fn law_file_stem_nonempty(p: Seq<char>)
    requires
        path_file_name(p) is Some,
    ensures
        portable_stem(p).len() > 0,
{
    let n = path_file_name(p)->0;
    lemma_last_index_of(n, '.');
}

/// Calls `Path::file_stem` on `path` and turns the stem into text (empty when
/// there is none). For a portable path it claims the stem that the documented
/// rules give: components split at `/`, repeated separators and `.`
/// components dropped, no file name when the last is `..`, and the stem
/// before the last `.` unless that `.` leads the name. Other paths split
/// differently on Windows and Unix, so nothing is stated of them.
#[verifier::external_body]
pub(crate) fn file_stem_text(path: &str) -> (r: String)
    ensures
        is_portable_path(path@) ==> r@ == portable_stem(path@),
{
    std::path::Path::new(path).file_stem().unwrap_or_default().to_string_lossy().to_string()
}


proof fn lemma_last_index_of_absent(s: Seq<char>, c: char)
    requires
        !s.contains(c),
    ensures
        last_index_of(s, c) == -1,
    decreases s.len(),
{
    if s.len() > 0 {
        assert(s.last() == s[s.len() - 1]);
        assert(!s.drop_last().contains(c)) by {
            if s.drop_last().contains(c) {
                let x = choose|x: int| 0 <= x < s.drop_last().len() && s.drop_last()[x] == c;
                assert(s[x] == c);
            }
        }
        lemma_last_index_of_absent(s.drop_last(), c);
    }
}

proof fn lemma_last_index_of_split(a: Seq<char>, c: char, b: Seq<char>)
    requires
        !b.contains(c),
    ensures
        last_index_of(a + seq![c] + b, c) == a.len(),
    decreases b.len(),
{
    let s = a + seq![c] + b;
    if b.len() == 0 {
        assert(s.last() == c);
    } else {
        assert(s.last() == b.last());
        assert(b.last() != c) by {
            assert(b[b.len() - 1] == b.last());
        }
        assert(!b.drop_last().contains(c)) by {
            if b.drop_last().contains(c) {
                let x = choose|x: int| 0 <= x < b.drop_last().len() && b.drop_last()[x] == c;
                assert(b[x] == c);
            }
        }
        assert(s.drop_last() =~= a + seq![c] + b.drop_last());
        lemma_last_index_of_split(a, c, b.drop_last());
    }
}

/// The stem of `dir/name`, for a name with no `/` and no `.`, is the name.
pub proof fn law_stem_of_plain_name(dir: Seq<char>, name: Seq<char>)
    requires
        name.len() > 0,
        !name.contains('/'),
        !name.contains('.'),
    ensures
        portable_stem(dir + seq!['/'] + name) == name,
{
    let p = dir + seq!['/'] + name;
    assert(p.last() == name.last());
    assert(name.last() != '/') by {
        assert(name[name.len() - 1] == name.last());
    }
    assert(drop_back_char(p, '/') == p);
    lemma_last_index_of_split(dir, '/', name);
    assert(p.skip(dir.len() as int + 1) =~= name);
    if name == seq!['.'] {
        assert(name[0] == '.');
    }
    assert(last_component(p) == name);
    if name == seq!['.', '.'] {
        assert(name[0] == '.');
    }
    lemma_last_index_of_absent(name, '.');
}

/// The stem of `dir/name.ext`, for a name and an extension with no `/` and
/// no `.`, the name not empty, is the name: the extension is dropped.
pub proof fn law_stem_drops_extension(dir: Seq<char>, name: Seq<char>, ext: Seq<char>)
    requires
        name.len() > 0,
        !name.contains('/'),
        !name.contains('.'),
        !ext.contains('/'),
        !ext.contains('.'),
    ensures
        portable_stem(dir + seq!['/'] + (name + seq!['.'] + ext)) == name,
{
    let file = name + seq!['.'] + ext;
    let p = dir + seq!['/'] + file;
    assert(!file.contains('/')) by {
        if file.contains('/') {
            let x = choose|x: int| 0 <= x < file.len() && file[x] == '/';
            if x < name.len() {
                assert(name[x] == '/');
            } else if x > name.len() {
                assert(ext[x - name.len() - 1] == '/');
            }
        }
    }
    assert(file.len() > 0);
    assert(file.last() == file[file.len() - 1]);
    assert(p.last() == file.last());
    assert(drop_back_char(p, '/') == p);
    lemma_last_index_of_split(dir, '/', file);
    assert(p.skip(dir.len() as int + 1) =~= file);
    if file == seq!['.'] {
        assert(file.len() == 1);
    }
    assert(last_component(p) == file);
    if file == seq!['.', '.'] {
        assert(file[0] == name[0]);
        assert(name[0] != '.') by {
            if name[0] == '.' {
                assert(name.contains('.'));
            }
        }
    }
    lemma_last_index_of_split(name, '.', ext);
    assert(file.take(name.len() as int) =~= name);
}

} // verus!
