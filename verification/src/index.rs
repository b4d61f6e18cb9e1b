//! The note index: a manifest of entries, one per note path, kept by upsert,
//! and the ranking of stored notes by similarity score.
use vstd::prelude::*;

use crate::hashing::{path_hash, path_hash_of};

verus! {

broadcast use vstd::string::group_string_axioms;

/// Dimensions of a note embedding.
pub const DIMS: usize = 384;

/// Bytes one stored embedding takes: `DIMS` little-endian `f32` values.
pub const BYTES_PER_VEC: usize = DIMS * 4;

/// One indexed note: its row in the vector file, its path, its title and
/// the identifier derived from its path.
#[derive(Debug, Clone)]
pub struct Entry {
    pub id: usize,
    pub path: String,
    pub title: String,
    pub path_hash: String,
}

/// An entry as plain values.
pub struct EntryView {
    pub id: nat,
    pub path: Seq<char>,
    pub title: Seq<char>,
    pub path_hash: Seq<char>,
}

impl View for Entry {
    type V = EntryView;

    open spec fn view(&self) -> EntryView {
        EntryView {
            id: self.id as nat,
            path: self.path@,
            title: self.title@,
            path_hash: self.path_hash@,
        }
    }
}

/// A manifest as plain values.
pub open spec fn manifest_view(m: Seq<Entry>) -> Seq<EntryView> {
    m.map_values(|e: Entry| e@)
}

/// A manifest as this index writes it: each entry sits at the row its id
/// names, carries the identifier of its own path, and no identifier occurs
/// twice.
pub open spec fn manifest_wf(m: Seq<EntryView>) -> bool {
    &&& forall|i: int| 0 <= i < m.len() ==> #[trigger] m[i].id == i
    &&& forall|i: int| 0 <= i < m.len() ==> #[trigger] m[i].path_hash == path_hash_of(m[i].path)
    &&& forall|i: int, j: int|
        0 <= i < j < m.len() ==> #[trigger] m[i].path_hash != #[trigger] m[j].path_hash
}

/// Entry `i` carries identifier `h`.
pub open spec fn has_hash_at(m: Seq<EntryView>, h: Seq<char>, i: int) -> bool {
    0 <= i < m.len() && m[i].path_hash == h
}

/// Entry `i` is the first that carries identifier `h`.
pub open spec fn is_first_with_hash(m: Seq<EntryView>, h: Seq<char>, i: int) -> bool {
    &&& has_hash_at(m, h, i)
    &&& forall|j: int| 0 <= j < i ==> !has_hash_at(m, h, j)
}

/// The first entry that carries identifier `h`, if any.
pub open spec fn find_by_hash(m: Seq<EntryView>, h: Seq<char>) -> Option<int> {
    if exists|i: int| has_hash_at(m, h, i) {
        Some(choose|i: int| is_first_with_hash(m, h, i))
    } else {
        None
    }
}

/// The manifest after recording `path` with `title`: the first entry with the
/// path's identifier takes the new path and title and keeps its id; when
/// there is none, a new entry is appended with the next id.
pub open spec fn upserted(m: Seq<EntryView>, path: Seq<char>, title: Seq<char>) -> Seq<EntryView> {
    let h = path_hash_of(path);
    match find_by_hash(m, h) {
        Some(i) => m.update(i, EntryView { id: m[i].id, path, title, path_hash: m[i].path_hash }),
        None => m.push(EntryView { id: m.len(), path, title, path_hash: h }),
    }
}

/// The row that recording `path` uses: the id of the entry found, or the
/// next id.
pub open spec fn upsert_row(m: Seq<EntryView>, path: Seq<char>) -> int {
    match find_by_hash(m, path_hash_of(path)) {
        Some(i) => m[i].id as int,
        None => m.len() as int,
    }
}

pub proof fn lemma_find_by_hash_unique(m: Seq<EntryView>, h: Seq<char>, i: int)
    requires
        is_first_with_hash(m, h, i),
    ensures
        find_by_hash(m, h) == Some(i),
{
    let k = choose|k: int| is_first_with_hash(m, h, k);
    assert(is_first_with_hash(m, h, k));
    if k < i {
        assert(!has_hash_at(m, h, k));
    }
    if i < k {
        assert(!has_hash_at(m, h, i));
    }
}

/// Where some entry carries `h`, a first one does.
pub proof fn lemma_first_with_hash_exists(m: Seq<EntryView>, h: Seq<char>, w: int)
    requires
        has_hash_at(m, h, w),
    ensures
        is_first_with_hash(m, h, find_by_hash(m, h)->0),
    decreases w,
{
    if exists|j: int| 0 <= j < w && has_hash_at(m, h, j) {
        let j = choose|j: int| 0 <= j < w && has_hash_at(m, h, j);
        lemma_first_with_hash_exists(m, h, j);
    } else {
        assert(is_first_with_hash(m, h, w));
        lemma_find_by_hash_unique(m, h, w);
    }
}

/// Records `path` with `title` in `manifest`, replacing the entry of the same
/// path identifier or appending a new one, and returns the entry's row.
pub fn upsert_entry(manifest: &mut Vec<Entry>, path: &str, title: &str) -> (row: usize)
    ensures
        manifest_view(final(manifest)@) == upserted(manifest_view(old(manifest)@), path@, title@),
        row == upsert_row(manifest_view(old(manifest)@), path@),
{
    let hash = path_hash(path);
    let ghost m0 = manifest_view(manifest@);
    let n = manifest.len();
    let mut i: usize = 0;
    while i < n
        invariant
            n == manifest@.len(),
            i <= n,
            manifest_view(manifest@) == m0,
            m0 == manifest_view(old(manifest)@),
            hash@ == path_hash_of(path@),
            forall|j: int| 0 <= j < i ==> !has_hash_at(m0, hash@, j),
        decreases n - i,
    {
        assert(m0[i as int] == manifest@[i as int]@);
        if manifest[i].path_hash == hash {
            let id = manifest[i].id;
            let kept = manifest[i].path_hash.clone();
            proof {
                assert(is_first_with_hash(m0, hash@, i as int));
                lemma_find_by_hash_unique(m0, hash@, i as int);
            }
            manifest[i] = Entry { id, path: path.to_owned(), title: title.to_owned(), path_hash: kept };
            assert(manifest_view(manifest@) =~= upserted(m0, path@, title@));
            return id;
        }
        i = i + 1;
    }
    assert(!exists|j: int| has_hash_at(m0, hash@, j));
    manifest.push(Entry { id: n, path: path.to_owned(), title: title.to_owned(), path_hash: hash });
    assert(manifest_view(manifest@) =~= upserted(m0, path@, title@));
    n
}

/// Recording a path keeps a well-formed manifest well formed: rows stay
/// positions, identifiers stay those of their paths, and none is duplicated.
pub proof fn law_upsert_keeps_manifest_wf(m: Seq<EntryView>, path: Seq<char>, title: Seq<char>)
    requires
        manifest_wf(m),
    ensures
        manifest_wf(upserted(m, path, title)),
{
    let h = path_hash_of(path);
    let m2 = upserted(m, path, title);
    match find_by_hash(m, h) {
        Some(i) => {
            let w = choose|w: int| has_hash_at(m, h, w);
            lemma_first_with_hash_exists(m, h, w);
            assert(forall|j: int| 0 <= j < m2.len() && j != i ==> m2[j] == m[j]);
            assert(m2[i].path_hash == path_hash_of(m2[i].path));
        },
        None => {
            assert forall|j: int| 0 <= j < m.len() implies m[j].path_hash != h by {
                assert(!has_hash_at(m, h, j));
            }
        },
    }
}

/// After recording `path`, the row that was used holds the path and its new
/// title; every other entry is as it was; and the manifest grows by one entry
/// exactly when no entry had the path's identifier.
pub proof fn law_upsert_places_entry(m: Seq<EntryView>, path: Seq<char>, title: Seq<char>)
    requires
        manifest_wf(m),
    ensures
        ({
            let m2 = upserted(m, path, title);
            let r = upsert_row(m, path);
            &&& 0 <= r < m2.len()
            &&& m2[r].path == path
            &&& m2[r].title == title
            &&& m2[r].path_hash == path_hash_of(path)
            &&& forall|j: int| 0 <= j < m.len() && j != r ==> m2[j] == m[j]
            &&& (exists|i: int| has_hash_at(m, path_hash_of(path), i)) ==> m2.len() == m.len()
            &&& (!exists|i: int| has_hash_at(m, path_hash_of(path), i)) ==> m2.len() == m.len()
                + 1
        }),
{
    let h = path_hash_of(path);
    match find_by_hash(m, h) {
        Some(i) => {
            let w = choose|w: int| has_hash_at(m, h, w);
            lemma_first_with_hash_exists(m, h, w);
            assert(m[i].id == i);
        },
        None => {},
    }
}

/// Recording the same path twice gives what recording it once, with the
/// second title, gives, at the same row: re-tagging a note replaces its
/// entry and never appends a duplicate.
pub proof fn law_upsert_twice(m: Seq<EntryView>, path: Seq<char>, t1: Seq<char>, t2: Seq<char>)
    ensures
        upserted(upserted(m, path, t1), path, t2) == upserted(m, path, t2),
        upsert_row(upserted(m, path, t1), path) == upsert_row(m, path),
{
    let h = path_hash_of(path);
    let m1 = upserted(m, path, t1);
    match find_by_hash(m, h) {
        Some(i) => {
            let w = choose|w: int| has_hash_at(m, h, w);
            lemma_first_with_hash_exists(m, h, w);
            assert(is_first_with_hash(m1, h, i)) by {
                assert forall|j: int| 0 <= j < i implies !has_hash_at(m1, h, j) by {
                    assert(!has_hash_at(m, h, j));
                }
            }
            lemma_find_by_hash_unique(m1, h, i);
            assert(upserted(m1, path, t2) =~= upserted(m, path, t2));
        },
        None => {
            let n = m.len() as int;
            assert(is_first_with_hash(m1, h, n)) by {
                assert forall|j: int| 0 <= j < n implies !has_hash_at(m1, h, j) by {
                    assert(!has_hash_at(m, h, j));
                }
            }
            lemma_find_by_hash_unique(m1, h, n);
            assert(upserted(m1, path, t2) =~= upserted(m, path, t2));
        },
    }
}


/// Recording a path whose identifier no entry has, after recording another
/// path with a different identifier, appends a new entry at the next row and
/// leaves the earlier entries as they were.
pub proof fn law_new_identifier_appends(
    m: Seq<EntryView>,
    p1: Seq<char>,
    t1: Seq<char>,
    p2: Seq<char>,
    t2: Seq<char>,
)
    requires
        path_hash_of(p1) != path_hash_of(p2),
        forall|i: int| 0 <= i < m.len() ==> #[trigger] m[i].path_hash != path_hash_of(p2),
    ensures
        ({
            let m1 = upserted(m, p1, t1);
            let m2 = upserted(m1, p2, t2);
            &&& m2.len() == m1.len() + 1
            &&& upsert_row(m1, p2) == m1.len()
            &&& m2[m1.len() as int] == EntryView {
                id: m1.len(),
                path: p2,
                title: t2,
                path_hash: path_hash_of(p2),
            }
            &&& m2.take(m1.len() as int) == m1
        }),
{
    let h1 = path_hash_of(p1);
    let h2 = path_hash_of(p2);
    let m1 = upserted(m, p1, t1);
    match find_by_hash(m, h1) {
        Some(i) => {
            let w = choose|w: int| has_hash_at(m, h1, w);
            lemma_first_with_hash_exists(m, h1, w);
        },
        None => {},
    }
    assert forall|j: int| 0 <= j < m1.len() implies !has_hash_at(m1, h2, j) by {
        if j < m.len() {
            assert(m[j].path_hash != h2);
        }
    }
    assert(!exists|j: int| has_hash_at(m1, h2, j));
    assert(upserted(m1, p2, t2).take(m1.len() as int) =~= m1);
}

/// The rows to compare a note against: every row below `n` except `row`, in
/// increasing order.
pub fn candidate_rows(n: usize, row: usize) -> (r: Vec<usize>)
    ensures
        r@.len() == if row < n {
            n - 1
        } else {
            n as int
        },
        forall|k: int| 0 <= k < r@.len() ==> r@[k] < n && r@[k] != row,
        forall|k: int, l: int| 0 <= k < l < r@.len() ==> r@[k] < r@[l],
        forall|x: usize| x < n && x != row ==> r@.contains(x),
{
    let mut r: Vec<usize> = Vec::new();
    let mut i: usize = 0;
    while i < n
        invariant
            i <= n,
            r@.len() == if row < i {
                i - 1
            } else {
                i as int
            },
            forall|k: int| 0 <= k < r@.len() ==> r@[k] < i && r@[k] != row,
            forall|k: int, l: int| 0 <= k < l < r@.len() ==> r@[k] < r@[l],
            forall|x: usize| x < i && x != row ==> r@.contains(x),
        decreases n - i,
    {
        if i != row {
            let ghost old_r = r@;
            r.push(i);
            assert(r@[r@.len() - 1] == i);
            assert forall|x: usize| x < i + 1 && x != row implies r@.contains(x) by {
                if x < i {
                    assert(old_r.contains(x));
                    let k = choose|k: int| 0 <= k < old_r.len() && old_r[k] == x;
                    assert(r@[k] == x);
                } else {
                    assert(r@[r@.len() - 1] == x);
                }
            }
        }
        i = i + 1;
    }
    r
}

/// The sign bit of the `f32` with these bits is set.
pub open spec fn bits_negative(bits: u32) -> bool {
    bits >= 0x8000_0000
}

/// The magnitude bits (exponent and mantissa) of the `f32` with these bits.
pub open spec fn bits_magnitude(bits: u32) -> int {
    if bits_negative(bits) {
        bits - 0x8000_0000
    } else {
        bits as int
    }
}

/// The `f32` with these bits is a NaN: all exponent bits set and a non-zero
/// mantissa.
pub open spec fn bits_is_nan(bits: u32) -> bool {
    bits_magnitude(bits) > 0x7F80_0000
}

/// IEEE 754 `<` on the `f32` values with bits `a` and `b`, neither a NaN:
/// among non-negative values a larger magnitude is larger, among negative
/// ones it is smaller, every negative value lies below every non-negative one,
/// and `-0.0` equals `0.0`.
pub open spec fn float_lt(a: u32, b: u32) -> bool {
    let (ma, mb) = (bits_magnitude(a), bits_magnitude(b));
    if ma == 0 && mb == 0 {
        false
    } else if !bits_negative(a) && !bits_negative(b) {
        ma < mb
    } else if bits_negative(a) && bits_negative(b) {
        ma > mb
    } else {
        bits_negative(a)
    }
}

/// IEEE 754 `==` on the `f32` values with bits `a` and `b`, neither a NaN.
pub open spec fn float_eq(a: u32, b: u32) -> bool {
    a == b || (bits_magnitude(a) == 0 && bits_magnitude(b) == 0)
}

/// The ordering key of a similarity score given by its `f32` bits: `2^31`
/// plus the score's signed magnitude, so that `-0.0` and `0.0` share a key.
pub open spec fn score_key(bits: u32) -> int {
    if bits_negative(bits) {
        0x8000_0000 - bits_magnitude(bits)
    } else {
        0x8000_0000 + bits_magnitude(bits)
    }
}

/// The ordering key of the score whose `f32` bits are `bits`.
pub fn order_key(bits: u32) -> (k: u32)
    ensures
        k == score_key(bits),
{
    if bits >= 0x8000_0000 {
        0xFFFF_FFFF - bits + 1
    } else {
        bits + 0x8000_0000
    }
}

/// Ordering scores by key is ordering them as floats: for scores that are
/// not NaN, one key is below another exactly when its score is below the
/// other's, and keys are equal exactly when the scores are.
pub proof fn law_order_key_follows_float_order(a: u32, b: u32)
    requires
        !bits_is_nan(a),
        !bits_is_nan(b),
    ensures
        float_lt(a, b) <==> score_key(a) < score_key(b),
        float_eq(a, b) <==> score_key(a) == score_key(b),
{
}

/// Candidate `a` comes before candidate `b`: a higher key, or an equal key
/// and an earlier place in `scores`.
pub open spec fn ranks_before(scores: Seq<(u32, usize)>, a: int, b: int) -> bool {
    scores[a].0 > scores[b].0 || (scores[a].0 == scores[b].0 && a < b)
}

/// `order` lists every place of `scores` once, best key first, equal keys in
/// their order in `scores` (a stable sort by descending key).
pub open spec fn is_ranking(scores: Seq<(u32, usize)>, order: Seq<usize>) -> bool {
    &&& order.len() == scores.len()
    &&& forall|k: int| 0 <= k < order.len() ==> #[trigger] order[k] < scores.len()
    &&& forall|k: int, l: int|
        0 <= k < l < order.len() ==> ranks_before(
            scores,
            #[trigger] order[k] as int,
            #[trigger] order[l] as int,
        )
}

/// A ranking lists every place of `scores`.
proof fn lemma_ranking_covers(scores: Seq<(u32, usize)>, order: Seq<usize>, x: int)
    requires
        is_ranking(scores, order),
        0 <= x < scores.len(),
    ensures
        exists|k: int| 0 <= k < order.len() && order[k] == x,
{
    broadcast use vstd::seq_lib::seq_to_set_is_finite;

    let n = scores.len() as int;
    let places = Seq::new(order.len(), |k: int| order[k] as int);
    assert(places.no_duplicates()) by {
        assert forall|i: int, j: int|
            0 <= i < places.len() && 0 <= j < places.len() && i != j implies places[i]
            != places[j] by {
            if i < j {
                assert(ranks_before(scores, order[i] as int, order[j] as int));
            } else {
                assert(ranks_before(scores, order[j] as int, order[i] as int));
            }
        }
    }
    places.unique_seq_to_set();
    vstd::set_lib::lemma_int_range(0, n);
    assert(places.to_set().subset_of(vstd::set_lib::set_int_range(0, n))) by {
        assert forall|v: int| places.to_set().contains(v) implies vstd::set_lib::set_int_range(
            0,
            n,
        ).contains(v) by {
            assert(places.contains(v));
            let k = choose|k: int| 0 <= k < places.len() && places[k] == v;
            assert(order[k] < scores.len());
        }
    }
    vstd::set_lib::lemma_subset_equality(places.to_set(), vstd::set_lib::set_int_range(0, n));
    assert(vstd::set_lib::set_int_range(0, n).contains(x));
    assert(places.to_set().contains(x));
    assert(places.contains(x));
    let k = choose|k: int| 0 <= k < places.len() && places[k] == x;
    assert(order[k] == x);
}

proof fn lemma_rankings_agree_at(
    scores: Seq<(u32, usize)>,
    first: Seq<usize>,
    second: Seq<usize>,
    k: int,
)
    requires
        is_ranking(scores, first),
        is_ranking(scores, second),
        0 <= k < first.len(),
    ensures
        first[k] == second[k],
    decreases k,
{
    assert forall|j: int| 0 <= j < k implies first[j] == second[j] by {
        lemma_rankings_agree_at(scores, first, second, j);
    }
    let x = first[k];
    let y = second[k];
    if x != y {
        lemma_ranking_covers(scores, first, y as int);
        lemma_ranking_covers(scores, second, x as int);
        let p = choose|p: int| 0 <= p < first.len() && first[p] == y;
        let q = choose|q: int| 0 <= q < second.len() && second[q] == x;
        if p < k {
            assert(first[p] == second[p]);
            assert(ranks_before(scores, second[p] as int, second[k] as int));
        }
        if q < k {
            assert(first[q] == second[q]);
            assert(ranks_before(scores, first[q] as int, first[k] as int));
        }
        assert(ranks_before(scores, first[k] as int, first[p] as int));
        assert(ranks_before(scores, second[k] as int, second[q] as int));
    }
}

/// The ranking of a list of scores is determined by the scores: any two
/// rankings of the same scores are the same list.
pub proof fn law_ranking_unique(scores: Seq<(u32, usize)>, first: Seq<usize>, second: Seq<usize>)
    requires
        is_ranking(scores, first),
        is_ranking(scores, second),
    ensures
        first == second,
{
    assert forall|k: int| 0 <= k < first.len() implies first[k] == second[k] by {
        lemma_rankings_agree_at(scores, first, second, k);
    }
    assert(first =~= second);
}

/// The ranking of `scores` (there is exactly one, see `law_ranking_unique`).
pub open spec fn ranking(scores: Seq<(u32, usize)>) -> Seq<usize> {
    choose|order: Seq<usize>| is_ranking(scores, order)
}

/// The places of `scores` from best key to worst, equal keys in their order
/// in `scores`.
pub fn rank_scores(scores: &Vec<(u32, usize)>) -> (order: Vec<usize>)
    ensures
        is_ranking(scores@, order@),
        order@ == ranking(scores@),
{
    let n = scores.len();
    let mut order: Vec<usize> = Vec::new();
    let mut k: usize = 0;
    while k < n
        invariant
            n == scores@.len(),
            k <= n,
            order@.len() == k,
            forall|p: int| 0 <= p < order@.len() ==> #[trigger] order@[p] < k,
            forall|p: int, q: int|
                0 <= p < q < order@.len() ==> ranks_before(
                    scores@,
                    #[trigger] order@[p] as int,
                    #[trigger] order@[q] as int,
                ),
        decreases n - k,
    {
        let key = scores[k].0;
        let mut pos: usize = 0;
        while pos < order.len() && scores[order[pos]].0 >= key
            invariant
                n == scores@.len(),
                k < n,
                key == scores@[k as int].0,
                pos <= order@.len(),
                forall|p: int| 0 <= p < order@.len() ==> #[trigger] order@[p] < k,
                forall|p: int| 0 <= p < pos ==> scores@[#[trigger] order@[p] as int].0 >= key,
            decreases order@.len() - pos,
        {
            pos = pos + 1;
        }
        let ghost old_order = order@;
        order.insert(pos, k);
        assert forall|p: int| 0 <= p < order@.len() implies #[trigger] order@[p] < k + 1 by {
            if p < pos {
                assert(order@[p] == old_order[p]);
            } else if p > pos {
                assert(order@[p] == old_order[p - 1]);
            }
        }
        assert forall|p: int, q: int| 0 <= p < q < order@.len() implies ranks_before(
            scores@,
            #[trigger] order@[p] as int,
            #[trigger] order@[q] as int,
        ) by {
            if q < pos {
                assert(order@[p] == old_order[p] && order@[q] == old_order[q]);
            } else if q == pos {
                assert(order@[p] == old_order[p]);
                assert(scores@[old_order[p] as int].0 >= key);
            } else if p == pos {
                assert(order@[q] == old_order[q - 1]);
                if q - 1 > pos {
                    assert(ranks_before(scores@, old_order[pos as int] as int, old_order[q - 1] as int));
                }
                assert(scores@[old_order[pos as int] as int].0 < key);
            } else if p < pos {
                assert(order@[p] == old_order[p] && order@[q] == old_order[q - 1]);
            } else {
                assert(order@[p] == old_order[p - 1] && order@[q] == old_order[q - 1]);
            }
        }
        k = k + 1;
    }
    proof {
        assert(is_ranking(scores@, order@));
        let chosen = ranking(scores@);
        assert(is_ranking(scores@, chosen));
        law_ranking_unique(scores@, order@, chosen);
    }
    order
}

/// The smaller of two counts.
pub open spec fn min_len(a: int, b: int) -> int {
    if a < b {
        a
    } else {
        b
    }
}

/// The titles of the first `top_k` candidates in `order`, each candidate
/// being a score and the manifest row it was computed for.
pub fn top_titles(
    manifest: &Vec<Entry>,
    scores: &Vec<(u32, usize)>,
    order: &Vec<usize>,
    top_k: usize,
) -> (r: Vec<String>)
    requires
        forall|k: int| 0 <= k < order@.len() ==> #[trigger] order@[k] < scores@.len(),
        forall|i: int| 0 <= i < scores@.len() ==> #[trigger] scores@[i].1 < manifest@.len(),
    ensures
        r@.len() == min_len(top_k as int, order@.len() as int),
        forall|k: int|
            0 <= k < r@.len() ==> #[trigger] r@[k]@ == manifest@[scores@[order@[k] as int].1 as int].title@,
{
    let count = if top_k < order.len() {
        top_k
    } else {
        order.len()
    };
    let mut r: Vec<String> = Vec::new();
    let mut k: usize = 0;
    while k < count
        invariant
            count == min_len(top_k as int, order@.len() as int),
            k <= count,
            r@.len() == k,
            forall|k: int| 0 <= k < order@.len() ==> #[trigger] order@[k] < scores@.len(),
            forall|i: int| 0 <= i < scores@.len() ==> #[trigger] scores@[i].1 < manifest@.len(),
            forall|j: int|
                0 <= j < k ==> #[trigger] r@[j]@ == manifest@[scores@[order@[j] as int].1 as int].title@,
        decreases count - k,
    {
        let place = order[k];
        let row = scores[place].1;
        r.push(manifest[row].title.clone());
        k = k + 1;
    }
    r
}

/// The titles of the `top_k` best-scored candidates, best first; each
/// candidate is a score key and the manifest row it was computed for.
pub fn similar_titles(manifest: &Vec<Entry>, scores: &Vec<(u32, usize)>, top_k: usize) -> (r: Vec<
    String,
>)
    requires
        forall|i: int| 0 <= i < scores@.len() ==> #[trigger] scores@[i].1 < manifest@.len(),
    ensures
        r@.len() == min_len(top_k as int, scores@.len() as int),
        forall|k: int|
            0 <= k < r@.len() ==> #[trigger] r@[k]@ == manifest@[scores@[ranking(scores@)[k] as int].1 as int].title@,
{
    let order = rank_scores(scores);
    top_titles(manifest, scores, &order, top_k)
}

/// A search never returns the note that was searched for: when the scores
/// were computed for the candidate rows of `row`, no ranked candidate names
/// `row`.
pub proof fn law_search_excludes_query(
    scores: Seq<(u32, usize)>,
    candidates: Seq<usize>,
    row: usize,
    order: Seq<usize>,
)
    requires
        scores.len() == candidates.len(),
        forall|i: int| 0 <= i < scores.len() ==> #[trigger] scores[i].1 == candidates[i],
        forall|k: int| 0 <= k < candidates.len() ==> #[trigger] candidates[k] != row,
        is_ranking(scores, order),
    ensures
        forall|k: int| 0 <= k < order.len() ==> #[trigger] scores[order[k] as int].1 != row,
{
    assert forall|k: int| 0 <= k < order.len() implies #[trigger] scores[order[k] as int].1 != row by {
        assert(order[k] < scores.len());
        assert(candidates[order[k] as int] != row);
    }
}

/// Byte offset of the stored embedding of `row` in the vector file.
pub fn vector_offset(row: usize) -> (off: u64)
    requires
        row * BYTES_PER_VEC <= usize::MAX,
    ensures
        off == row * BYTES_PER_VEC,
{
    (row * BYTES_PER_VEC) as u64
}

} // verus!
