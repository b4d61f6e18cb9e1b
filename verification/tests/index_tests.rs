use tagger::embed::{model_inputs, MAX_TOKENS};
use tagger::hashing::path_hash;
use tagger::index::{
    candidate_rows, order_key, rank_scores, similar_titles, top_titles, upsert_entry,
    vector_offset, Entry, BYTES_PER_VEC, DIMS,
};

fn dummy_vec(seed: f32) -> Vec<f32> {
    let mut v: Vec<f32> = (0..384).map(|i| (i as f32 * seed).sin()).collect();
    let norm: f32 = v.iter().map(|x| x * x).sum::<f32>().sqrt();
    v.iter_mut().for_each(|x| *x /= norm);
    v
}

fn dot(a: &[f32], b: &[f32]) -> f32 {
    a.iter().zip(b.iter()).map(|(x, y)| x * y).sum()
}

/// The search with an in-memory vector store in place of the index files:
/// upsert, score the other rows' vectors against the query (f32 dot
/// products, which stay outside the library), then rank and take titles.
fn upsert_and_search(
    manifest: &mut Vec<Entry>,
    vectors: &mut Vec<Vec<f32>>,
    path: &str,
    title: &str,
    embedding: &[f32],
    top_k: usize,
) -> Vec<String> {
    let row = upsert_entry(manifest, path, title);
    if row == vectors.len() {
        vectors.push(embedding.to_vec());
    } else {
        vectors[row] = embedding.to_vec();
    }
    let scores: Vec<(u32, usize)> = candidate_rows(manifest.len(), row)
        .into_iter()
        .map(|r| (order_key(dot(embedding, &vectors[r]).to_bits()), r))
        .collect();
    similar_titles(manifest, &scores, top_k)
}

#[test]
fn test_upsert_new_entry_appends() {
    let mut manifest = Vec::new();
    let mut vectors = Vec::new();
    upsert_and_search(&mut manifest, &mut vectors, "notes/a.md", "Note A", &dummy_vec(1.0), 5);
    assert_eq!(manifest.len(), 1);
    assert_eq!(manifest[0].title, "Note A");
}

#[test]
fn test_upsert_existing_does_not_duplicate() {
    let mut manifest = Vec::new();
    let mut vectors = Vec::new();
    upsert_and_search(&mut manifest, &mut vectors, "notes/a.md", "Note A v1", &dummy_vec(1.0), 5);
    upsert_and_search(&mut manifest, &mut vectors, "notes/a.md", "Note A v2", &dummy_vec(2.0), 5);
    assert_eq!(manifest.len(), 1, "upsert must not duplicate");
    assert_eq!(manifest[0].title, "Note A v2", "title must update");
}

#[test]
fn test_cosine_search_returns_most_similar() {
    let mut manifest = Vec::new();
    let mut vectors = Vec::new();
    upsert_and_search(&mut manifest, &mut vectors, "notes/b.md", "Similar Note", &dummy_vec(1.001), 5);
    upsert_and_search(&mut manifest, &mut vectors, "notes/c.md", "Dissimilar Note", &dummy_vec(99.0), 5);
    let results =
        upsert_and_search(&mut manifest, &mut vectors, "notes/a.md", "Query Note", &dummy_vec(1.0), 2);
    assert!(!results.contains(&"Query Note".to_string()));
    assert_eq!(results[0], "Similar Note");
}

#[test]
fn test_top_k_respected() {
    let mut manifest = Vec::new();
    let mut vectors = Vec::new();
    for i in 0..20usize {
        upsert_and_search(
            &mut manifest,
            &mut vectors,
            &format!("notes/n{}.md", i),
            &format!("Note {}", i),
            &dummy_vec(i as f32 + 0.1),
            1,
        );
    }
    let results =
        upsert_and_search(&mut manifest, &mut vectors, "notes/q.md", "Query", &dummy_vec(0.5), 5);
    assert_eq!(results.len(), 5);
}

#[test]
fn path_hash_is_sha256_prefix_in_hex() {
    assert_eq!(path_hash("notes/a.md"), "b33a8099b0121956");
    assert_eq!(path_hash("notes/b.md"), "41a1aa885acf588d");
    assert_eq!(path_hash(""), "e3b0c44298fc1c14");
    assert_eq!(path_hash("é.md"), "451cc55febec5dea");
}

#[test]
fn upsert_records_hash_and_rows() {
    let mut manifest = Vec::new();
    assert_eq!(upsert_entry(&mut manifest, "notes/a.md", "A"), 0);
    assert_eq!(upsert_entry(&mut manifest, "notes/b.md", "B"), 1);
    assert_eq!(upsert_entry(&mut manifest, "notes/a.md", "A2"), 0);
    assert_eq!(manifest.len(), 2);
    assert_eq!(manifest[0].id, 0);
    assert_eq!(manifest[0].title, "A2");
    assert_eq!(manifest[0].path_hash, "b33a8099b0121956");
    assert_eq!(manifest[1].id, 1);
    assert_eq!(manifest[1].title, "B");
    assert_eq!(manifest[1].path, "notes/b.md");
}

#[test]
fn upsert_matches_by_hash_and_keeps_id() {
    let mut manifest = vec![Entry {
        id: 7,
        path: "old/place.md".to_string(),
        title: "Old".to_string(),
        path_hash: "b33a8099b0121956".to_string(),
    }];
    assert_eq!(upsert_entry(&mut manifest, "notes/a.md", "New"), 7);
    assert_eq!(manifest.len(), 1);
    assert_eq!(manifest[0].id, 7);
    assert_eq!(manifest[0].path, "notes/a.md");
    assert_eq!(manifest[0].title, "New");
}

#[test]
fn candidate_rows_skip_the_query() {
    assert_eq!(candidate_rows(5, 2), vec![0, 1, 3, 4]);
    assert_eq!(candidate_rows(3, 7), vec![0, 1, 2]);
    assert_eq!(candidate_rows(1, 0), Vec::<usize>::new());
}

#[test]
fn order_key_follows_float_order() {
    let values: [f32; 9] = [f32::NEG_INFINITY, -2.5, -1.0, -1e-30, 0.0, 1e-30, 0.5, 1.0, f32::INFINITY];
    for w in values.windows(2) {
        assert!(order_key(w[0].to_bits()) < order_key(w[1].to_bits()));
    }
    assert_eq!(order_key((-0.0f32).to_bits()), order_key(0.0f32.to_bits()));
    assert_eq!(order_key(0.0f32.to_bits()), 0x8000_0000);
    assert_eq!(order_key(1.0f32.to_bits()), 0xBF80_0000);
    assert_eq!(order_key((-1.0f32).to_bits()), 0x4080_0000);
    assert_eq!(order_key(f32::NEG_INFINITY.to_bits()), 0x0080_0000);
}

#[test]
fn ranking_is_descending_and_stable() {
    let scores = vec![(5, 10), (9, 11), (5, 12), (1, 13), (9, 14)];
    assert_eq!(rank_scores(&scores), vec![1, 4, 0, 2, 3]);
    assert_eq!(rank_scores(&Vec::new()), Vec::<usize>::new());
}

#[test]
fn top_titles_takes_at_most_top_k() {
    let manifest: Vec<Entry> = (0..3)
        .map(|i| Entry {
            id: i,
            path: format!("p{}", i),
            title: format!("T{}", i),
            path_hash: String::new(),
        })
        .collect();
    let scores = vec![(1, 0), (3, 2), (2, 1)];
    let order = rank_scores(&scores);
    assert_eq!(top_titles(&manifest, &scores, &order, 2), vec!["T2", "T1"]);
    assert_eq!(top_titles(&manifest, &scores, &order, 10), vec!["T2", "T1", "T0"]);
    assert_eq!(top_titles(&manifest, &scores, &order, 0), Vec::<String>::new());
}

#[test]
fn vector_layout() {
    assert_eq!(DIMS, 384);
    assert_eq!(BYTES_PER_VEC, 1536);
    assert_eq!(vector_offset(0), 0);
    assert_eq!(vector_offset(3), 4608);
}

#[test]
fn model_inputs_are_cut_to_the_window() {
    let ids: Vec<u32> = (0..300).collect();
    let mask: Vec<u32> = vec![1; 300];
    let (i, m, t) = model_inputs(&ids, &mask);
    assert_eq!(MAX_TOKENS, 256);
    assert_eq!(i, (0..256).collect::<Vec<u32>>());
    assert_eq!(m, vec![1; 256]);
    assert_eq!(t, vec![0; 256]);
    let (i, m, t) = model_inputs(&[7, 8], &[1, 0]);
    assert_eq!((i, m, t), (vec![7, 8], vec![1, 0], vec![0, 0]));
}

#[test]
fn similar_titles_ranks_then_takes_top_k() {
    let manifest: Vec<Entry> = (0..4)
        .map(|i| Entry {
            id: i,
            path: format!("p{}", i),
            title: format!("T{}", i),
            path_hash: String::new(),
        })
        .collect();
    let scores = vec![(7, 0), (9, 1), (7, 3)];
    assert_eq!(similar_titles(&manifest, &scores, 2), vec!["T1", "T0"]);
    assert_eq!(similar_titles(&manifest, &scores, 5), vec!["T1", "T0", "T3"]);
    assert_eq!(similar_titles(&manifest, &Vec::new(), 5), Vec::<String>::new());
}

#[test]
fn entries_clone() {
    let e = Entry { id: 1, path: "a".to_string(), title: "A".to_string(), path_hash: "h".to_string() };
    let c = e.clone();
    assert_eq!((c.id, c.path, c.title, c.path_hash), (1, "a".to_string(), "A".to_string(), "h".to_string()));
}
