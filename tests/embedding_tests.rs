use axiom_core::embedding::{rank, EmbeddingRecord, EmbeddingStore, StoreError};

fn bits(v: &[f32]) -> Vec<u32> {
    v.iter().map(|x| x.to_bits()).collect()
}

fn keys(store_vectors: &[Vec<f32>], q: &[f32]) -> Vec<u32> {
    store_vectors
        .iter()
        .map(|v| {
            let d: f32 = v.iter().zip(q).map(|(a, b)| (a - b) * (a - b)).sum();
            d.sqrt().to_bits()
        })
        .collect()
}

fn three() -> (EmbeddingStore, Vec<Vec<f32>>) {
    let mut s = EmbeddingStore::new(3);
    let vs = vec![vec![1.0, 0.0, 0.0], vec![0.0, 1.0, 0.0], vec![0.9, 0.1, 0.0]];
    for (c, v) in ["a", "b", "c"].iter().zip(&vs) {
        s.insert(c.to_string(), bits(v)).unwrap();
    }
    (s, vs)
}

#[test]
fn three_records_nearest_two() {
    let (s, vs) = three();
    let q = [1.0f32, 0.0, 0.0];
    let r = s.search(&bits(&q), &keys(&vs, &q), 2).unwrap();
    assert_eq!(r, vec!["a".to_string(), "c".to_string()]);
}

#[test]
fn large_k_returns_all_records_nearest_first() {
    let (s, vs) = three();
    let q = [1.0f32, 0.0, 0.0];
    let r = s.search(&bits(&q), &keys(&vs, &q), 10).unwrap();
    assert_eq!(r, vec!["a".to_string(), "c".to_string(), "b".to_string()]);
}

#[test]
fn zero_k_returns_nothing() {
    let (s, vs) = three();
    let q = [0.0f32, 1.0, 0.0];
    assert!(s.search(&bits(&q), &keys(&vs, &q), 0).unwrap().is_empty());
}

#[test]
fn insert_of_wrong_dimension_is_refused() {
    let (mut s, _) = three();
    let r = s.insert("d".to_string(), bits(&[1.0, 2.0]));
    assert_eq!(r, Err(StoreError::DimensionMismatch { expected: 3, found: 2 }));
    assert_eq!(s.len(), 3);
    assert_eq!(s.insert("d".to_string(), bits(&[1.0, 2.0, 3.0])), Ok(3));
    assert_eq!(s.len(), 4);
}

#[test]
fn search_of_wrong_dimension_is_refused() {
    let (s, _) = three();
    let r = s.search(&bits(&[1.0, 0.0, 0.0, 0.0]), &vec![0, 0, 0], 2);
    assert_eq!(r, Err(StoreError::DimensionMismatch { expected: 3, found: 4 }));
}

#[test]
fn equal_distances_rank_by_insertion_order() {
    assert_eq!(rank(&vec![5, 1, 5, 1, 0], 5), vec![4, 1, 3, 0, 2]);
    assert_eq!(rank(&vec![7, 7, 7], 2), vec![0, 1]);
    assert_eq!(rank(&vec![], 3), Vec::<usize>::new());
}

#[test]
fn empty_store_search_returns_nothing() {
    let s = EmbeddingStore::new(2);
    assert_eq!(s.dimension(), 2);
    assert!(s.search(&bits(&[0.0, 0.0]), &vec![], 4).unwrap().is_empty());
}

#[test]
fn reopen_checks_dimension_and_ids() {
    let rec = |id: usize, n: usize| EmbeddingRecord {
        id,
        content: format!("r{}", id),
        embedding: vec![0; n],
    };
    let ok = EmbeddingStore::open(2, vec![rec(0, 2), rec(1, 2)]).unwrap();
    assert_eq!(ok.len(), 2);
    assert_eq!(
        EmbeddingStore::open(2, vec![rec(0, 2), rec(1, 3), rec(2, 4)]).err(),
        Some(StoreError::DimensionMismatch { expected: 2, found: 3 })
    );
    assert_eq!(
        EmbeddingStore::open(2, vec![rec(0, 2), rec(5, 2)]).err(),
        Some(StoreError::Persistence)
    );
}
