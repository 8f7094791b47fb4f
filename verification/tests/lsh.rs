use lsh_rs::hash::{sign, SignRandomProjections};
use lsh_rs::lsh::{same_hash, LSH};
use lsh_rs::table::general::HashTableError;

fn bits(v: &[f32]) -> Vec<u32> {
    v.iter().map(|x| x.to_bits()).collect()
}

fn dot(a: &Vec<u32>, b: &Vec<u32>) -> u32 {
    a.iter()
        .zip(b.iter())
        .map(|(x, y)| f32::from_bits(*x) * f32::from_bits(*y))
        .sum::<f32>()
        .to_bits()
}

fn planes(rows: &[&[f32]]) -> SignRandomProjections {
    let dim = rows[0].len();
    SignRandomProjections::new(rows.iter().map(|r| bits(r)).collect(), dim).unwrap()
}

fn sorted(mut v: Vec<u32>) -> Vec<u32> {
    v.sort();
    v
}

#[test]
fn sign_of_a_product() {
    assert_eq!(sign(1.0f32.to_bits()), 1);
    assert_eq!(sign((-1.0f32).to_bits()), -1);
    assert_eq!(sign(0.0f32.to_bits()), 1);
    assert_eq!(sign((-0.0f32).to_bits()), 1);
    assert_eq!(sign(f32::INFINITY.to_bits()), 1);
    assert_eq!(sign(f32::NEG_INFINITY.to_bits()), -1);
    assert_eq!(sign(f32::MIN_POSITIVE.to_bits()), 1);
    assert_eq!(sign((-f32::MIN_POSITIVE).to_bits()), -1);
    assert_eq!(sign(f32::NAN.to_bits()), 1);
    assert_eq!(sign((-f32::NAN).to_bits()), 1);
    for x in [3.5f32, -3.5, 1e-40, -1e-40, 1e38, -1e38] {
        assert_eq!(sign(x.to_bits()), if x < 0. { -1 } else { 1 });
    }
}

#[test]
fn projections_hash_by_sign() {
    let srp = planes(&[&[1., 0.], &[0., 1.], &[-1., -1.]]);
    assert!(srp.is_valid());
    assert_eq!(srp.hash_vec_query(&bits(&[2., 3.]), &dot), vec![1, 1, -1]);
    assert_eq!(srp.hash_vec_query(&bits(&[-2., 3.]), &dot), vec![-1, 1, -1]);
    assert_eq!(srp.hash_vec_query(&bits(&[-2., -3.]), &dot), vec![-1, -1, 1]);
    assert_eq!(srp.hash_vec_query(&bits(&[0., 0.]), &dot), vec![1, 1, 1]);
}

#[test]
fn projections_of_another_length_are_refused() {
    assert!(SignRandomProjections::new(vec![bits(&[1., 0.]), bits(&[1.])], 2).is_none());
    assert!(SignRandomProjections::new(vec![bits(&[1., 0.])], 3).is_none());
    assert!(SignRandomProjections::new(vec![], 3).is_some());
}

#[test]
fn same_hash_compares_components() {
    assert!(same_hash(&vec![1, -1], &vec![1, -1]));
    assert!(!same_hash(&vec![1, -1], &vec![1, 1]));
    assert!(!same_hash(&vec![1], &vec![1, 1]));
    assert!(same_hash(&vec![], &vec![]));
}

#[test]
fn index_refuses_a_bad_configuration() {
    assert!(LSH::new(vec![], 2, false, dot).is_none());
    assert!(LSH::new(vec![planes(&[&[1., 0.]])], 3, false, dot).is_none());
    let none = SignRandomProjections::new(vec![], 2).unwrap();
    assert!(LSH::new(vec![none], 2, false, dot).is_none());
    let bad = SignRandomProjections { hyperplanes: vec![bits(&[1.])], dim: 2 };
    assert!(LSH::new(vec![planes(&[&[1., 0.]]), bad], 2, false, dot).is_none());
    assert!(LSH::new(vec![planes(&[&[1., 0.]])], 2, false, dot).is_some());
}

fn two_tables() -> LSH<fn(&Vec<u32>, &Vec<u32>) -> u32> {
    LSH::new(
        vec![planes(&[&[1., 0.], &[0., 1.]]), planes(&[&[1., 1.], &[1., -1.]])],
        2,
        false,
        dot as fn(&Vec<u32>, &Vec<u32>) -> u32,
    )
    .unwrap()
}

#[test]
fn store_vec_gives_dense_ids_and_query_finds_them() {
    let mut lsh = two_tables();
    assert_eq!(lsh.dimension(), 2);
    assert_eq!(lsh.counter(), 0);
    let a = bits(&[1., 2.]);
    let b = bits(&[-1., 2.]);
    let c = bits(&[-3., -0.5]);
    assert_eq!(lsh.store_vec(&a), Ok(0));
    assert_eq!(lsh.store_vec(&b), Ok(1));
    assert_eq!(lsh.store_vec(&c), Ok(2));
    assert_eq!(lsh.counter(), 3);
    // every stored vector finds itself
    for (id, v) in [(0u32, &a), (1, &b), (2, &c)] {
        assert!(lsh.query_bucket_ids(v).unwrap().contains(&id));
    }
    // a: table 0 hash [1,1], table 1 hash [1,-1]; b: [-1,1] and [1,-1]
    assert_eq!(sorted(lsh.query_bucket_ids(&a).unwrap()), vec![0, 1]);
    assert_eq!(sorted(lsh.query_bucket_ids(&bits(&[2., 1.])).unwrap()), vec![0]);
    // c: [-1,-1] and [-1,-1]
    assert_eq!(sorted(lsh.query_bucket_ids(&c).unwrap()), vec![2]);
}

#[test]
fn query_without_bucket_is_empty() {
    let mut lsh = two_tables();
    assert_eq!(lsh.query_bucket_ids(&bits(&[1., 2.])), Ok(vec![]));
    assert_eq!(lsh.store_vec(&bits(&[1., 2.])), Ok(0));
    assert_eq!(lsh.query_bucket_ids(&bits(&[-1., -2.])), Ok(vec![]));
}

#[test]
fn query_lists_an_id_once() {
    let mut lsh = two_tables();
    let a = bits(&[1., 2.]);
    assert_eq!(lsh.store_vec(&a), Ok(0));
    assert_eq!(lsh.store_vec(&a), Ok(1));
    assert_eq!(sorted(lsh.query_bucket_ids(&a).unwrap()), vec![0, 1]);
}

#[test]
fn update_by_idx_moves_to_the_new_bucket() {
    let mut lsh = two_tables();
    let a = bits(&[1., 2.]);
    let b = bits(&[-1., 2.]);
    assert_eq!(lsh.store_vec(&a), Ok(0));
    assert_eq!(lsh.store_vec(&b), Ok(1));
    let a2 = bits(&[-1., -2.]);
    assert_eq!(lsh.update_by_idx(0, &a2, &a), Ok(()));
    assert_eq!(sorted(lsh.query_bucket_ids(&a2).unwrap()), vec![0]);
    assert_eq!(sorted(lsh.query_bucket_ids(&a).unwrap()), vec![1]);
    assert_eq!(sorted(lsh.query_bucket_ids(&bits(&[2., 1.])).unwrap()), vec![]);
    // same hashes in every table: nothing to move
    assert_eq!(lsh.update_by_idx(0, &bits(&[-2., -4.]), &a2), Ok(()));
    assert_eq!(sorted(lsh.query_bucket_ids(&a2).unwrap()), vec![0]);
    // not filed under the old vector
    assert_eq!(lsh.update_by_idx(0, &b, &a), Err(HashTableError::NotFound));
    assert_eq!(sorted(lsh.query_bucket_ids(&a2).unwrap()), vec![0]);
    assert_eq!(sorted(lsh.query_bucket_ids(&b).unwrap()), vec![1]);
    assert_eq!(lsh.counter(), 2);
}

#[test]
fn index_keeps_vectors_unless_told_otherwise() {
    let srp = || planes(&[&[1., 0.]]);
    let mut keeping = LSH::new(vec![srp(), srp()], 2, false, dot).unwrap();
    let mut lean = LSH::new(vec![srp(), srp()], 2, true, dot).unwrap();
    for v in [[1., 2.], [-1., 2.]] {
        keeping.store_vec(&bits(&v)).unwrap();
        lean.store_vec(&bits(&v)).unwrap();
    }
    assert_eq!(sorted(keeping.query_bucket_ids(&bits(&[3., 0.])).unwrap()), vec![0]);
    assert_eq!(sorted(lean.query_bucket_ids(&bits(&[-3., 0.])).unwrap()), vec![1]);
    assert_eq!(keeping.counter(), 2);
    assert_eq!(lean.counter(), 2);
}

#[test]
fn the_store_behind_the_index_can_be_queried() {
    let mut lsh = two_tables();
    let a = bits(&[1., 2.]);
    assert_eq!(lsh.store_vec(&a), Ok(0));
    // a: table 0 hash [1,1], table 1 hash [1,-1]
    let b0 = lsh.hash_tables().query_bucket(&vec![1, 1], 0).unwrap();
    assert!(b0.contains(&0) && b0.len() == 1);
    let b1 = lsh.hash_tables().query_bucket(&vec![1, -1], 1).unwrap();
    assert!(b1.contains(&0) && b1.len() == 1);
    assert_eq!(lsh.hash_tables().query_bucket(&vec![1, -1], 0), Err(HashTableError::NotFound));
    assert_eq!(lsh.hash_tables().idx_to_datapoint(0), Ok(&a));
    assert_eq!(lsh.hash_tables().next_id(), 1);
}
