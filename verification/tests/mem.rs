use lsh_rs::table::general::HashTableError;
use lsh_rs::table::mem::{increase_capacity, MemoryTable, VecStore};
use lsh_rs::{all_eq, scalar_equal};

fn bits(v: &[f32]) -> Vec<u32> {
    v.iter().map(|x| x.to_bits()).collect()
}

#[test]
fn scalar_equality_is_that_of_numbers() {
    let samples = [
        0.0f32,
        -0.0,
        1.0,
        -1.0,
        1.5,
        f32::MIN_POSITIVE,
        f32::MAX,
        f32::MIN,
        f32::INFINITY,
        f32::NEG_INFINITY,
        f32::NAN,
        -f32::NAN,
        f32::from_bits(0x7fc0_0001),
        f32::from_bits(0x7f80_0001),
        f32::from_bits(1),
        f32::from_bits(0x8000_0001),
    ];
    for a in samples {
        for b in samples {
            assert_eq!(scalar_equal(a.to_bits(), b.to_bits()), a == b, "{:?} {:?}", a, b);
        }
    }
}

#[test]
fn all_eq_compares_length_and_components() {
    assert!(all_eq(&bits(&[1., 2.]), &bits(&[1., 2.])));
    assert!(all_eq(&bits(&[0., 2.]), &bits(&[-0., 2.])));
    assert!(!all_eq(&bits(&[1., 2.]), &bits(&[1., 2.5])));
    assert!(!all_eq(&bits(&[1., 2.]), &bits(&[1.])));
    assert!(!all_eq(&bits(&[1., f32::NAN]), &bits(&[1., f32::NAN])));
    assert!(all_eq(&[], &[]));
}

#[test]
fn vec_store_push_position_get() {
    let mut store = VecStore { map: vec![] };
    assert_eq!(store.push(bits(&[1., 2.])), 0);
    assert_eq!(store.push(bits(&[3., 4.])), 1);
    assert_eq!(store.push(bits(&[1., 2.])), 2);
    assert_eq!(store.position(&bits(&[3., 4.])), Some(1));
    assert_eq!(store.position(&bits(&[1., 2.])), Some(0));
    assert_eq!(store.position(&bits(&[9., 9.])), None);
    assert_eq!(store.get(1), &bits(&[3., 4.]));
    store.increase_storage(100);
    assert!(store.map.capacity() >= 100);
    assert_eq!(store.map.len(), 3);
    assert_eq!(store.get(2), &bits(&[1., 2.]));
}

#[test]
fn increase_capacity_keeps_contents() {
    let mut v = vec![1u8, 2, 3];
    increase_capacity(64, &mut v);
    assert_eq!(v, vec![1, 2, 3]);
    assert!(v.capacity() >= 64);
    increase_capacity(2, &mut v);
    assert_eq!(v, vec![1, 2, 3]);
}

#[test]
fn memory_table_put_shares_the_id_across_tables() {
    let mut table = MemoryTable::new(3, false);
    let v = bits(&[1., 2.]);
    assert_eq!(table.put(vec![1, -1], &v, 0), Ok(0));
    assert_eq!(table.put(vec![-1, -1], &v, 1), Ok(0));
    assert_eq!(table.next_id(), 0);
    assert_eq!(table.put(vec![1, 1], &v, 2), Ok(0));
    assert_eq!(table.next_id(), 1);
    let u = bits(&[5., 6.]);
    assert_eq!(table.put(vec![1, -1], &u, 0), Ok(1));
    assert_eq!(table.put(vec![1, -1], &u, 1), Ok(1));
    assert_eq!(table.put(vec![1, -1], &u, 2), Ok(1));
    assert_eq!(table.next_id(), 2);
    // the vectors are kept once, when table 0 is filled
    assert_eq!(table.vec_store.map, vec![v.clone(), u.clone()]);
    assert_eq!(table.idx_to_datapoint(1), Ok(&u));
    assert_eq!(table.idx_to_datapoint(2), Err(HashTableError::NotFound));
    let b = table.query_bucket(&vec![1, -1], 0).unwrap();
    assert_eq!(b.len(), 2);
    assert!(b.contains(&0) && b.contains(&1));
    let b = table.query_bucket(&vec![-1, -1], 1).unwrap();
    assert_eq!(b.len(), 1);
    assert!(b.contains(&0));
    assert_eq!(table.query_bucket(&vec![-1, -1], 0), Err(HashTableError::NotFound));
    assert_eq!(table.n_hash_tables(), 3);
}

#[test]
fn memory_table_with_one_table_counts_every_put() {
    let mut table = MemoryTable::new(1, false);
    let v = bits(&[1.]);
    assert_eq!(table.put(vec![1], &v, 0), Ok(0));
    assert_eq!(table.put(vec![1], &v, 0), Ok(1));
    assert_eq!(table.put(vec![-1], &v, 0), Ok(2));
    assert_eq!(table.vec_store.map.len(), 3);
}

#[test]
fn memory_table_only_index_keeps_no_vectors() {
    let mut table = MemoryTable::new(2, true);
    let v = bits(&[1.]);
    assert_eq!(table.put(vec![1], &v, 0), Ok(0));
    assert_eq!(table.put(vec![1], &v, 1), Ok(0));
    assert!(table.vec_store.map.is_empty());
    assert_eq!(table.next_id(), 1);
    assert_eq!(table.idx_to_datapoint(0), Err(HashTableError::NotFound));
}

#[test]
fn memory_table_delete() {
    let mut table = MemoryTable::new(1, false);
    let v = bits(&[1., 2.]);
    let u = bits(&[3., 4.]);
    assert_eq!(table.put(vec![1, 1], &v, 0), Ok(0));
    assert_eq!(table.put(vec![1, 1], &u, 0), Ok(1));
    // a vector that was never stored: nothing to do
    assert_eq!(table.delete(vec![1, 1], &bits(&[9., 9.]), 0), Ok(()));
    assert_eq!(table.query_bucket(&vec![1, 1], 0).unwrap().len(), 2);
    // a stored vector under a hash without bucket
    assert_eq!(table.delete(vec![7, 7], &v, 0), Err(HashTableError::NotFound));
    assert_eq!(table.delete(vec![1, 1], &u, 0), Ok(()));
    let b = table.query_bucket(&vec![1, 1], 0).unwrap();
    assert!(b.contains(&0) && !b.contains(&1));
    // the vector stays, so that the identifiers of the others stay
    assert_eq!(table.vec_store.map.len(), 2);
    assert_eq!(table.delete(vec![1, 1], &v, 0), Ok(()));
    // the bucket stays, empty
    assert!(table.query_bucket(&vec![1, 1], 0).unwrap().is_empty());
}

#[test]
fn memory_table_update_by_idx_moves_an_id() {
    let mut table = MemoryTable::new(1, true);
    let v = bits(&[1.]);
    assert_eq!(table.put(vec![1, 1], &v, 0), Ok(0));
    assert_eq!(table.put(vec![1, 1], &v, 0), Ok(1));
    assert_eq!(table.update_by_idx(&vec![1, 1], vec![-1, 1], 1, 0), Ok(()));
    let old = table.query_bucket(&vec![1, 1], 0).unwrap();
    assert!(old.contains(&0) && !old.contains(&1));
    let new = table.query_bucket(&vec![-1, 1], 0).unwrap();
    assert!(new.contains(&1) && new.len() == 1);
    // not filed there: nothing moves
    assert_eq!(
        table.update_by_idx(&vec![1, 1], vec![5, 5], 1, 0),
        Err(HashTableError::NotFound)
    );
    assert_eq!(table.query_bucket(&vec![5, 5], 0), Err(HashTableError::NotFound));
    assert_eq!(
        table.update_by_idx(&vec![8, 8], vec![5, 5], 0, 0),
        Err(HashTableError::NotFound)
    );
    let old = table.query_bucket(&vec![1, 1], 0).unwrap();
    assert!(old.contains(&0) && old.len() == 1);
}

#[test]
fn memory_table_increase_storage_keeps_contents() {
    let mut table = MemoryTable::new(2, false);
    let v = bits(&[1.]);
    assert_eq!(table.put(vec![1], &v, 0), Ok(0));
    assert_eq!(table.put(vec![1], &v, 1), Ok(0));
    table.increase_storage(50);
    assert!(table.query_bucket(&vec![1], 0).unwrap().contains(&0));
    assert!(table.query_bucket(&vec![1], 1).unwrap().contains(&0));
    assert_eq!(table.idx_to_datapoint(0), Ok(&v));
    assert_eq!(table.next_id(), 1);
}

#[test]
fn describe_counts_buckets_and_hash_values() {
    let mut table = MemoryTable::new(2, true);
    let d = table.describe();
    assert!(d.lengths.is_empty());
    assert_eq!((d.max_len, d.min_len), (0, 1000000));
    assert!(d.hash_values.is_empty());
    let v = bits(&[1.]);
    for (hash0, hash1) in [([1, -1], [1, 1]), ([1, -1], [-1, 1]), ([1, -1], [1, 1]), ([4, -1], [1, 1])] {
        table.put(hash0.to_vec(), &v, 0).unwrap();
        table.put(hash1.to_vec(), &v, 1).unwrap();
    }
    let d = table.describe();
    let mut lengths = d.lengths.clone();
    lengths.sort();
    // table 0: [1,-1] holds 3, [4,-1] holds 1; table 1: [1,1] holds 3, [-1,1] holds 1
    assert_eq!(lengths, vec![1, 1, 3, 3]);
    assert_eq!((d.max_len, d.min_len), (3, 1));
    let mut values: Vec<i32> = d.hash_values.iter().copied().collect();
    values.sort();
    assert_eq!(values, vec![-1, 1, 4]);
    assert!(format!("{:?}", table).contains("hash_tables"));
}
