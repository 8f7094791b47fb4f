//! The bucket store that lives in memory.
use crate::all_eq;
use crate::all_eq_spec;
use crate::table::general::advance;
use crate::table::general::next_id_after;
use crate::table::general::Bucket;
use crate::DataPoint;
use crate::DataPointSlice;
use crate::table::general::bucket_clone;
use crate::table::general::bucket_insert;
use crate::table::general::bucket_new;
use crate::table::general::bucket_remove;
use crate::table::general::table_buckets;
use crate::table::general::table_get;
use crate::table::general::table_new;
use crate::table::general::table_put;
use crate::table::general::table_sizes;
use crate::table::general::table_take;
use crate::table::general::HashTableError;
use fnv::FnvHashMap;
use fnv::FnvHashSet;
use vstd::prelude::*;
use vstd::slice::slice_to_vec;

verus! {

/// Indexable storage of the vectors that were filed. The tables hold
/// positions in it; the vectors themselves are looked up here.
#[derive(Debug)]
pub struct VecStore {
    pub map: Vec<DataPoint>,
}

/// Makes room in `container` for `size` items in all. What it holds stays.
pub fn increase_capacity<T>(size: usize, container: &mut Vec<T>)
    ensures
        final(container)@ == old(container)@,
{
    let have: usize = container.len();
    if have < size {
        container.reserve(size - have);
    }
}

/// Whether some of `vectors` equals `d` as numbers.
pub open spec fn holds(vectors: Seq<Seq<u32>>, d: Seq<u32>) -> bool {
    exists|i: int| 0 <= i < vectors.len() && all_eq_spec(#[trigger] vectors[i], d)
}

/// Whether `i` is the first position in `vectors` whose vector equals `d`
/// as numbers.
pub open spec fn is_first_match(vectors: Seq<Seq<u32>>, d: Seq<u32>, i: int) -> bool {
    &&& 0 <= i < vectors.len()
    &&& all_eq_spec(vectors[i], d)
    &&& forall|j: int| 0 <= j < i ==> !all_eq_spec(#[trigger] vectors[j], d)
}

/// The first position in `vectors` whose vector equals `d` as numbers.
pub open spec fn first_match(vectors: Seq<Seq<u32>>, d: Seq<u32>) -> int {
    choose|i: int| is_first_match(vectors, d, i)
}

impl VecStore {
    /// The stored vectors, each as the sequence of its components.
    pub open spec fn view(&self) -> Seq<Seq<u32>> {
        Seq::new(self.map@.len(), |i: int| self.map@[i]@)
    }

    /// Appends `d` and returns its position.
    pub fn push(&mut self, d: DataPoint) -> (idx: u32)
        requires
            old(self).map@.len() <= u32::MAX,
        ensures
            idx == old(self).map@.len(),
            final(self).map@ == old(self).map@.push(d),
            final(self)@ == old(self)@.push(d@),
    {
        self.map.push(d);
        assert(self@ =~= old(self)@.push(d@));
        (self.map.len() - 1) as u32
    }

    /// The position of the first stored vector that equals `d` as numbers.
    pub fn position(&self, d: &DataPointSlice) -> (r: Option<u32>)
        requires
            self.map@.len() <= u32::MAX,
        ensures
            match r {
                Some(i) => is_first_match(self@, d@, i as int) && i == first_match(self@, d@),
                None => !holds(self@, d@),
            },
    {
        let mut i: usize = 0;
        while i < self.map.len()
            invariant
                i <= self.map@.len() <= u32::MAX,
                forall|j: int| 0 <= j < i ==> !all_eq_spec(#[trigger] self@[j], d@),
            decreases self.map@.len() - i,
        {
            if all_eq(self.map[i].as_slice(), d) {
                assert(is_first_match(self@, d@, i as int));
                return Some(i as u32);
            }
            i += 1;
        }
        None
    }

    /// The vector at position `idx`.
    pub fn get(&self, idx: u32) -> (d: &DataPoint)
        requires
            idx < self.map@.len(),
        ensures
            *d == self.map@[idx as int],
            d@ == self@[idx as int],
    {
        &self.map[idx as usize]
    }

    /// Makes room for `size` vectors in all. What is stored stays.
    pub fn increase_storage(&mut self, size: usize)
        ensures
            final(self).map@ == old(self).map@,
    {
        increase_capacity(size, &mut self.map);
    }
}

/// The bucket that `table` files under `hash`: empty where it files none.
pub open spec fn bucket_of(table: Map<Seq<i32>, Set<u32>>, hash: Seq<i32>) -> Set<u32> {
    if table.contains_key(hash) {
        table[hash]
    } else {
        Set::empty()
    }
}

/// `table` after `id` was filed under `hash`.
pub open spec fn with_id(table: Map<Seq<i32>, Set<u32>>, hash: Seq<i32>, id: u32) -> Map<
    Seq<i32>,
    Set<u32>,
> {
    table.insert(hash, bucket_of(table, hash).insert(id))
}

/// `table` after `id` was taken out of the bucket under `hash`. The bucket
/// stays, even empty.
pub open spec fn without_id(table: Map<Seq<i32>, Set<u32>>, hash: Seq<i32>, id: u32) -> Map<
    Seq<i32>,
    Set<u32>,
> {
    table.insert(hash, table[hash].remove(id))
}

/// Whether `table` files `id` under `hash`.
pub open spec fn in_bucket(table: Map<Seq<i32>, Set<u32>>, hash: Seq<i32>, id: u32) -> bool {
    table.contains_key(hash) && table[hash].contains(id)
}

/// `table` after `id` was moved from the bucket under `from` to the one
/// under `to`. Nothing moves where the two are one bucket, or where `id` is
/// not filed under `from`.
pub open spec fn moved(table: Map<Seq<i32>, Set<u32>>, from: Seq<i32>, to: Seq<i32>, id: u32) -> Map<
    Seq<i32>,
    Set<u32>,
> {
    if from != to && in_bucket(table, from, id) {
        with_id(without_id(table, from, id), to, id)
    } else {
        table
    }
}

/// The least bucket length that a description starts from.
pub const MIN_LEN_START: usize = 1000000;

/// What a store holds, in numbers.
#[derive(Debug)]
pub struct Description {
    /// The length of every bucket of every table.
    pub lengths: Vec<usize>,
    /// The greatest of the lengths; zero where there is no bucket.
    pub max_len: usize,
    /// The least of the lengths and of 1000000.
    pub min_len: usize,
    /// Every value that a component of a hash with a bucket takes.
    pub hash_values: FnvHashSet<i32>,
}

/// Whether `keys` names every bucket of every table once, by its table and
/// its hash, and `lengths` holds the length of each bucket that `keys`
/// names, in the same order.
pub open spec fn lists_buckets(
    tables: Seq<Map<Seq<i32>, Set<u32>>>,
    keys: Seq<(int, Seq<i32>)>,
    lengths: Seq<usize>,
) -> bool {
    &&& keys.len() == lengths.len()
    &&& keys.no_duplicates()
    &&& forall|i: int|
        0 <= i < keys.len() ==> 0 <= (#[trigger] keys[i]).0 < tables.len()
            && tables[keys[i].0].contains_key(keys[i].1) && lengths[i]
            == tables[keys[i].0][keys[i].1].len()
    &&& forall|t: int, h: Seq<i32>|
        0 <= t < tables.len() && #[trigger] tables[t].contains_key(h) ==> keys.contains((t, h))
}

/// Whether some hash with a bucket has a component `v`.
pub open spec fn is_hash_value(tables: Seq<Map<Seq<i32>, Set<u32>>>, v: i32) -> bool {
    exists|t: int, h: Seq<i32>|
        0 <= t < tables.len() && #[trigger] tables[t].contains_key(h) && h.contains(v)
}

/// Whether `d` describes `tables`: it holds the length of every bucket, in
/// some order; the greatest of them, or zero; the least of them and of
/// 1000000; and every value of a component of a hash.
pub open spec fn describes(tables: Seq<Map<Seq<i32>, Set<u32>>>, d: Description) -> bool {
    &&& exists|keys: Seq<(int, Seq<i32>)>| lists_buckets(tables, keys, d.lengths@)
    &&& forall|i: int| 0 <= i < d.lengths@.len() ==> d.min_len <= (#[trigger] d.lengths@[i]) <= d.max_len
    &&& d.max_len == 0 || d.lengths@.contains(d.max_len)
    &&& d.min_len == MIN_LEN_START || d.lengths@.contains(d.min_len)
    &&& d.min_len <= MIN_LEN_START
    &&& forall|v: i32| d.hash_values@.contains(v) <==> is_hash_value(tables, v)
}

/// Storage in memory of hashed vectors, or of their identifiers alone.
#[derive(Debug)]
pub struct MemoryTable {
    hash_tables: Vec<FnvHashMap<Vec<i32>, FnvHashSet<u32>>>,
    n_hash_tables: usize,
    pub vec_store: VecStore,
    only_index_storage: bool,
    counter: u32,
}

impl MemoryTable {
    /// The tables, each as the map from a hash to its bucket.
    pub closed spec fn tables(&self) -> Seq<Map<Seq<i32>, Set<u32>>> {
        Seq::new(self.hash_tables@.len(), |t: int| table_buckets(self.hash_tables@[t]))
    }

    /// The identifier that the next vector gets.
    pub closed spec fn counter(&self) -> u32 {
        self.counter
    }

    /// The vectors that are kept, in the order in which they came.
    pub closed spec fn vectors(&self) -> Seq<Seq<u32>> {
        self.vec_store@
    }

    /// Whether only identifiers are kept, and no vectors.
    pub closed spec fn only_index(&self) -> bool {
        self.only_index_storage
    }

    /// The number of tables is the one that the store was made with.
    pub closed spec fn wf(&self) -> bool {
        self.hash_tables@.len() == self.n_hash_tables
    }

    /// The identifier that the next vector gets.
    pub fn next_id(&self) -> (c: u32)
        ensures
            c == self.counter(),
    {
        self.counter
    }

    /// The number of tables.
    pub fn n_hash_tables(&self) -> (n: usize)
        requires
            self.wf(),
        ensures
            n == self.tables().len(),
    {
        self.n_hash_tables
    }

    /// A store with `n_hash_tables` empty tables.
    pub fn new(n_hash_tables: usize, only_index_storage: bool) -> (r: Self)
        ensures
            r.wf(),
            r.tables().len() == n_hash_tables,
            forall|t: int| 0 <= t < n_hash_tables ==> #[trigger] r.tables()[t] == Map::<
                Seq<i32>,
                Set<u32>,
            >::empty(),
            r.counter() == 0,
            r.only_index() == only_index_storage,
            r.vectors().len() == 0,
    {
        let mut hash_tables: Vec<FnvHashMap<Vec<i32>, FnvHashSet<u32>>> = Vec::new();
        let mut t: usize = 0;
        while t < n_hash_tables
            invariant
                t <= n_hash_tables,
                hash_tables@.len() == t,
                forall|j: int|
                    0 <= j < t ==> table_buckets(#[trigger] hash_tables@[j]) =~= Map::<
                        Seq<i32>,
                        Set<u32>,
                    >::empty(),
            decreases n_hash_tables - t,
        {
            let table = table_new();
            assert(table_buckets(table) =~= Map::<Seq<i32>, Set<u32>>::empty());
            hash_tables.push(table);
            t += 1;
        }
        let vector_store = VecStore { map: Vec::new() };
        MemoryTable {
            hash_tables,
            n_hash_tables,
            vec_store: vector_store,
            only_index_storage,
            counter: 0,
        }
    }

    /// Files the current identifier under `hash` in table `hash_table` and
    /// returns it. The vector is kept when table 0 is filled, unless the
    /// store keeps identifiers only. The identifier advances when the last
    /// table is filled, so that one vector has one identifier in all tables;
    /// after the last identifier they start again from zero.
    pub fn put(&mut self, hash: crate::hash::Hash, d: &DataPointSlice, hash_table: usize) -> (r: Result<
        u32,
        HashTableError,
    >)
        requires
            old(self).wf(),
            hash_table < old(self).tables().len(),
        ensures
            final(self).wf(),
            r == Ok::<u32, HashTableError>(old(self).counter()),
            final(self).tables() == old(self).tables().update(
                hash_table as int,
                with_id(old(self).tables()[hash_table as int], hash@, old(self).counter()),
            ),
            final(self).counter() == if hash_table == old(self).tables().len() - 1 {
                next_id_after(old(self).counter())
            } else {
                old(self).counter()
            },
            final(self).only_index() == old(self).only_index(),
            final(self).vectors() == if hash_table == 0 && !old(self).only_index() {
                old(self).vectors().push(d@)
            } else {
                old(self).vectors()
            },
    {
        let idx: u32 = self.counter;
        let ghost before = table_buckets(self.hash_tables@[hash_table as int]);
        let tbl = &mut self.hash_tables[hash_table];
        let mut bucket = match table_take(tbl, &hash) {
            Some(bucket) => bucket,
            None => bucket_new(),
        };
        bucket_insert(&mut bucket, idx);
        table_put(tbl, hash, bucket);
        assert(table_buckets(self.hash_tables@[hash_table as int]) =~= with_id(
            before,
            hash@,
            idx,
        ));
        if hash_table == 0 && !self.only_index_storage {
            self.vec_store.map.push(slice_to_vec(d));
        }
        if hash_table == self.n_hash_tables - 1 {
            self.counter = advance(self.counter);
        }
        assert(self.tables() =~= old(self).tables().update(
            hash_table as int,
            with_id(old(self).tables()[hash_table as int], hash@, old(self).counter()),
        ));
        assert(self.vec_store@ =~= if hash_table == 0 && !old(self).only_index() {
            old(self).vec_store@.push(d@)
        } else {
            old(self).vec_store@
        });
        Ok(idx)
    }

    /// Takes the identifier of `d` out of the bucket under `hash` in table
    /// `hash_table`. The identifier is the position of the first kept vector
    /// that equals `d`; with no such vector nothing changes. The vector
    /// itself stays, so that the identifiers of the others stay too.
    pub fn delete(&mut self, hash: crate::hash::Hash, d: &DataPointSlice, hash_table: usize) -> (r: Result<
        (),
        HashTableError,
    >)
        requires
            old(self).wf(),
            hash_table < old(self).tables().len(),
            old(self).vectors().len() <= u32::MAX,
        ensures
            final(self).wf(),
            final(self).counter() == old(self).counter(),
            final(self).only_index() == old(self).only_index(),
            final(self).vectors() == old(self).vectors(),
            r == if holds(old(self).vectors(), d@) && !old(self).tables()[hash_table as int].contains_key(
                hash@,
            ) {
                Err::<(), HashTableError>(HashTableError::NotFound)
            } else {
                Ok::<(), HashTableError>(())
            },
            final(self).tables() == if holds(old(self).vectors(), d@) && old(
                self,
            ).tables()[hash_table as int].contains_key(hash@) {
                old(self).tables().update(
                    hash_table as int,
                    without_id(
                        old(self).tables()[hash_table as int],
                        hash@,
                        first_match(old(self).vectors(), d@) as u32,
                    ),
                )
            } else {
                old(self).tables()
            },
    {
        let idx: u32 = match self.vec_store.position(d) {
            None => {
                return Ok(());
            },
            Some(idx) => idx,
        };
        assert(holds(self.vectors(), d@));
        self.remove_id(&hash, idx, hash_table)
    }

    /// Takes `idx` out of the bucket under `hash` in table `hash_table`.
    fn remove_id(&mut self, hash: &Vec<i32>, idx: u32, hash_table: usize) -> (r: Result<
        (),
        HashTableError,
    >)
        requires
            old(self).wf(),
            hash_table < old(self).tables().len(),
        ensures
            final(self).wf(),
            final(self).counter() == old(self).counter(),
            final(self).only_index() == old(self).only_index(),
            final(self).vectors() == old(self).vectors(),
            r == if old(self).tables()[hash_table as int].contains_key(hash@) {
                Ok::<(), HashTableError>(())
            } else {
                Err::<(), HashTableError>(HashTableError::NotFound)
            },
            final(self).tables() == if old(self).tables()[hash_table as int].contains_key(hash@) {
                old(self).tables().update(
                    hash_table as int,
                    without_id(old(self).tables()[hash_table as int], hash@, idx),
                )
            } else {
                old(self).tables()
            },
    {
        let ghost before = table_buckets(self.hash_tables@[hash_table as int]);
        let tbl = &mut self.hash_tables[hash_table];
        match table_take(tbl, hash) {
            None => {
                assert(table_buckets(self.hash_tables@[hash_table as int]) =~= before);
                assert(self.tables() =~= old(self).tables());
                Err(HashTableError::NotFound)
            },
            Some(bucket) => {
                let mut bucket = bucket;
                bucket_remove(&mut bucket, idx);
                table_put(tbl, hash.clone(), bucket);
                assert(table_buckets(self.hash_tables@[hash_table as int]) =~= without_id(
                    before,
                    hash@,
                    idx,
                ));
                assert(self.tables() =~= old(self).tables().update(
                    hash_table as int,
                    without_id(old(self).tables()[hash_table as int], hash@, idx),
                ));
                Ok(())
            },
        }
    }

    /// Moves `idx` in table `hash_table` from the bucket under `old_hash` to
    /// the one under `new_hash`. Where `idx` is not filed under `old_hash`
    /// nothing changes, and the answer is `NotFound`.
    pub fn update_by_idx(
        &mut self,
        old_hash: &Vec<i32>,
        new_hash: Vec<i32>,
        idx: u32,
        hash_table: usize,
    ) -> (r: Result<(), HashTableError>)
        requires
            old(self).wf(),
            hash_table < old(self).tables().len(),
            old_hash@ != new_hash@,
        ensures
            final(self).wf(),
            final(self).counter() == old(self).counter(),
            final(self).only_index() == old(self).only_index(),
            final(self).vectors() == old(self).vectors(),
            r == if in_bucket(old(self).tables()[hash_table as int], old_hash@, idx) {
                Ok::<(), HashTableError>(())
            } else {
                Err::<(), HashTableError>(HashTableError::NotFound)
            },
            final(self).tables() == old(self).tables().update(
                hash_table as int,
                moved(old(self).tables()[hash_table as int], old_hash@, new_hash@, idx),
            ),
    {
        let ghost before = table_buckets(self.hash_tables@[hash_table as int]);
        let tbl = &mut self.hash_tables[hash_table];
        let found: bool = match table_take(tbl, old_hash) {
            None => false,
            Some(bucket) => {
                let mut bucket = bucket;
                let found = bucket_remove(&mut bucket, idx);
                assert(!found ==> bucket@ =~= before[old_hash@]);
                table_put(tbl, old_hash.clone(), bucket);
                found
            },
        };
        assert(found == in_bucket(before, old_hash@, idx));
        assert(table_buckets(*tbl) =~= if found {
            without_id(before, old_hash@, idx)
        } else {
            before
        });
        if found {
            let mut bucket = match table_take(tbl, &new_hash) {
                Some(bucket) => bucket,
                None => bucket_new(),
            };
            bucket_insert(&mut bucket, idx);
            table_put(tbl, new_hash, bucket);
        }
        assert(table_buckets(self.hash_tables@[hash_table as int]) =~= moved(
            before,
            old_hash@,
            new_hash@,
            idx,
        ));
        assert(self.tables() =~= old(self).tables().update(
            hash_table as int,
            moved(old(self).tables()[hash_table as int], old_hash@, new_hash@, idx),
        ));
        if found {
            Ok(())
        } else {
            Err(HashTableError::NotFound)
        }
    }

    /// The whole bucket under `hash` in table `hash_table`.
    pub fn query_bucket(&self, hash: &crate::hash::Hash, hash_table: usize) -> (r: Result<
        Bucket,
        HashTableError,
    >)
        requires
            self.wf(),
            hash_table < self.tables().len(),
        ensures
            match r {
                Ok(bucket) => self.tables()[hash_table as int].contains_key(hash@) && bucket@
                    == self.tables()[hash_table as int][hash@],
                Err(e) => e == HashTableError::NotFound && !self.tables()[hash_table as int].contains_key(
                    hash@,
                ),
            },
    {
        let tbl = &self.hash_tables[hash_table];
        match table_get(tbl, hash) {
            None => Err(HashTableError::NotFound),
            Some(bucket) => Ok(bucket_clone(bucket)),
        }
    }

    /// The vector that was filed with identifier `idx`, where the store
    /// keeps one for it.
    pub fn idx_to_datapoint(&self, idx: u32) -> (r: Result<&DataPoint, HashTableError>)
        ensures
            match r {
                Ok(d) => idx < self.vectors().len() && d@ == self.vectors()[idx as int],
                Err(e) => idx >= self.vectors().len() && e == HashTableError::NotFound,
            },
    {
        if (idx as usize) < self.vec_store.map.len() {
            Ok(self.vec_store.get(idx))
        } else {
            Err(HashTableError::NotFound)
        }
    }

    /// Makes room for `size` tables and `size` vectors in all. What is
    /// stored stays.
    pub fn increase_storage(&mut self, size: usize)
        ensures
            final(self).wf() == old(self).wf(),
            final(self).tables() == old(self).tables(),
            final(self).counter() == old(self).counter(),
            final(self).only_index() == old(self).only_index(),
            final(self).vectors() == old(self).vectors(),
    {
        increase_capacity(size, &mut self.hash_tables);
        self.vec_store.increase_storage(size);
        assert(self.vectors() =~= old(self).vectors());
    }

    /// The lengths of all buckets, the greatest and the least of them, and
    /// the values that the components of the hashes take.
    pub fn describe(&self) -> (d: Description)
        requires
            self.wf(),
        ensures
            describes(self.tables(), d),
    {
        let mut lengths: Vec<usize> = Vec::new();
        let mut max_len: usize = 0;
        let mut min_len: usize = MIN_LEN_START;
        let mut hash_values: FnvHashSet<i32> = bucket_new();
        let ghost tables = self.tables();
        let ghost mut keys: Seq<(int, Seq<i32>)> = Seq::empty();
        let mut t: usize = 0;
        while t < self.hash_tables.len()
            invariant
                self.wf(),
                tables == self.tables(),
                t <= self.hash_tables@.len(),
                keys.len() == lengths@.len(),
                keys.no_duplicates(),
                forall|i: int|
                    0 <= i < keys.len() ==> 0 <= (#[trigger] keys[i]).0 < t
                        && tables[keys[i].0].contains_key(keys[i].1) && lengths@[i]
                        == tables[keys[i].0][keys[i].1].len(),
                forall|t2: int, h: Seq<i32>|
                    0 <= t2 < t && #[trigger] tables[t2].contains_key(h) ==> keys.contains((t2, h)),
                forall|i: int| 0 <= i < lengths@.len() ==> min_len <= (#[trigger] lengths@[i]) <= max_len,
                max_len == 0 || lengths@.contains(max_len),
                min_len == MIN_LEN_START || lengths@.contains(min_len),
                min_len <= MIN_LEN_START,
                forall|v: i32| hash_values@.contains(v) ==> is_hash_value(tables, v),
                forall|t2: int, h: Seq<i32>, v: i32|
                    0 <= t2 < t && #[trigger] tables[t2].contains_key(h) && #[trigger] h.contains(v)
                        ==> hash_values@.contains(v),
            decreases self.hash_tables@.len() - t,
        {
            let entries = table_sizes(&self.hash_tables[t]);
            let mut e: usize = 0;
            while e < entries.len()
                invariant
                    self.wf(),
                    tables == self.tables(),
                    t < self.hash_tables@.len(),
                    e <= entries@.len(),
                    forall|i: int|
                        0 <= i < entries@.len() ==> tables[t as int].contains_key(
                            (#[trigger] entries@[i]).0@,
                        ) && entries@[i].1 == tables[t as int][entries@[i].0@].len(),
                    forall|i: int, j: int|
                        0 <= i < j < entries@.len() ==> (#[trigger] entries@[i]).0@
                            != (#[trigger] entries@[j]).0@,
                    keys.len() == lengths@.len(),
                    keys.no_duplicates(),
                    forall|i: int|
                        0 <= i < keys.len() ==> 0 <= (#[trigger] keys[i]).0 <= t
                            && tables[keys[i].0].contains_key(keys[i].1) && lengths@[i]
                            == tables[keys[i].0][keys[i].1].len(),
                    forall|i: int|
                        0 <= i < keys.len() && (#[trigger] keys[i]).0 == t ==> exists|q: int|
                            0 <= q < e && (#[trigger] entries@[q]).0@ == keys[i].1,
                    forall|t2: int, h: Seq<i32>|
                        0 <= t2 < t && #[trigger] tables[t2].contains_key(h) ==> keys.contains(
                            (t2, h),
                        ),
                    forall|q: int|
                        0 <= q < e ==> keys.contains((t as int, (#[trigger] entries@[q]).0@)),
                    forall|i: int| 0 <= i < lengths@.len() ==> min_len <= (#[trigger] lengths@[i]) <= max_len,
                    max_len == 0 || lengths@.contains(max_len),
                    min_len == MIN_LEN_START || lengths@.contains(min_len),
                    min_len <= MIN_LEN_START,
                        forall|v: i32| hash_values@.contains(v) ==> is_hash_value(tables, v),
                    forall|t2: int, h: Seq<i32>, v: i32|
                        0 <= t2 < t && #[trigger] tables[t2].contains_key(h) && #[trigger] h.contains(
                            v,
                        ) ==> hash_values@.contains(v),
                    forall|i: int, v: i32|
                        0 <= i < e && #[trigger] entries@[i].0@.contains(v) ==> hash_values@.contains(
                            v,
                        ),
                decreases entries@.len() - e,
            {
                let len: usize = entries[e].1;
                let ghost lengths_before = lengths@;
                let ghost keys_before = keys;
                lengths.push(len);
                proof {
                    let key = (t as int, entries@[e as int].0@);
                    keys = keys.push(key);
                    assert(lengths@[lengths_before.len() as int] == len);
                    assert forall|x: usize| lengths_before.contains(x) implies lengths@.contains(
                        x,
                    ) by {
                        let i = choose|i: int| 0 <= i < lengths_before.len() && lengths_before[i] == x;
                        assert(lengths@[i] == x);
                    }
                    assert(tables[t as int].contains_key(entries@[e as int].0@));
                    assert(keys.no_duplicates()) by {
                        assert forall|i: int| 0 <= i < keys_before.len() implies keys_before[i]
                            != key by {
                            if keys_before[i].0 == t {
                                let q = choose|q: int|
                                    0 <= q < e && (#[trigger] entries@[q]).0@ == keys_before[i].1;
                                assert(entries@[q].0@ != entries@[e as int].0@);
                            }
                        }
                    }
                    assert forall|i: int|
                        0 <= i < keys.len() && (#[trigger] keys[i]).0 == t implies exists|q: int|
                        0 <= q < e + 1 && (#[trigger] entries@[q]).0@ == keys[i].1 by {
                        if i < keys_before.len() {
                            assert(keys_before[i] == keys[i]);
                            let q = choose|q: int|
                                0 <= q < e && (#[trigger] entries@[q]).0@ == keys_before[i].1;
                            assert(0 <= q < e + 1 && entries@[q].0@ == keys[i].1);
                        } else {
                            assert(entries@[e as int].0@ == keys[i].1);
                        }
                    }
                    assert forall|k: (int, Seq<i32>)| keys_before.contains(k) implies keys.contains(
                        k,
                    ) by {
                        let i = choose|i: int| 0 <= i < keys_before.len() && keys_before[i] == k;
                        assert(keys[i] == k);
                    }
                    assert(keys[keys_before.len() as int] == key);
                    assert forall|q: int| 0 <= q < e + 1 implies keys.contains(
                        (t as int, (#[trigger] entries@[q]).0@),
                    ) by {
                        if q < e {
                            assert(keys_before.contains((t as int, entries@[q].0@)));
                        }
                    }
                }
                if len > max_len {
                    max_len = len;
                }
                if len < min_len {
                    min_len = len;
                }
                let key = &entries[e].0;
                let mut k: usize = 0;
                while k < key.len()
                    invariant
                        tables == self.tables(),
                        t < tables.len(),
                        e < entries@.len(),
                        key == &entries@[e as int].0,
                        tables[t as int].contains_key(key@),
                        k <= key@.len(),
                                forall|v: i32| hash_values@.contains(v) ==> is_hash_value(tables, v),
                        forall|t2: int, h: Seq<i32>, v: i32|
                            0 <= t2 < t && #[trigger] tables[t2].contains_key(h)
                                && #[trigger] h.contains(v) ==> hash_values@.contains(v),
                        forall|i: int, v: i32|
                            0 <= i < e && #[trigger] entries@[i].0@.contains(v)
                                ==> hash_values@.contains(v),
                        forall|q: int| 0 <= q < k ==> hash_values@.contains(#[trigger] key@[q]),
                    decreases key@.len() - k,
                {
                    let v: i32 = key[k];
                    bucket_insert(&mut hash_values, v);
                    proof {
                        assert(key@.contains(v));
                        assert(is_hash_value(tables, v));
                    }
                    k += 1;
                }
                proof {
                    assert forall|i: int, v: i32|
                        0 <= i < e + 1 && #[trigger] entries@[i].0@.contains(
                            v,
                        ) implies hash_values@.contains(v) by {
                        if i == e {
                            let q = choose|q: int| 0 <= q < key@.len() && key@[q] == v;
                            assert(hash_values@.contains(key@[q]));
                        }
                    }
                }
                e += 1;
            }
            proof {
                assert forall|t2: int, h: Seq<i32>|
                    0 <= t2 < t + 1 && #[trigger] tables[t2].contains_key(h) implies keys.contains(
                    (t2, h),
                ) by {
                    if t2 == t {
                        let i = choose|i: int| 0 <= i < entries@.len() && (#[trigger] entries@[i]).0@ == h;
                        assert(keys.contains((t as int, entries@[i].0@)));
                    }
                }
                assert forall|t2: int, h: Seq<i32>, v: i32|
                    0 <= t2 < t + 1 && #[trigger] tables[t2].contains_key(h) && #[trigger] h.contains(
                        v,
                    ) implies hash_values@.contains(v) by {
                    if t2 == t {
                        let i = choose|i: int| 0 <= i < entries@.len() && (#[trigger] entries@[i]).0@ == h;
                        assert(entries@[i].0@.contains(v));
                    }
                }
            }
            t += 1;
        }
        proof {
            assert forall|v: i32| is_hash_value(tables, v) implies hash_values@.contains(v) by {
                let (t2, h) = choose|t2: int, h: Seq<i32>|
                    0 <= t2 < tables.len() && #[trigger] tables[t2].contains_key(h) && h.contains(v);
                assert(h.contains(v));
            }
            assert(lists_buckets(tables, keys, lengths@));
        }
        let d = Description { lengths, max_len, min_len, hash_values };
        assert(lists_buckets(tables, keys, d.lengths@));
        d
    }
}

} // verus!
