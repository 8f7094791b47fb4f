//! The index: one sign random projection and one table per hash function,
//! and an identifier for every vector that is stored.
use crate::hash::is_inner_product;
use crate::hash::SignRandomProjections;
use crate::table::general::bucket_ids;
use crate::table::general::bucket_insert;
use crate::table::general::bucket_new;
use crate::table::general::HashTableError;
use crate::table::mem::in_bucket;
use crate::table::mem::moved;
use crate::table::mem::with_id;
use crate::table::mem::MemoryTable;
use vstd::prelude::*;

verus! {

/// Whether `table` files `id` under exactly one hash.
pub open spec fn filed_once(table: Map<Seq<i32>, Set<u32>>, id: u32) -> bool {
    exists|h: Seq<i32>|
        #[trigger] in_bucket(table, h, id) && forall|g: Seq<i32>|
            #[trigger] in_bucket(table, g, id) ==> g == h
}

/// Whether `table` files `id` under no hash.
pub open spec fn filed_nowhere(table: Map<Seq<i32>, Set<u32>>, id: u32) -> bool {
    forall|h: Seq<i32>| !#[trigger] in_bucket(table, h, id)
}

/// Whether `table` files `id` as an index does whose next identifier is
/// `next`: once where it was given out, nowhere where it was not.
pub open spec fn filed_as(table: Map<Seq<i32>, Set<u32>>, id: u32, next: u32) -> bool {
    if id < next {
        filed_once(table, id)
    } else {
        filed_nowhere(table, id)
    }
}

/// Whether every table files every identifier as an index does whose next
/// identifier is `next`.
pub open spec fn tables_inv(tables: Seq<Map<Seq<i32>, Set<u32>>>, next: u32) -> bool {
    forall|t: int, id: u32| 0 <= t < tables.len() ==> #[trigger] filed_as(tables[t], id, next)
}

/// Where `id` is filed after `new_id` was filed under `hash`.
pub proof fn lemma_with_id(
    table: Map<Seq<i32>, Set<u32>>,
    hash: Seq<i32>,
    new_id: u32,
    g: Seq<i32>,
    id: u32,
)
    ensures
        in_bucket(with_id(table, hash, new_id), g, id) <==> in_bucket(table, g, id) || (g == hash
            && id == new_id),
{
}

/// Where `id` is filed after `moved_id` was moved from `from` to `to`.
pub proof fn lemma_moved(
    table: Map<Seq<i32>, Set<u32>>,
    from: Seq<i32>,
    to: Seq<i32>,
    moved_id: u32,
    g: Seq<i32>,
    id: u32,
)
    ensures
        in_bucket(moved(table, from, to, moved_id), g, id) <==> if id == moved_id && from != to
            && in_bucket(table, from, moved_id) {
            g == to || (g != from && in_bucket(table, g, id))
        } else {
            in_bucket(table, g, id)
        },
{
}

/// Filing `new_id`, which no table holds yet, keeps every table in order
/// and makes `new_id` the last identifier that was given out.
pub proof fn lemma_store_keeps_inv(
    before: Seq<Map<Seq<i32>, Set<u32>>>,
    after: Seq<Map<Seq<i32>, Set<u32>>>,
    hashes: Seq<Seq<i32>>,
    new_id: u32,
)
    requires
        tables_inv(before, new_id),
        new_id < u32::MAX,
        after.len() == before.len(),
        hashes.len() == before.len(),
        forall|t: int|
            0 <= t < before.len() ==> #[trigger] after[t] == with_id(before[t], hashes[t], new_id),
    ensures
        tables_inv(after, (new_id + 1) as u32),
{
    let next = (new_id + 1) as u32;
    assert forall|t: int, id: u32| 0 <= t < after.len() implies #[trigger] filed_as(
        after[t],
        id,
        next,
    ) by {
        assert(filed_as(before[t], id, new_id));
        assert(after[t] == with_id(before[t], hashes[t], new_id));
        assert forall|g: Seq<i32>|
            in_bucket(after[t], g, id) <==> in_bucket(before[t], g, id) || (g == hashes[t] && id
                == new_id) by {
            lemma_with_id(before[t], hashes[t], new_id, g, id);
        }
        if id < new_id {
            let h = choose|h: Seq<i32>|
                #[trigger] in_bucket(before[t], h, id) && forall|g: Seq<i32>|
                    #[trigger] in_bucket(before[t], g, id) ==> g == h;
            assert(in_bucket(after[t], h, id));
        } else if id == new_id {
            assert(in_bucket(after[t], hashes[t], id));
        }
    }
}

/// Moving `id` in every table keeps every table in order.
pub proof fn lemma_move_keeps_inv(
    before: Seq<Map<Seq<i32>, Set<u32>>>,
    after: Seq<Map<Seq<i32>, Set<u32>>>,
    from: Seq<Seq<i32>>,
    to: Seq<Seq<i32>>,
    moved_id: u32,
    next: u32,
)
    requires
        tables_inv(before, next),
        after.len() == before.len(),
        from.len() == before.len(),
        to.len() == before.len(),
        forall|t: int|
            0 <= t < before.len() ==> #[trigger] after[t] == moved(
                before[t],
                from[t],
                to[t],
                moved_id,
            ),
    ensures
        tables_inv(after, next),
{
    assert forall|t: int, id: u32| 0 <= t < after.len() implies #[trigger] filed_as(
        after[t],
        id,
        next,
    ) by {
        assert(filed_as(before[t], id, next));
        assert(filed_as(before[t], moved_id, next));
        assert(after[t] == moved(before[t], from[t], to[t], moved_id));
        assert forall|g: Seq<i32>|
            in_bucket(after[t], g, id) <==> if id == moved_id && from[t] != to[t] && in_bucket(
                before[t],
                from[t],
                moved_id,
            ) {
                g == to[t] || (g != from[t] && in_bucket(before[t], g, id))
            } else {
                in_bucket(before[t], g, id)
            } by {
            lemma_moved(before[t], from[t], to[t], moved_id, g, id);
        }
        if id < next {
            let h = choose|h: Seq<i32>|
                #[trigger] in_bucket(before[t], h, id) && forall|g: Seq<i32>|
                    #[trigger] in_bucket(before[t], g, id) ==> g == h;
            if id == moved_id && from[t] != to[t] && in_bucket(before[t], from[t], moved_id) {
                assert(in_bucket(after[t], to[t], id));
            } else {
                assert(in_bucket(after[t], h, id));
            }
        }
    }
}

/// Whether two hashes are equal in every component.
pub fn same_hash(a: &Vec<i32>, b: &Vec<i32>) -> (r: bool)
    ensures
        r == (a@ == b@),
{
    if a.len() != b.len() {
        return false;
    }
    let mut i: usize = 0;
    while i < a.len()
        invariant
            a@.len() == b@.len(),
            i <= a@.len(),
            forall|j: int| 0 <= j < i ==> a@[j] == b@[j],
        decreases a@.len() - i,
    {
        if a[i] != b[i] {
            return false;
        }
        i += 1;
    }
    assert(a@ =~= b@);
    true
}

/// An index over vectors of one dimension, kept in memory.
pub struct LSH<D: Fn(&Vec<u32>, &Vec<u32>) -> u32> {
    hashers: Vec<SignRandomProjections>,
    dim: usize,
    hash_tables: MemoryTable,
    inner_prod: D,
}

impl<D: Fn(&Vec<u32>, &Vec<u32>) -> u32> LSH<D> {
    /// The hash functions, one per table.
    pub closed spec fn hashers(&self) -> Seq<SignRandomProjections> {
        self.hashers@
    }

    /// The inner product that the hash functions use.
    pub closed spec fn inner_prod(&self) -> D {
        self.inner_prod
    }

    /// The dimension of the vectors.
    pub closed spec fn dim(&self) -> usize {
        self.dim
    }

    /// The tables, each as the map from a hash to its bucket.
    pub closed spec fn tables(&self) -> Seq<Map<Seq<i32>, Set<u32>>> {
        self.hash_tables.tables()
    }

    /// The identifier that the next vector gets: the number of vectors that
    /// were stored.
    pub closed spec fn next_id(&self) -> u32 {
        self.hash_tables.counter()
    }

    /// The vectors that are kept, in the order in which they came.
    pub closed spec fn vectors(&self) -> Seq<Seq<u32>> {
        self.hash_tables.vectors()
    }

    /// Whether only identifiers are kept, and no vectors.
    pub closed spec fn only_index(&self) -> bool {
        self.hash_tables.only_index()
    }

    /// The number of tables.
    pub open spec fn n_tables(&self) -> nat {
        self.hashers().len()
    }

    /// The hash of `v` under the hash function of table `t`.
    pub open spec fn hash_at(&self, t: int, v: Seq<u32>) -> Seq<i32> {
        self.hashers()[t].hash_of(self.inner_prod(), v)
    }

    /// The hashes of `v` under every hash function, in the order of the
    /// tables.
    pub open spec fn hashes_of(&self, v: Seq<u32>) -> Seq<Seq<i32>> {
        Seq::new(self.n_tables(), |t: int| self.hash_at(t, v))
    }

    /// The identifiers that share a bucket with `v` in at least one table.
    pub open spec fn candidates(&self, v: Seq<u32>) -> Set<u32> {
        Set::new(
            |id: u32|
                exists|t: int|
                    0 <= t < self.n_tables() && #[trigger] in_bucket(
                        self.tables()[t],
                        self.hash_at(t, v),
                        id,
                    ),
        )
    }

    /// Whether the backing store is in the state that it was made in or
    /// brought to by this index.
    pub closed spec fn store_wf(&self) -> bool {
        self.hash_tables.wf()
    }

    /// There is at least one table, and a hash function for each. Every hash
    /// function is for vectors of this dimension. Every identifier that was
    /// given out is filed under exactly one hash in every table, and no
    /// other identifier is filed anywhere.
    pub open spec fn wf(&self) -> bool {
        &&& self.store_wf()
        &&& self.n_tables() > 0
        &&& self.tables().len() == self.n_tables()
        &&& is_inner_product(self.inner_prod())
        &&& forall|t: int|
            0 <= t < self.n_tables() ==> (#[trigger] self.hashers()[t]).wf()
                && self.hashers()[t].dim == self.dim()
        &&& tables_inv(self.tables(), self.next_id())
    }

    /// Whether the hash functions can make an index for vectors of
    /// dimension `dim`: there is one at least, each has a projection at
    /// least, and each is for that dimension.
    pub open spec fn valid_config(hashers: Seq<SignRandomProjections>, dim: usize) -> bool {
        &&& hashers.len() > 0
        &&& forall|t: int|
            0 <= t < hashers.len() ==> (#[trigger] hashers[t]).wf() && hashers[t].dim == dim
                && hashers[t].n_projections() > 0
    }

    /// An empty index with one table per hash function, or nothing where
    /// the configuration is not valid.
    pub fn new(
        hashers: Vec<SignRandomProjections>,
        dim: usize,
        only_index_storage: bool,
        inner_prod: D,
    ) -> (r: Option<Self>)
        requires
            is_inner_product(inner_prod),
        ensures
            r.is_some() == Self::valid_config(hashers@, dim),
            match r {
                Some(lsh) => {
                    &&& lsh.wf()
                    &&& lsh.hashers() == hashers@
                    &&& lsh.inner_prod() == inner_prod
                    &&& lsh.dim() == dim
                    &&& lsh.next_id() == 0
                    &&& lsh.only_index() == only_index_storage
                    &&& lsh.vectors().len() == 0
                    &&& forall|t: int|
                        0 <= t < hashers@.len() ==> #[trigger] lsh.tables()[t] == Map::<
                            Seq<i32>,
                            Set<u32>,
                        >::empty()
                },
                None => true,
            },
    {
        if hashers.len() == 0 {
            return None;
        }
        let mut t: usize = 0;
        while t < hashers.len()
            invariant
                t <= hashers@.len(),
                forall|j: int|
                    0 <= j < t ==> (#[trigger] hashers@[j]).wf() && hashers@[j].dim == dim
                        && hashers@[j].n_projections() > 0,
            decreases hashers@.len() - t,
        {
            if !hashers[t].is_valid() || hashers[t].dim != dim || hashers[t].hyperplanes.len()
                == 0 {
                return None;
            }
            t += 1;
        }
        let hash_tables = MemoryTable::new(hashers.len(), only_index_storage);
        let lsh = LSH { hashers, dim, hash_tables, inner_prod };
        assert forall|t: int, id: u32| 0 <= t < lsh.tables().len() implies #[trigger] filed_as(
            lsh.tables()[t],
            id,
            0,
        ) by {}
        Some(lsh)
    }

    /// Stores `v`: files a new identifier under the hash of `v` in every
    /// table, in the order of the tables, and returns it. The identifier is
    /// the number of vectors that were stored before. Where every
    /// identifier but the last was given out, nothing is stored: no
    /// identifier is given out twice.
    pub fn store_vec(&mut self, v: &Vec<u32>) -> (r: Result<u32, HashTableError>)
        requires
            old(self).wf(),
            v@.len() == old(self).dim(),
        ensures
            final(self).wf(),
            final(self).hashers() == old(self).hashers(),
            final(self).inner_prod() == old(self).inner_prod(),
            final(self).dim() == old(self).dim(),
            final(self).only_index() == old(self).only_index(),
            final(self).tables().len() == old(self).tables().len(),
            r == if old(self).next_id() < u32::MAX {
                Ok::<u32, HashTableError>(old(self).next_id())
            } else {
                Err::<u32, HashTableError>(HashTableError::Failed)
            },
            old(self).next_id() == u32::MAX ==> {
                &&& final(self).next_id() == old(self).next_id()
                &&& final(self).tables() == old(self).tables()
                &&& final(self).vectors() == old(self).vectors()
            },
            old(self).next_id() < u32::MAX ==> {
                &&& final(self).next_id() == old(self).next_id() + 1
                &&& forall|t: int|
                    0 <= t < old(self).n_tables() ==> #[trigger] final(self).tables()[t]
                        == with_id(
                        old(self).tables()[t],
                        old(self).hash_at(t, v@),
                        old(self).next_id(),
                    )
                &&& final(self).vectors() == if old(self).only_index() {
                    old(self).vectors()
                } else {
                    old(self).vectors().push(v@)
                }
            },
    {
        if self.hash_tables.next_id() == 0xffff_ffff {
            return Err(HashTableError::Failed);
        }
        let n: usize = self.hashers.len();
        let id: u32 = self.hash_tables.next_id();
        let mut t: usize = 0;
        while t < n
            invariant
                n == self.hashers@.len(),
                0 <= t <= n,
                self.hashers() == old(self).hashers(),
                self.inner_prod() == old(self).inner_prod(),
                self.dim() == old(self).dim(),
                self.only_index() == old(self).only_index(),
                old(self).wf(),
                self.store_wf(),
                v@.len() == self.dim(),
                id == old(self).next_id(),
                id < u32::MAX,
                self.next_id() == if t == n {
                    (id + 1) as u32
                } else {
                    id
                },
                self.tables().len() == n,
                forall|j: int|
                    0 <= j < n ==> #[trigger] self.tables()[j] == if j < t {
                        with_id(old(self).tables()[j], old(self).hash_at(j, v@), id)
                    } else {
                        old(self).tables()[j]
                    },
                self.vectors() == if t == 0 || old(self).only_index() {
                    old(self).vectors()
                } else {
                    old(self).vectors().push(v@)
                },
            decreases n - t,
        {
            let ghost before = self.tables();
            assert(self.hashers()[t as int].wf());
            let hash = self.hashers[t].hash_vec_query(v, &self.inner_prod);
            let _ = self.hash_tables.put(hash, v.as_slice(), t);
            assert forall|j: int| 0 <= j < n implies #[trigger] self.tables()[j] == if j < t + 1 {
                with_id(old(self).tables()[j], old(self).hash_at(j, v@), id)
            } else {
                old(self).tables()[j]
            } by {
                assert(before[j] == if j < t {
                    with_id(old(self).tables()[j], old(self).hash_at(j, v@), id)
                } else {
                    old(self).tables()[j]
                });
            }
            t += 1;
        }
        proof {
            assert(old(self).hashes_of(v@).len() == n);
            assert forall|j: int| 0 <= j < n implies #[trigger] self.tables()[j] == with_id(
                old(self).tables()[j],
                old(self).hashes_of(v@)[j],
                id,
            ) by {}
            lemma_store_keeps_inv(old(self).tables(), self.tables(), old(self).hashes_of(v@), id);
        }
        Ok(id)
    }

    /// The store behind the index, to look into.
    pub fn hash_tables(&self) -> (store: &MemoryTable)
        ensures
            store.wf() == self.store_wf(),
            store.tables() == self.tables(),
            store.counter() == self.next_id(),
            store.vectors() == self.vectors(),
            store.only_index() == self.only_index(),
    {
        &self.hash_tables
    }

    /// The dimension of the vectors.
    pub fn dimension(&self) -> (d: usize)
        ensures
            d == self.dim(),
    {
        self.dim
    }

    /// The number of vectors that were stored.
    pub fn counter(&self) -> (c: u32)
        ensures
            c == self.next_id(),
    {
        self.hash_tables.next_id()
    }

    /// The identifiers that share a bucket with `v` in at least one table,
    /// each once, in an order of which nothing is known. A table that has no
    /// bucket for `v` adds nothing.
    pub fn query_bucket_ids(&self, v: &Vec<u32>) -> (r: Result<Vec<u32>, HashTableError>)
        requires
            self.wf(),
            v@.len() == self.dim(),
        ensures
            match r {
                Ok(ids) => ids@.no_duplicates() && ids@.to_set() == self.candidates(v@),
                Err(_) => false,
            },
    {
        let n: usize = self.hashers.len();
        let mut seen = bucket_new();
        let mut ids: Vec<u32> = Vec::new();
        let mut t: usize = 0;
        while t < n
            invariant
                self.wf(),
                v@.len() == self.dim(),
                n == self.hashers@.len(),
                t <= n,
                ids@.no_duplicates(),
                forall|id: u32| ids@.contains(id) <==> seen@.contains(id),
                forall|id: u32|
                    seen@.contains(id) <==> exists|j: int|
                        0 <= j < t && #[trigger] in_bucket(
                            self.tables()[j],
                            self.hash_at(j, v@),
                            id,
                        ),
            decreases n - t,
        {
            assert(self.hashers()[t as int].wf());
            let hash = self.hashers[t].hash_vec_query(v, &self.inner_prod);
            match self.hash_tables.query_bucket(&hash, t) {
                Err(_) => {
                    assert forall|id: u32|
                        seen@.contains(id) <==> exists|j: int|
                            0 <= j < t + 1 && #[trigger] in_bucket(
                                self.tables()[j],
                                self.hash_at(j, v@),
                                id,
                            ) by {
                        assert(!in_bucket(self.tables()[t as int], self.hash_at(t as int, v@), id));
                    }
                },
                Ok(bucket) => {
                    let found = bucket_ids(&bucket);
                    let ghost seen_before = seen@;
                    let mut i: usize = 0;
                    while i < found.len()
                        invariant
                            i <= found@.len(),
                            ids@.no_duplicates(),
                            forall|id: u32| ids@.contains(id) <==> seen@.contains(id),
                            seen@ == seen_before.union(found@.take(i as int).to_set()),
                        decreases found@.len() - i,
                    {
                        let id: u32 = found[i];
                        let ghost ids_before = ids@;
                        if bucket_insert(&mut seen, id) {
                            ids.push(id);
                            assert forall|x: u32| ids@.contains(x) <==> seen@.contains(x) by {
                                if ids_before.contains(x) {
                                    let k = choose|k: int|
                                        0 <= k < ids_before.len() && ids_before[k] == x;
                                    assert(ids@[k] == x);
                                }
                                if x == id {
                                    assert(ids@[ids_before.len() as int] == x);
                                }
                            }
                        }
                        proof {
                            let head = found@.take(i as int);
                            let next = found@.take(i + 1);
                            assert(next =~= head.push(id));
                            assert forall|x: u32| next.contains(x) <==> head.contains(x) || x
                                == id by {
                                if head.contains(x) {
                                    let k = choose|k: int| 0 <= k < head.len() && head[k] == x;
                                    assert(next[k] == x);
                                }
                                if x == id {
                                    assert(next[i as int] == x);
                                }
                            }
                            assert(next.to_set() =~= head.to_set().insert(id));
                            assert(seen@ =~= seen_before.union(next.to_set()));
                        }
                        i += 1;
                    }
                    proof {
                        assert(found@.take(found@.len() as int) =~= found@);
                        assert forall|id: u32|
                            seen@.contains(id) <==> exists|j: int|
                                0 <= j < t + 1 && #[trigger] in_bucket(
                                    self.tables()[j],
                                    self.hash_at(j, v@),
                                    id,
                                ) by {
                            assert(seen@.contains(id) <==> seen_before.contains(id)
                                || found@.to_set().contains(id));
                            assert(found@.to_set().contains(id) <==> in_bucket(
                                self.tables()[t as int],
                                self.hash_at(t as int, v@),
                                id,
                            ));
                            if seen_before.contains(id) {
                                let j = choose|j: int|
                                    0 <= j < t && #[trigger] in_bucket(
                                        self.tables()[j],
                                        self.hash_at(j, v@),
                                        id,
                                    );
                                assert(0 <= j < t + 1);
                            }
                            if exists|j: int|
                                0 <= j < t + 1 && #[trigger] in_bucket(
                                    self.tables()[j],
                                    self.hash_at(j, v@),
                                    id,
                                ) {
                                let j = choose|j: int|
                                    0 <= j < t + 1 && #[trigger] in_bucket(
                                        self.tables()[j],
                                        self.hash_at(j, v@),
                                        id,
                                    );
                                if j < t {
                                    assert(seen_before.contains(id));
                                }
                            }
                        }
                    }
                },
            }
            t += 1;
        }
        assert(ids@.to_set() =~= self.candidates(v@));
        Ok(ids)
    }

    /// Whether `idx` is filed under the hash of `v` in every table.
    pub open spec fn filed_under(&self, idx: u32, v: Seq<u32>) -> bool {
        forall|t: int|
            0 <= t < self.n_tables() ==> #[trigger] in_bucket(
                self.tables()[t],
                self.hash_at(t, v),
                idx,
            )
    }

    /// Files `idx` under `new_v` instead of `old_v`: in every table where
    /// the two hash differently, `idx` moves from the bucket of `old_v` to
    /// that of `new_v`. A table that does not file `idx` under `old_v` stays
    /// as it is, and the answer is then `NotFound`.
    pub fn update_by_idx(&mut self, idx: u32, new_v: &Vec<u32>, old_v: &Vec<u32>) -> (r: Result<
        (),
        HashTableError,
    >)
        requires
            old(self).wf(),
            new_v@.len() == old(self).dim(),
            old_v@.len() == old(self).dim(),
        ensures
            final(self).wf(),
            final(self).hashers() == old(self).hashers(),
            final(self).inner_prod() == old(self).inner_prod(),
            final(self).dim() == old(self).dim(),
            final(self).only_index() == old(self).only_index(),
            final(self).next_id() == old(self).next_id(),
            final(self).vectors() == old(self).vectors(),
            final(self).tables().len() == old(self).tables().len(),
            forall|t: int|
                0 <= t < old(self).n_tables() ==> #[trigger] final(self).tables()[t] == moved(
                    old(self).tables()[t],
                    old(self).hash_at(t, old_v@),
                    old(self).hash_at(t, new_v@),
                    idx,
                ),
            r == if forall|t: int|
                0 <= t < old(self).n_tables() ==> old(self).hash_at(t, old_v@) == old(
                    self,
                ).hash_at(t, new_v@) || #[trigger] in_bucket(
                    old(self).tables()[t],
                    old(self).hash_at(t, old_v@),
                    idx,
                ) {
                Ok::<(), HashTableError>(())
            } else {
                Err::<(), HashTableError>(HashTableError::NotFound)
            },
    {
        let n: usize = self.hashers.len();
        let mut all_found: bool = true;
        let mut t: usize = 0;
        while t < n
            invariant
                n == self.hashers@.len(),
                0 <= t <= n,
                self.hashers() == old(self).hashers(),
                self.inner_prod() == old(self).inner_prod(),
                self.dim() == old(self).dim(),
                self.only_index() == old(self).only_index(),
                self.next_id() == old(self).next_id(),
                self.vectors() == old(self).vectors(),
                old(self).wf(),
                self.store_wf(),
                new_v@.len() == self.dim(),
                old_v@.len() == self.dim(),
                self.tables().len() == n,
                forall|j: int|
                    0 <= j < n ==> #[trigger] self.tables()[j] == if j < t {
                        moved(
                            old(self).tables()[j],
                            old(self).hash_at(j, old_v@),
                            old(self).hash_at(j, new_v@),
                            idx,
                        )
                    } else {
                        old(self).tables()[j]
                    },
                all_found <==> forall|j: int|
                    0 <= j < t ==> old(self).hash_at(j, old_v@) == old(self).hash_at(j, new_v@)
                        || #[trigger] in_bucket(
                        old(self).tables()[j],
                        old(self).hash_at(j, old_v@),
                        idx,
                    ),
            decreases n - t,
        {
            let ghost before = self.tables();
            let ghost found_before = all_found;
            assert(self.hashers()[t as int].wf());
            let new_hash = self.hashers[t].hash_vec_query(new_v, &self.inner_prod);
            let old_hash = self.hashers[t].hash_vec_query(old_v, &self.inner_prod);
            if !same_hash(&old_hash, &new_hash) {
                match self.hash_tables.update_by_idx(&old_hash, new_hash, idx, t) {
                    Ok(_) => {},
                    Err(_) => {
                        all_found = false;
                    },
                }
            }
            assert forall|j: int| 0 <= j < n implies #[trigger] self.tables()[j] == if j < t + 1 {
                moved(
                    old(self).tables()[j],
                    old(self).hash_at(j, old_v@),
                    old(self).hash_at(j, new_v@),
                    idx,
                )
            } else {
                old(self).tables()[j]
            } by {
                assert(before[j] == if j < t {
                    moved(
                        old(self).tables()[j],
                        old(self).hash_at(j, old_v@),
                        old(self).hash_at(j, new_v@),
                        idx,
                    )
                } else {
                    old(self).tables()[j]
                });
            }
            assert(all_found <==> found_before && (old(self).hash_at(t as int, old_v@) == old(
                self,
            ).hash_at(t as int, new_v@) || in_bucket(
                old(self).tables()[t as int],
                old(self).hash_at(t as int, old_v@),
                idx,
            )));
            t += 1;
        }
        proof {
            assert forall|j: int| 0 <= j < n implies #[trigger] self.tables()[j] == moved(
                old(self).tables()[j],
                old(self).hashes_of(old_v@)[j],
                old(self).hashes_of(new_v@)[j],
                idx,
            ) by {}
            lemma_move_keeps_inv(
                old(self).tables(),
                self.tables(),
                old(self).hashes_of(old_v@),
                old(self).hashes_of(new_v@),
                idx,
                self.next_id(),
            );
        }
        if all_found {
            Ok(())
        } else {
            Err(HashTableError::NotFound)
        }
    }

    /// A vector that was stored is found again: after `store_vec(v)`,
    /// every table files the new identifier under the hash of `v`, and
    /// under that hash alone.
    pub proof fn lemma_stored_is_filed(before: &Self, after: &Self, v: Seq<u32>)
        requires
            before.wf(),
            after.hashers() == before.hashers(),
            after.inner_prod() == before.inner_prod(),
            after.tables().len() == before.tables().len(),
            forall|t: int|
                0 <= t < before.n_tables() ==> #[trigger] after.tables()[t] == with_id(
                    before.tables()[t],
                    before.hash_at(t, v),
                    before.next_id(),
                ),
        ensures
            after.filed_under(before.next_id(), v),
            forall|t: int, h: Seq<i32>|
                0 <= t < after.n_tables() && #[trigger] in_bucket(
                    after.tables()[t],
                    h,
                    before.next_id(),
                ) ==> h == after.hash_at(t, v),
    {
        let id = before.next_id();
        assert forall|t: int| 0 <= t < after.n_tables() implies #[trigger] in_bucket(
            after.tables()[t],
            after.hash_at(t, v),
            id,
        ) by {
            assert(after.tables()[t] == with_id(before.tables()[t], before.hash_at(t, v), id));
        }
        assert forall|t: int, h: Seq<i32>|
            0 <= t < after.n_tables() && #[trigger] in_bucket(after.tables()[t], h, id) implies h
            == after.hash_at(t, v) by {
            assert(after.tables()[t] == with_id(before.tables()[t], before.hash_at(t, v), id));
            assert(filed_as(before.tables()[t], id, before.next_id()));
            lemma_with_id(before.tables()[t], before.hash_at(t, v), id, h, id);
        }
    }

    /// An identifier that was updated is filed under the new vector alone:
    /// where `idx` was filed under `old_v` in every table, after
    /// `update_by_idx(idx, new_v, old_v)` every table files it under the
    /// hash of `new_v` and under no other.
    pub proof fn lemma_updated_is_filed_once(
        before: &Self,
        after: &Self,
        idx: u32,
        new_v: Seq<u32>,
        old_v: Seq<u32>,
    )
        requires
            before.wf(),
            before.filed_under(idx, old_v),
            after.hashers() == before.hashers(),
            after.inner_prod() == before.inner_prod(),
            after.tables().len() == before.tables().len(),
            forall|t: int|
                0 <= t < before.n_tables() ==> #[trigger] after.tables()[t] == moved(
                    before.tables()[t],
                    before.hash_at(t, old_v),
                    before.hash_at(t, new_v),
                    idx,
                ),
        ensures
            after.filed_under(idx, new_v),
            forall|t: int, h: Seq<i32>|
                0 <= t < after.n_tables() && #[trigger] in_bucket(after.tables()[t], h, idx) ==> h
                    == after.hash_at(t, new_v),
    {
        assert forall|t: int| 0 <= t < after.n_tables() implies #[trigger] in_bucket(
            after.tables()[t],
            after.hash_at(t, new_v),
            idx,
        ) by {
            let from = before.hash_at(t, old_v);
            let to = before.hash_at(t, new_v);
            assert(after.tables()[t] == moved(before.tables()[t], from, to, idx));
            assert(in_bucket(before.tables()[t], from, idx));
            lemma_moved(before.tables()[t], from, to, idx, to, idx);
        }
        assert forall|t: int, h: Seq<i32>|
            0 <= t < after.n_tables() && #[trigger] in_bucket(
                after.tables()[t],
                h,
                idx,
            ) implies h == after.hash_at(t, new_v) by {
            let from = before.hash_at(t, old_v);
            let to = before.hash_at(t, new_v);
            assert(after.tables()[t] == moved(before.tables()[t], from, to, idx));
            assert(in_bucket(before.tables()[t], from, idx));
            assert(filed_as(before.tables()[t], idx, before.next_id()));
            lemma_moved(before.tables()[t], from, to, idx, h, idx);
        }
    }

    /// Storing a vector leaves the identifiers that were given out before
    /// where they are.
    pub proof fn lemma_store_keeps_others(
        before: &Self,
        after: &Self,
        v: Seq<u32>,
        other: u32,
        u: Seq<u32>,
    )
        requires
            before.filed_under(other, u),
            after.hashers() == before.hashers(),
            after.inner_prod() == before.inner_prod(),
            after.tables().len() == before.tables().len(),
            forall|t: int|
                0 <= t < before.n_tables() ==> #[trigger] after.tables()[t] == with_id(
                    before.tables()[t],
                    before.hash_at(t, v),
                    before.next_id(),
                ),
        ensures
            after.filed_under(other, u),
    {
        assert forall|t: int| 0 <= t < after.n_tables() implies #[trigger] in_bucket(
            after.tables()[t],
            after.hash_at(t, u),
            other,
        ) by {
            assert(after.tables()[t] == with_id(
                before.tables()[t],
                before.hash_at(t, v),
                before.next_id(),
            ));
            assert(in_bucket(before.tables()[t], before.hash_at(t, u), other));
            lemma_with_id(
                before.tables()[t],
                before.hash_at(t, v),
                before.next_id(),
                before.hash_at(t, u),
                other,
            );
        }
    }

    /// An update of one identifier leaves the others where they are.
    pub proof fn lemma_update_keeps_others(
        before: &Self,
        after: &Self,
        idx: u32,
        new_v: Seq<u32>,
        old_v: Seq<u32>,
        other: u32,
        u: Seq<u32>,
    )
        requires
            other != idx,
            before.filed_under(other, u),
            after.hashers() == before.hashers(),
            after.inner_prod() == before.inner_prod(),
            after.tables().len() == before.tables().len(),
            before.tables().len() == before.n_tables(),
            forall|t: int|
                0 <= t < before.n_tables() ==> #[trigger] after.tables()[t] == moved(
                    before.tables()[t],
                    before.hash_at(t, old_v),
                    before.hash_at(t, new_v),
                    idx,
                ),
        ensures
            after.filed_under(other, u),
    {
        assert forall|t: int| 0 <= t < after.n_tables() implies #[trigger] in_bucket(
            after.tables()[t],
            after.hash_at(t, u),
            other,
        ) by {
            let from = before.hash_at(t, old_v);
            let to = before.hash_at(t, new_v);
            assert(after.tables()[t] == moved(before.tables()[t], from, to, idx));
            assert(in_bucket(before.tables()[t], before.hash_at(t, u), other));
            lemma_moved(before.tables()[t], from, to, idx, before.hash_at(t, u), other);
        }
    }

    /// A query finds every identifier that shares a hash with it: where
    /// `id` is filed under `u`, and `u` and `v` have the same hash in some
    /// table, `id` is among the candidates of `v`.
    pub proof fn lemma_query_finds_collisions(&self, id: u32, u: Seq<u32>, v: Seq<u32>, t: int)
        requires
            self.filed_under(id, u),
            0 <= t < self.n_tables(),
            self.hash_at(t, u) == self.hash_at(t, v),
        ensures
            self.candidates(v).contains(id),
    {
        assert(in_bucket(self.tables()[t], self.hash_at(t, u), id));
    }
}

} // verus!
