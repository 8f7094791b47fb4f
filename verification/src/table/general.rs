//! What every bucket store shares: the bucket, the table of buckets, and
//! the errors.
use fnv::FnvHashMap;
use fnv::FnvHashSet;
use vstd::prelude::*;

verus! {

/// `fnv::FnvHasher`, the hasher of the tables and buckets. Nothing is
/// known of what is inside it.
#[verifier::external_type_specification]
#[verifier::external_body]
pub struct ExFnvHasher(fnv::FnvHasher);

/// `std::hash::BuildHasherDefault`, which makes the hasher of a table or a
/// bucket. Nothing is known of what is inside it.
#[verifier::external_type_specification]
#[verifier::external_body]
#[verifier::reject_recursive_types(H)]
pub struct ExBuildHasherDefault<H>(std::hash::BuildHasherDefault<H>);

/// The identifiers filed under one hash in one table.
pub type Bucket = FnvHashSet<u32>;

/// Why a bucket store could not answer.
#[derive(Debug, Clone, Copy, PartialEq, Eq, Structural)]
pub enum HashTableError {
    /// The backend reported a failure.
    Failed,
    /// Nothing is filed under the hash.
    NotFound,
    /// The store has no table with that index.
    TableNotExist,
    /// The store does not offer the operation.
    NotImplemented,
}

/// The identifier after `id`. After the last identifier they start again
/// from zero.
pub open spec fn next_id_after(id: u32) -> u32 {
    if id == u32::MAX {
        0
    } else {
        (id + 1) as u32
    }
}

/// Advances an identifier.
pub fn advance(id: u32) -> (next: u32)
    ensures
        next == next_id_after(id),
{
    if id == u32::MAX {
        0
    } else {
        id + 1
    }
}

/// What a table holds: for each hash that has a bucket, the identifiers in
/// that bucket.
pub uninterp spec fn table_buckets(t: FnvHashMap<Vec<i32>, FnvHashSet<u32>>) -> Map<
    Seq<i32>,
    Set<u32>,
>;

/// `FnvHashSet::default`: a set that holds nothing.
#[verifier::external_body]
pub(crate) fn bucket_new<T>() -> (b: FnvHashSet<T>)
    ensures
        b@ == Set::<T>::empty(),
{
    FnvHashSet::default()
}

/// `HashSet::insert`, for items that are equal exactly where they are the
/// same value: afterwards the set holds `id` besides what it held. Returns
/// whether `id` was new to it.
#[verifier::external_body]
pub(crate) fn bucket_insert<T: Eq + core::hash::Hash>(b: &mut FnvHashSet<T>, id: T) -> (fresh: bool)
    requires
        vstd::std_specs::hash::obeys_key_model::<T>(),
    ensures
        final(b)@ == old(b)@.insert(id),
        fresh == !old(b)@.contains(id),
{
    b.insert(id)
}

/// `HashSet::remove`: afterwards the bucket holds what it held, without
/// `id`. Returns whether it held `id`.
#[verifier::external_body]
pub(crate) fn bucket_remove(b: &mut FnvHashSet<u32>, id: u32) -> (found: bool)
    ensures
        final(b)@ == old(b)@.remove(id),
        found == old(b)@.contains(id),
{
    b.remove(&id)
}

/// `HashSet::clone`: a bucket that holds the same identifiers.
#[verifier::external_body]
pub(crate) fn bucket_clone(b: &FnvHashSet<u32>) -> (c: FnvHashSet<u32>)
    ensures
        c@ == b@,
{
    b.clone()
}

/// `HashSet::iter`, collected: every identifier of the bucket once, in an
/// order of which nothing is known.
#[verifier::external_body]
pub(crate) fn bucket_ids(b: &FnvHashSet<u32>) -> (ids: Vec<u32>)
    ensures
        ids@.no_duplicates(),
        ids@.to_set() == b@,
{
    b.iter().copied().collect()
}

/// `FnvHashMap::default`: a table without buckets.
#[verifier::external_body]
pub(crate) fn table_new() -> (t: FnvHashMap<Vec<i32>, FnvHashSet<u32>>)
    ensures
        forall|h: Seq<i32>| !table_buckets(t).contains_key(h),
{
    FnvHashMap::default()
}

/// `HashMap::get`: the bucket filed under `hash`, if there is one.
#[verifier::external_body]
pub(crate) fn table_get<'a>(t: &'a FnvHashMap<Vec<i32>, FnvHashSet<u32>>, hash: &Vec<i32>) -> (r:
    Option<&'a FnvHashSet<u32>>)
    ensures
        match r {
            Some(b) => table_buckets(*t).contains_key(hash@) && b@ == table_buckets(*t)[hash@],
            None => !table_buckets(*t).contains_key(hash@),
        },
{
    t.get(hash)
}

/// `HashMap::remove`: takes the bucket filed under `hash` out of the table
/// and returns it, if there is one; the other buckets stay.
#[verifier::external_body]
pub(crate) fn table_take(t: &mut FnvHashMap<Vec<i32>, FnvHashSet<u32>>, hash: &Vec<i32>) -> (r:
    Option<FnvHashSet<u32>>)
    ensures
        table_buckets(*final(t)) == table_buckets(*old(t)).remove(hash@),
        match r {
            Some(b) => table_buckets(*old(t)).contains_key(hash@) && b@ == table_buckets(
                *old(t),
            )[hash@],
            None => !table_buckets(*old(t)).contains_key(hash@),
        },
{
    t.remove(hash)
}

/// `HashMap::insert`: files `b` under `hash`, in place of any bucket that
/// was filed there; the other buckets stay.
#[verifier::external_body]
pub(crate) fn table_put(t: &mut FnvHashMap<Vec<i32>, FnvHashSet<u32>>, hash: Vec<i32>, b: FnvHashSet<u32>)
    ensures
        table_buckets(*final(t)) == table_buckets(*old(t)).insert(hash@, b@),
{
    t.insert(hash, b);
}

/// `HashMap::iter`, collected: every hash of the table once, each with the
/// number of identifiers in its bucket, in an order of which nothing is
/// known.
#[verifier::external_body]
pub(crate) fn table_sizes(t: &FnvHashMap<Vec<i32>, FnvHashSet<u32>>) -> (r: Vec<(Vec<i32>, usize)>)
    ensures
        forall|i: int|
            0 <= i < r@.len() ==> table_buckets(*t).contains_key((#[trigger] r@[i]).0@) && r@[i].1
                == table_buckets(*t)[r@[i].0@].len(),
        forall|i: int, j: int| 0 <= i < j < r@.len() ==> (#[trigger] r@[i]).0@ != (#[trigger] r@[j]).0@,
        forall|h: Seq<i32>|
            table_buckets(*t).contains_key(h) ==> exists|i: int|
                0 <= i < r@.len() && (#[trigger] r@[i]).0@ == h,
{
    t.iter().map(|(k, v)| (k.clone(), v.len())).collect()
}

/// `FnvHashMap::default`: a map without keys.
#[verifier::external_body]
pub(crate) fn map_new<V>() -> (m: FnvHashMap<u32, V>)
    ensures
        forall|k: u32| !m@.contains_key(k),
{
    FnvHashMap::default()
}

/// `HashMap::insert`: afterwards `k` leads to `v`, and every other key to
/// what it led to.
#[verifier::external_body]
pub(crate) fn map_insert<V>(m: &mut FnvHashMap<u32, V>, k: u32, v: V)
    ensures
        final(m)@ == old(m)@.insert(k, v),
{
    m.insert(k, v);
}

/// `HashMap::get`: what `k` leads to, if it is a key.
#[verifier::external_body]
pub(crate) fn map_get<'a, V>(m: &'a FnvHashMap<u32, V>, k: u32) -> (r: Option<&'a V>)
    ensures
        match r {
            Some(v) => m@.contains_key(k) && *v == m@[k],
            None => !m@.contains_key(k),
        },
{
    m.get(&k)
}

} // verus!
