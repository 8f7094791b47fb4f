//! The arena of weight vectors: slots that stay where they are, and beside
//! each the vector that the index last saw in it.
use vstd::prelude::*;

verus! {

/// The views of a vector of vectors.
pub open spec fn views(v: Seq<Vec<u32>>) -> Seq<Seq<u32>> {
    Seq::new(v.len(), |i: int| v[i]@)
}

/// A copy of a vector of vectors.
pub fn clone_all(v: &Vec<Vec<u32>>) -> (r: Vec<Vec<u32>>)
    ensures
        views(r@) == views(v@),
{
    let mut r: Vec<Vec<u32>> = Vec::with_capacity(v.len());
    let mut i: usize = 0;
    while i < v.len()
        invariant
            i <= v@.len(),
            r@.len() == i,
            forall|j: int| 0 <= j < i ==> (#[trigger] r@[j])@ == v@[j]@,
        decreases v@.len() - i,
    {
        r.push(v[i].clone());
        i += 1;
    }
    assert(views(r@) =~= views(v@));
    r
}

/// A pool of weight vectors that are found by their slot.
pub struct MemArena {
    /// The weights as they are now.
    pub pool: Vec<Vec<u32>>,
    /// The weights as the index last saw them.
    pool_backup: Vec<Vec<u32>>,
    /// The slots that may be given out again.
    free: Vec<usize>,
}

impl MemArena {
    /// The weights as they are now, by slot.
    pub closed spec fn weights(&self) -> Seq<Seq<u32>> {
        views(self.pool@)
    }

    /// The weights as the index last saw them, by slot.
    pub closed spec fn backup(&self) -> Seq<Seq<u32>> {
        views(self.pool_backup@)
    }

    /// The slots that may be given out again, the next one last.
    pub closed spec fn free(&self) -> Seq<usize> {
        self.free@
    }

    /// Every free slot is a slot of the pool, and none is free twice.
    pub open spec fn wf(&self) -> bool {
        &&& forall|i: int| 0 <= i < self.free().len() ==> #[trigger] self.free()[i] < self.weights().len()
        &&& self.free().no_duplicates()
    }

    /// Whether every slot has its backup.
    pub open spec fn frozen(&self) -> bool {
        self.backup().len() == self.weights().len()
    }

    /// An arena without slots.
    pub fn new() -> (r: Self)
        ensures
            r.wf(),
            r.weights().len() == 0,
            r.backup().len() == 0,
            r.free().len() == 0,
    {
        MemArena { pool: Vec::new(), pool_backup: Vec::new(), free: Vec::new() }
    }

    /// The number of slots.
    pub fn len(&self) -> (n: usize)
        ensures
            n == self.weights().len(),
    {
        self.pool.len()
    }

    /// The number of backups.
    pub fn backup_len(&self) -> (n: usize)
        ensures
            n == self.backup().len(),
    {
        self.pool_backup.len()
    }

    /// Puts `p` into a slot and returns the slot: the free slot that was
    /// freed last where there is one, else a new slot at the end.
    pub fn add(&mut self, p: Vec<u32>) -> (slot: usize)
        requires
            old(self).wf(),
        ensures
            final(self).wf(),
            final(self).backup() == old(self).backup(),
            old(self).free().len() > 0 ==> {
                &&& slot == old(self).free().last()
                &&& final(self).free() == old(self).free().drop_last()
                &&& final(self).weights() == old(self).weights().update(slot as int, p@)
            },
            old(self).free().len() == 0 ==> {
                &&& slot == old(self).weights().len()
                &&& final(self).free() == old(self).free()
                &&& final(self).weights() == old(self).weights().push(p@)
            },
    {
        match self.free.pop() {
            Some(idx) => {
                assert(old(self).free()[old(self).free().len() - 1] == idx);
                self.pool[idx] = p;
                assert(self.weights() =~= old(self).weights().update(idx as int, p@));
                assert forall|i: int| 0 <= i < self.free().len() implies #[trigger] self.free()[i]
                    < self.weights().len() by {
                    assert(self.free()[i] == old(self).free()[i]);
                }
                idx
            },
            None => {
                self.pool.push(p);
                assert(self.weights() =~= old(self).weights().push(p@));
                self.pool.len() - 1
            },
        }
    }

    /// The weight in `slot`.
    pub fn get(&self, slot: usize) -> (w: &Vec<u32>)
        requires
            slot < self.weights().len(),
        ensures
            w@ == self.weights()[slot as int],
    {
        &self.pool[slot]
    }

    /// The weight that the index last saw in `slot`.
    pub fn get_backup(&self, slot: usize) -> (w: &Vec<u32>)
        requires
            slot < self.backup().len(),
        ensures
            w@ == self.backup()[slot as int],
    {
        &self.pool_backup[slot]
    }

    /// Puts `w` into `slot` in place of the weight that is there.
    pub fn set(&mut self, slot: usize, w: Vec<u32>)
        requires
            slot < old(self).weights().len(),
        ensures
            final(self).weights() == old(self).weights().update(slot as int, w@),
            final(self).backup() == old(self).backup(),
            final(self).free() == old(self).free(),
    {
        self.pool[slot] = w;
        assert(self.weights() =~= old(self).weights().update(slot as int, w@));
    }

    /// Copies every weight into its backup.
    pub fn freeze(&mut self)
        ensures
            final(self).frozen(),
            final(self).backup() == old(self).weights(),
            final(self).weights() == old(self).weights(),
            final(self).free() == old(self).free(),
    {
        self.pool_backup = clone_all(&self.pool);
    }

    /// Copies the weight in `slot` into its backup.
    pub fn snapshot(&mut self, slot: usize)
        requires
            old(self).frozen(),
            slot < old(self).weights().len(),
        ensures
            final(self).backup() == old(self).backup().update(
                slot as int,
                old(self).weights()[slot as int],
            ),
            final(self).weights() == old(self).weights(),
            final(self).free() == old(self).free(),
    {
        let w = self.pool[slot].clone();
        self.pool_backup[slot] = w;
        assert(self.backup() =~= old(self).backup().update(
            slot as int,
            old(self).weights()[slot as int],
        ));
    }
}

} // verus!
