//! Hashes and the sign random projections that produce them.
//!
//! The inner product of two vectors is arithmetic on real numbers, which
//! this library leaves to its caller: a hash function is given the inner
//! product as a function value, and is verified for every such function that
//! accepts two vectors of one length and gives equal vectors equal products.
use crate::is_nan;
use vstd::prelude::*;

verus! {

/// One component of a hash.
pub type HashPrimitive = i32;

/// A hash: one component per projection.
pub type Hash = Vec<HashPrimitive>;

/// Whether the bits encode a number below zero.
pub open spec fn is_negative(p: u32) -> bool {
    &&& p >= 0x8000_0000
    &&& p != 0x8000_0000
    &&& !is_nan(p)
}

/// The hash component of an inner product: -1 below zero, else 1. Zero of
/// either sign gives 1.
pub open spec fn sign_of(p: u32) -> i32 {
    if is_negative(p) {
        -1i32
    } else {
        1i32
    }
}

/// Computes the hash component of an inner product.
pub fn sign(p: u32) -> (s: i32)
    ensures
        s == sign_of(p),
{
    if p > 0x8000_0000 && (p & 0x7fff_ffff) <= 0x7f80_0000 {
        -1
    } else {
        1
    }
}

/// Whether `inner_prod` may stand for the inner product: it accepts any two
/// vectors of one length, and what it returns depends on their components
/// alone.
pub open spec fn is_inner_product<D: Fn(&Vec<u32>, &Vec<u32>) -> u32>(inner_prod: D) -> bool {
    &&& forall|a: &Vec<u32>, b: &Vec<u32>|
        a@.len() == b@.len() ==> #[trigger] call_requires(inner_prod, (a, b))
    &&& forall|a: &Vec<u32>, b: &Vec<u32>, c: &Vec<u32>, d: &Vec<u32>, p: u32, q: u32|
        a@ == c@ && b@ == d@ && #[trigger] call_ensures(inner_prod, (a, b), p)
            && #[trigger] call_ensures(inner_prod, (c, d), q) ==> p == q
}

/// Whether `inner_prod` can return `p` for vectors with these components.
pub open spec fn is_product_of<D: Fn(&Vec<u32>, &Vec<u32>) -> u32>(
    inner_prod: D,
    a: Seq<u32>,
    b: Seq<u32>,
    p: u32,
) -> bool {
    exists|x: &Vec<u32>, y: &Vec<u32>|
        x@ == a && y@ == b && #[trigger] call_ensures(inner_prod, (x, y), p)
}

/// What `inner_prod` returns for vectors with these components.
pub open spec fn product_of<D: Fn(&Vec<u32>, &Vec<u32>) -> u32>(
    inner_prod: D,
    a: Seq<u32>,
    b: Seq<u32>,
) -> u32 {
    choose|p: u32| is_product_of(inner_prod, a, b, p)
}

/// A family of sign random projections: one hyperplane per hash component.
pub struct SignRandomProjections {
    /// The normals of the hyperplanes, one row each.
    pub hyperplanes: Vec<Vec<u32>>,
    /// The length of the vectors that are hashed.
    pub dim: usize,
}

impl SignRandomProjections {
    /// Every hyperplane has the dimension of the hashed vectors.
    pub open spec fn wf(&self) -> bool {
        forall|k: int|
            0 <= k < self.hyperplanes@.len() ==> (#[trigger] self.hyperplanes@[k])@.len()
                == self.dim
    }

    /// The number of projections, which is the length of every hash.
    pub open spec fn n_projections(&self) -> nat {
        self.hyperplanes@.len()
    }

    /// The hash of `v`: for each hyperplane, the sign of its inner product
    /// with `v`.
    pub open spec fn hash_of<D: Fn(&Vec<u32>, &Vec<u32>) -> u32>(
        &self,
        inner_prod: D,
        v: Seq<u32>,
    ) -> Seq<i32> {
        Seq::new(
            self.hyperplanes@.len(),
            |k: int| sign_of(product_of(inner_prod, self.hyperplanes@[k]@, v)),
        )
    }

    /// Whether every hyperplane has the dimension of the hashed vectors.
    pub fn is_valid(&self) -> (r: bool)
        ensures
            r == self.wf(),
    {
        let mut k: usize = 0;
        while k < self.hyperplanes.len()
            invariant
                k <= self.hyperplanes@.len(),
                forall|j: int| 0 <= j < k ==> (#[trigger] self.hyperplanes@[j])@.len() == self.dim,
            decreases self.hyperplanes@.len() - k,
        {
            if self.hyperplanes[k].len() != self.dim {
                return false;
            }
            k += 1;
        }
        true
    }

    /// A family with the given hyperplanes for vectors of length `dim`, or
    /// nothing where a hyperplane has another length.
    pub fn new(hyperplanes: Vec<Vec<u32>>, dim: usize) -> (r: Option<Self>)
        ensures
            match r {
                Some(h) => h.wf() && h.hyperplanes == hyperplanes && h.dim == dim,
                None => !(SignRandomProjections { hyperplanes, dim }).wf(),
            },
    {
        let family = SignRandomProjections { hyperplanes, dim };
        if family.is_valid() {
            Some(family)
        } else {
            None
        }
    }

    /// Hashes a vector.
    pub fn hash_vec_query<D: Fn(&Vec<u32>, &Vec<u32>) -> u32>(
        &self,
        v: &Vec<u32>,
        inner_prod: &D,
    ) -> (h: Vec<i32>)
        requires
            self.wf(),
            is_inner_product(*inner_prod),
            v@.len() == self.dim,
        ensures
            h@ == self.hash_of(*inner_prod, v@),
    {
        let mut h: Vec<i32> = Vec::with_capacity(self.hyperplanes.len());
        let mut k: usize = 0;
        while k < self.hyperplanes.len()
            invariant
                self.wf(),
                is_inner_product(*inner_prod),
                v@.len() == self.dim,
                k <= self.hyperplanes@.len(),
                h@.len() == k,
                forall|j: int| 0 <= j < k ==> h@[j] == self.hash_of(*inner_prod, v@)[j],
            decreases self.hyperplanes@.len() - k,
        {
            let p: u32 = inner_prod(&self.hyperplanes[k], v);
            proof {
                let q = product_of(*inner_prod, self.hyperplanes@[k as int]@, v@);
                assert(is_product_of(*inner_prod, self.hyperplanes@[k as int]@, v@, p));
                assert(p == q);
            }
            h.push(sign(p));
            k += 1;
        }
        assert(h@ =~= self.hash_of(*inner_prod, v@));
        h
    }
}

} // verus!
