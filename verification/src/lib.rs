//! Locality-sensitive hashing over real-valued vectors, and the sparsely
//! activated network that uses it to pick the perceptrons of each pass.
//!
//! Verified code never computes on real numbers. A component of a vector is
//! carried as the 32 bits of its IEEE 754 binary32 encoding, and everything
//! here moves, stores, compares and indexes those words.
use vstd::prelude::*;

pub mod arena;
pub mod data;
pub mod hash;
pub mod lsh;
pub mod network;
pub mod table;

verus! {

/// A vector, owned: each component the bits of an IEEE 754 binary32 number.
pub type DataPoint = Vec<u32>;

/// A vector, borrowed.
pub type DataPointSlice = [u32];

/// Whether the bits encode no number: all exponent bits set and a fraction
/// that is not zero.
pub open spec fn is_nan(a: u32) -> bool {
    (a & 0x7fff_ffff) > 0x7f80_0000
}

/// Whether two components are equal as numbers. An encoding of no number
/// equals nothing, itself included; the two zeros are equal; otherwise the
/// numbers are equal where the bits are.
pub open spec fn scalar_eq(a: u32, b: u32) -> bool {
    &&& !is_nan(a)
    &&& !is_nan(b)
    &&& (a == b || ((a | b) & 0x7fff_ffff) == 0)
}

/// Whether two vectors have the same length and are equal as numbers in
/// every component.
pub open spec fn all_eq_spec(u: Seq<u32>, v: Seq<u32>) -> bool {
    &&& u.len() == v.len()
    &&& forall|i: int| 0 <= i < u.len() ==> scalar_eq(#[trigger] u[i], v[i])
}

/// Compares two components as numbers.
pub fn scalar_equal(a: u32, b: u32) -> (r: bool)
    ensures
        r == scalar_eq(a, b),
{
    (a & 0x7fff_ffff) <= 0x7f80_0000 && (b & 0x7fff_ffff) <= 0x7f80_0000 && (a == b || ((a | b)
        & 0x7fff_ffff) == 0)
}

/// Compares two vectors as numbers, component by component.
pub fn all_eq(u: &[u32], v: &[u32]) -> (r: bool)
    ensures
        r == all_eq_spec(u@, v@),
{
    if u.len() != v.len() {
        return false;
    }
    let mut i: usize = 0;
    while i < u.len()
        invariant
            u.len() == v.len(),
            i <= u.len(),
            forall|j: int| 0 <= j < i ==> scalar_eq(#[trigger] u@[j], v@[j]),
        decreases u.len() - i,
    {
        if !scalar_equal(u[i], v[i]) {
            return false;
        }
        i += 1;
    }
    true
}

} // verus!
