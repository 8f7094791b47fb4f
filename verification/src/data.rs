//! The types of number that a data point may be made of.
use vstd::prelude::*;

verus! {

/// A number that can be copied and compared. The integer types are such
/// numbers; a real number is carried as the bits of its encoding, which is
/// one of them.
pub trait Numeric: Copy + PartialEq + PartialOrd {

}

impl Numeric for i8 {

}

impl Numeric for i16 {

}

impl Numeric for i32 {

}

impl Numeric for i64 {

}

impl Numeric for u8 {

}

impl Numeric for u16 {

}

impl Numeric for u32 {

}

impl Numeric for u64 {

}

} // verus!
