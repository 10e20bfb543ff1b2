//! A small embedded key-value store: typed values under string keys, kept in
//! memory and saved as a zlib-compressed, length-prefixed binary record stream.
use vstd::prelude::*;

pub mod compression;
pub mod datatype;
pub mod db;
pub mod error;
pub mod format;

verus! {

/// Sums two sizes.
pub fn add(left: usize, right: usize) -> (r: usize)
    requires
        left + right <= usize::MAX,
    ensures
        r == left + right,
{
    left + right
}

} // verus!
