use vstd::prelude::*;

pub mod bitmap_btree;
pub mod bitutils;
pub mod text;

verus! {

} // verus!
