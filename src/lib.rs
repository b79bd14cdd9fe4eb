//! Block-wise assembly of integral tensors over Gaussian basis shells.
//!
//! An external kernel evaluates one block of an integral for a combination of
//! shells. This crate decides which blocks a call needs, where each of them
//! goes in the output, and copies kernel blocks into a packed layout:
//!
//! - `basis`: the integer tables of a molecule, shell sizes and offsets;
//! - `shape`: validation of shell slices, output shapes, scratch sizes;
//! - `dense`: dense assembly, whose blocks cover the output exactly once;
//! - `packed`: assembly with the first two axes stored as pairs;
//! - `layout`: column-major and packed index arithmetic, and block copies;
//! - `tensor`: offsets over any number of axes.
use vstd::prelude::*;

pub mod basis;
pub mod dense;
pub mod layout;
pub mod packed;
pub mod shape;
pub mod tensor;

verus! {

} // verus!
