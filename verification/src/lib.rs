//! The logic of a RAM map viewer: reading memory maps, laying regions out
//! along a Hilbert curve, and the viewer's decisions.
use vstd::prelude::*;

pub mod colors;
pub mod hilbert;
pub mod input;
pub mod layout;
pub mod text;
pub mod viewer;

verus! {

} // verus!
