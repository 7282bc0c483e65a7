use vstd::prelude::*;

pub mod laws;
pub mod point;
pub mod simple;
pub mod span;

pub use point::{Point, DEFAULT_SPAN_FACTOR};
pub use simple::{is_nearest, Cover, CoverTree};

verus! {

} // verus!
