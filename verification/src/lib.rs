use vstd::prelude::*;

pub mod datetime;
pub mod duration;
pub mod text;
pub mod parse;
pub mod utc_offset;
pub mod args;
pub mod display;
pub mod sleep;

verus! {

} // verus!
