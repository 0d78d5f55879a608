use vstd::prelude::*;

pub mod codec;
pub mod command;
pub mod diff;
pub mod driver;
pub mod model;
pub mod play_time;
pub mod resolve;

verus! {

} // verus!
