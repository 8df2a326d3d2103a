use vstd::prelude::*;

pub mod dbformat;
pub mod filename;
pub mod log;
pub mod memtable;
pub mod util;
pub mod write_batch;

verus! {

} // verus!
