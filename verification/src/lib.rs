use vstd::prelude::*;

pub mod digits;
pub mod format;
pub mod json;
pub mod prober;
pub mod sample;

pub use format::{render, Format};
pub use json::{decode_json, render_json};
pub use prober::{run_ticks, tick, Config, OutputLine, ProbeOutcome, TickEvent};
pub use sample::Sample;

verus! {

} // verus!
