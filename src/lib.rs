use vstd::prelude::*;

pub mod events;
pub mod json;
pub mod levels;
pub mod seq;
pub mod templates;
pub mod time;

pub use events::Event;
pub use levels::{to_seq_level, Level};
pub use seq::{format_event, format_oversize_placeholder, format_payload, FormatOutcome, SeqCollector};
pub use time::Timestamp;

verus! {

} // verus!
