//! An in-memory editing engine for timed caption text: an ordered caption
//! collection with bounded undo/redo history, structural and textual edits,
//! conflict and reading-speed analysis, a timestamp-block format codec, a
//! waveform envelope analyzer, and timeline zoom/pan coordinate math.
pub mod caption;
pub mod codec;
pub mod store;
pub mod timeline;
pub mod waveform;
pub mod digits;
pub mod edits;
pub mod text;

pub use caption::{Caption, CaptionStyle, Position, TextAlign};
pub use codec::{FormatId, ParseError};
pub use store::{CaptionEditor, EditError, SpeedKind};
pub use timeline::TimelineTransform;
pub use waveform::WaveformProcessor;

use vstd::prelude::*;

verus! {

/// Splits a total millisecond count into hours, minutes, seconds and
/// milliseconds fields.
pub fn split_ms(ms: u32) -> (r: (u32, u32, u32, u32))
    ensures
        r.0 == ms / 3600000,
        r.1 == (ms % 3600000) / 60000,
        r.2 == (ms % 60000) / 1000,
        r.3 == ms % 1000,
{
    let hours = ms / 3600000;
    let minutes = (ms % 3600000) / 60000;
    let seconds = (ms % 60000) / 1000;
    let millis = ms % 1000;
    (hours, minutes, seconds, millis)
}

} // verus!
