//! Sum-of-best calculations for speed-running split files.
//!
//! A split file records, for every checkpoint of a run, the best time ever
//! achieved on it and the time of each attempt that reached it. This library
//! groups the checkpoints into segments, computes for each segment the sum of
//! the recorded bests and the best time of a single complete attempt, and
//! accumulates both over named ranges of segments.
//!
//! Every executable function carries a contract that Verus proves.

pub mod builder;
pub mod document;
pub mod duration;
pub mod error;
pub mod history;
pub mod range;
pub mod realtime;
pub mod segment;
pub mod text;

pub use builder::{build_segments, build_subsplit, build_subsplits};
pub use document::{strip_prolog, Attribute, Element, XmlNode};
pub use duration::{calc_total_seconds, time_to_duration, Duration};
pub use error::SplitsError;
pub use history::{build_attempt_history, parse_started, AttemptStart};
pub use range::{calc_sub_segments, SubSegment, SubSegmentContext};
pub use realtime::{build_duration_from_realtime_str, format_realtime, parse_realtime};
pub use segment::{
    best_complete_attempt, calc_sum_of_best, calc_sum_of_best_nonsubsplit, group_subsplits,
    Segment, SubSplit, NO_DATA_NANOS,
};
