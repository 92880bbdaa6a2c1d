//! What can go wrong while a split file is turned into segments.

use vstd::prelude::*;

verus! {

/// Why a document could not be turned into segments or attempt records.
#[derive(Clone, Copy, Debug, PartialEq, Eq, Structural, Hash)]
pub enum SplitsError {
    /// The document has no `Segments` element.
    MissingSegments,
    /// A checkpoint has no `Name` element with text.
    MissingName,
    /// A checkpoint has no `BestSegmentTime` element with a `RealTime`.
    MissingBestTime,
    /// A checkpoint has no `SegmentHistory` element.
    MissingHistory,
    /// An entry of a segment history has no `id` attribute.
    MissingTimeId,
    /// A `RealTime` element does not hold a duration in text form.
    MalformedDuration,
    /// A sum of durations is longer than a duration can be.
    DurationOverflow,
    /// The checkpoints end inside a group, on one whose name starts with `-`.
    UnterminatedGroup,
    /// The document has no `AttemptHistory` element.
    MissingAttemptHistory,
    /// An attempt has no `id` attribute.
    MissingAttemptId,
    /// The `id` of an attempt is not a number.
    MalformedAttemptId,
    /// An attempt has no `started` attribute.
    MissingAttemptStart,
    /// The `started` attribute of an attempt is not a date and a time of day.
    MalformedAttemptStart,
}

} // verus!
