//! From the document of a split file to checkpoints and segments.

use std::collections::BTreeMap;
use vstd::prelude::*;
use vstd::string::*;
use vstd::utf8::encode_utf8;
use crate::document::{first_attribute, is_element_named, Element, XmlNode};
use crate::duration::Duration;
use crate::error::SplitsError;
use crate::realtime::{build_duration_from_realtime_str, realtime_nanos};
use crate::segment::{
    attempt_views, group_subsplits, segment_views, segments_of, subsplit_views, Segment,
    SegmentView, SubSplit, SubSplitView,
};
use crate::text::{parse_unsigned, unsigned_up_to};

verus! {

/// The largest attempt number.
pub const ATTEMPT_ID_MAX: u64 = 4_294_967_295;

/// The duration that a `RealTime` element holds, in nanoseconds.
pub open spec fn duration_of(real_time: Element) -> Result<nat, SplitsError> {
    match real_time.text() {
        None => Err(SplitsError::MalformedDuration),
        Some(text) => match realtime_nanos(encode_utf8(text)) {
            None => Err(SplitsError::MalformedDuration),
            Some(nanos) => Ok(nanos),
        },
    }
}

/// The attempt number that the text of an `id` attribute writes: an
/// unsigned decimal number that fits in 32 bits, which may be written with a
/// `+` before it.
pub open spec fn attempt_id_of(text: Seq<char>) -> Option<u32> {
    match unsigned_up_to(encode_utf8(text), ATTEMPT_ID_MAX as nat) {
        Some(id) => Some(id as u32),
        None => None,
    }
}

/// The attempt times after one more node of a segment history.
///
/// An entry needs an `id` attribute. An entry whose `id` is no attempt
/// number, or that has no `RealTime` element, is passed over; any other
/// entry records its time under its number, in place of an earlier one.
/// Nodes that are no elements are passed over.
pub open spec fn with_history_entry(attempts: Map<u32, nat>, node: XmlNode) -> Result<
    Map<u32, nat>,
    SplitsError,
> {
    match node {
        XmlNode::Element(entry) => match first_attribute(entry.attributes@, "id"@) {
            None => Err(SplitsError::MissingTimeId),
            Some(id_text) => match attempt_id_of(id_text) {
                None => Ok(attempts),
                Some(id) => match entry.child("RealTime"@) {
                    None => Ok(attempts),
                    Some(real_time) => match duration_of(real_time) {
                        Err(e) => Err(e),
                        Ok(nanos) => Ok(attempts.insert(id, nanos)),
                    },
                },
            },
        },
        _ => Ok(attempts),
    }
}

/// The attempt times that the children of a `SegmentHistory` element
/// record, or the error of the first child that cannot be read.
pub open spec fn attempts_of(children: Seq<XmlNode>) -> Result<Map<u32, nat>, SplitsError>
    decreases children.len(),
{
    if children.len() == 0 {
        Ok(Map::<u32, nat>::empty())
    } else {
        match attempts_of(children.drop_last()) {
            Err(e) => Err(e),
            Ok(attempts) => with_history_entry(attempts, children.last()),
        }
    }
}

/// The name of a checkpoint: the text of its `Name` element.
pub open spec fn name_of(node: Element) -> Result<Seq<char>, SplitsError> {
    match node.child("Name"@) {
        None => Err(SplitsError::MissingName),
        Some(name) => match name.text() {
            None => Err(SplitsError::MissingName),
            Some(text) => Ok(text),
        },
    }
}

/// The best time of a checkpoint: the `RealTime` of its `BestSegmentTime`.
pub open spec fn best_time_of(node: Element) -> Result<nat, SplitsError> {
    match node.child("BestSegmentTime"@) {
        None => Err(SplitsError::MissingBestTime),
        Some(best) => match best.child("RealTime"@) {
            None => Err(SplitsError::MissingBestTime),
            Some(real_time) => duration_of(real_time),
        },
    }
}

/// The history of a checkpoint: what its `SegmentHistory` records.
pub open spec fn history_of(node: Element) -> Result<Map<u32, nat>, SplitsError> {
    match node.child("SegmentHistory"@) {
        None => Err(SplitsError::MissingHistory),
        Some(history) => attempts_of(history.children@),
    }
}

/// The checkpoint that a `Segment` element of the document describes, or
/// the first thing that is wrong with it: name, best time and history are
/// read in this order.
pub open spec fn subsplit_of(node: Element) -> Result<SubSplitView, SplitsError> {
    match name_of(node) {
        Err(e) => Err(e),
        Ok(name) => match best_time_of(node) {
            Err(e) => Err(e),
            Ok(best_time) => match history_of(node) {
                Err(e) => Err(e),
                Ok(attempts) => Ok(SubSplitView { name, attempts, best_time }),
            },
        },
    }
}

/// The checkpoints that the `Segment` elements among `children` describe,
/// in order, or the error of the first one that cannot be read.
pub open spec fn subsplits_in(children: Seq<XmlNode>) -> Result<Seq<SubSplitView>, SplitsError>
    decreases children.len(),
{
    if children.len() == 0 {
        Ok(Seq::<SubSplitView>::empty())
    } else {
        match subsplits_in(children.drop_last()) {
            Err(e) => Err(e),
            Ok(list) => if is_element_named(children.last(), "Segment"@) {
                match subsplit_of(children.last()->Element_0) {
                    Ok(subsplit) => Ok(list.push(subsplit)),
                    Err(e) => Err(e),
                }
            } else {
                Ok(list)
            },
        }
    }
}

/// The segments of a document: its checkpoints are the `Segment` elements
/// in its `Segments` element, and they are grouped in document order.
pub open spec fn segments_in(root: Element) -> Result<Seq<SegmentView>, SplitsError> {
    match root.child("Segments"@) {
        None => Err(SplitsError::MissingSegments),
        Some(container) => match subsplits_in(container.children@) {
            Err(e) => Err(e),
            Ok(list) => segments_of(list),
        },
    }
}

/// An error in a beginning of a segment history is the error of the whole.
pub proof fn lemma_attempts_error(children: Seq<XmlNode>, n: int)
    requires
        0 <= n <= children.len(),
        attempts_of(children.take(n)) is Err,
    ensures
        attempts_of(children) == attempts_of(children.take(n)),
    decreases children.len() - n,
{
    if n == children.len() {
        assert(children.take(n) == children);
    } else {
        assert(children.drop_last().take(n) == children.take(n));
        lemma_attempts_error(children.drop_last(), n);
    }
}

/// An error in a beginning of the checkpoints is the error of the whole.
pub proof fn lemma_subsplits_error(children: Seq<XmlNode>, n: int)
    requires
        0 <= n <= children.len(),
        subsplits_in(children.take(n)) is Err,
    ensures
        subsplits_in(children) == subsplits_in(children.take(n)),
    decreases children.len() - n,
{
    if n == children.len() {
        assert(children.take(n) == children);
    } else {
        assert(children.drop_last().take(n) == children.take(n));
        lemma_subsplits_error(children.drop_last(), n);
    }
}

/// Reads the duration that a `RealTime` element holds.
fn read_duration(real_time: &Element) -> (duration: Result<Duration, SplitsError>)
    ensures
        match duration {
            Ok(d) => duration_of(*real_time) == Ok::<nat, SplitsError>(d@),
            Err(e) => duration_of(*real_time) == Err::<nat, SplitsError>(e),
        },
{
    match real_time.get_text() {
        None => Err(SplitsError::MalformedDuration),
        Some(text) => match build_duration_from_realtime_str(text.as_str()) {
            None => Err(SplitsError::MalformedDuration),
            Some(d) => Ok(d),
        },
    }
}

/// Reads the attempt times that a `SegmentHistory` element records.
fn read_history(history: &Element) -> (attempts: Result<BTreeMap<u32, Duration>, SplitsError>)
    ensures
        match attempts {
            Ok(map) => attempts_of(history.children@) == Ok::<Map<u32, nat>, SplitsError>(
                attempt_views(map@),
            ),
            Err(e) => attempts_of(history.children@) == Err::<Map<u32, nat>, SplitsError>(e),
        },
{
    let mut attempts: BTreeMap<u32, Duration> = BTreeMap::new();
    let mut i: usize = 0;
    proof {
        assert(history.children@.take(0) == Seq::<XmlNode>::empty());
        assert(attempt_views(attempts@) == Map::<u32, nat>::empty());
    }
    while i < history.children.len()
        invariant
            i <= history.children.len(),
            attempts_of(history.children@.take(i as int)) == Ok::<Map<u32, nat>, SplitsError>(
                attempt_views(attempts@),
            ),
        decreases history.children.len() - i,
    {
        let ghost children = history.children@;
        proof {
            assert(children.take(i + 1).drop_last() == children.take(i as int));
            assert(children.take(i + 1).last() == children[i as int]);
        }
        match &history.children[i] {
            XmlNode::Element(entry) => {
                let id_text: &String = match entry.attribute("id") {
                    Some(text) => text,
                    None => {
                        proof {
                            lemma_attempts_error(children, i + 1);
                        }
                        return Err(SplitsError::MissingTimeId);
                    },
                };
                match parse_unsigned(id_text.as_str().as_bytes(), ATTEMPT_ID_MAX) {
                    None => {},
                    Some(id) => {
                        match entry.get_child("RealTime") {
                            None => {},
                            Some(real_time) => {
                                match read_duration(real_time) {
                                    Err(e) => {
                                        proof {
                                            lemma_attempts_error(children, i + 1);
                                        }
                                        return Err(e);
                                    },
                                    Ok(d) => {
                                        let ghost before = attempts@;
                                        attempts.insert(id as u32, d);
                                        proof {
                                            assert(attempt_views(attempts@) == attempt_views(
                                                before,
                                            ).insert(id as u32, d@));
                                        }
                                    },
                                }
                            },
                        }
                    },
                }
            },
            _ => {},
        }
        i += 1;
    }
    proof {
        assert(history.children@.take(i as int) == history.children@);
    }
    Ok(attempts)
}

/// Reads one checkpoint from its `Segment` element.
///
/// The name is the text of `Name`, the best time the `RealTime` of
/// `BestSegmentTime`, and the attempt times are those that
/// `SegmentHistory` records.
pub fn build_subsplit(subsplit_root: &Element) -> (subsplit: Result<SubSplit, SplitsError>)
    ensures
        match subsplit {
            Ok(s) => subsplit_of(*subsplit_root) == Ok::<SubSplitView, SplitsError>(s@),
            Err(e) => subsplit_of(*subsplit_root) == Err::<SubSplitView, SplitsError>(e),
        },
{
    let name: String = match subsplit_root.get_child("Name") {
        None => {
            return Err(SplitsError::MissingName);
        },
        Some(element) => match element.get_text() {
            None => {
                return Err(SplitsError::MissingName);
            },
            Some(text) => text,
        },
    };
    let best_time: Duration = match subsplit_root.get_child("BestSegmentTime") {
        None => {
            return Err(SplitsError::MissingBestTime);
        },
        Some(best) => match best.get_child("RealTime") {
            None => {
                return Err(SplitsError::MissingBestTime);
            },
            Some(real_time) => match read_duration(real_time) {
                Err(e) => {
                    return Err(e);
                },
                Ok(d) => d,
            },
        },
    };
    let attempts: BTreeMap<u32, Duration> = match subsplit_root.get_child("SegmentHistory") {
        None => {
            return Err(SplitsError::MissingHistory);
        },
        Some(history) => match read_history(history) {
            Err(e) => {
                return Err(e);
            },
            Ok(map) => map,
        },
    };
    Ok(SubSplit { name, attempts, best_time })
}

/// Reads the checkpoints of a document: the `Segment` elements among the
/// children of its `Segments` element, in document order.
pub fn build_subsplits(container: &Element) -> (subsplits: Result<Vec<SubSplit>, SplitsError>)
    ensures
        match subsplits {
            Ok(list) => subsplits_in(container.children@) == Ok::<Seq<SubSplitView>, SplitsError>(
                subsplit_views(list@),
            ),
            Err(e) => subsplits_in(container.children@) == Err::<Seq<SubSplitView>, SplitsError>(
                e,
            ),
        },
{
    let tag: String = String::from_str("Segment");
    let mut subsplits: Vec<SubSplit> = Vec::new();
    let mut i: usize = 0;
    proof {
        assert(container.children@.take(0) == Seq::<XmlNode>::empty());
        assert(subsplit_views(subsplits@) == Seq::<SubSplitView>::empty());
    }
    while i < container.children.len()
        invariant
            i <= container.children.len(),
            tag@ == "Segment"@,
            subsplits_in(container.children@.take(i as int)) == Ok::<
                Seq<SubSplitView>,
                SplitsError,
            >(subsplit_views(subsplits@)),
        decreases container.children.len() - i,
    {
        let ghost children = container.children@;
        proof {
            assert(children.take(i + 1).drop_last() == children.take(i as int));
            assert(children.take(i + 1).last() == children[i as int]);
        }
        match &container.children[i] {
            XmlNode::Element(child) => {
                if child.name == tag {
                    match build_subsplit(child) {
                        Ok(subsplit) => {
                            let ghost before = subsplit_views(subsplits@);
                            subsplits.push(subsplit);
                            proof {
                                assert(subsplit_views(subsplits@) == before.push(subsplit@));
                            }
                        },
                        Err(e) => {
                            proof {
                                lemma_subsplits_error(children, i + 1);
                            }
                            return Err(e);
                        },
                    }
                }
            },
            _ => {},
        }
        i += 1;
    }
    proof {
        assert(container.children@.take(i as int) == container.children@);
    }
    Ok(subsplits)
}

/// Builds the segments of a document.
///
/// The checkpoints are read from the `Segment` elements of the `Segments`
/// element and grouped in document order: every checkpoint whose name does
/// not start with `-` closes a segment. Whatever cannot be read is an
/// error, and so is a document that ends inside a group.
pub fn build_segments(root: &Element) -> (segments: Result<Vec<Segment>, SplitsError>)
    ensures
        match segments {
            Ok(list) => segments_in(*root) == Ok::<Seq<SegmentView>, SplitsError>(
                segment_views(list@),
            ),
            Err(e) => segments_in(*root) == Err::<Seq<SegmentView>, SplitsError>(e),
        },
{
    let container: &Element = match root.get_child("Segments") {
        None => {
            return Err(SplitsError::MissingSegments);
        },
        Some(container) => container,
    };
    let subsplits: Vec<SubSplit> = match build_subsplits(container) {
        Err(e) => {
            return Err(e);
        },
        Ok(list) => list,
    };
    group_subsplits(subsplits.as_slice())
}

} // verus!
