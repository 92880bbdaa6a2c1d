//! Checkpoints, the segments they form, and the two best times of a segment.

use std::collections::BTreeMap;
use vstd::prelude::*;
use vstd::slice::slice_subrange;
use vstd::string::*;
use crate::duration::Duration;
use crate::error::SplitsError;

verus! {

/// The length, in nanoseconds, that stands for "no complete attempt": 23
/// hours.
pub const NO_DATA_NANOS: u64 = 82_800_000_000_000;

/// One checkpoint of a run as the split file records it.
///
/// A name that starts with `-` marks a member of a group that a later
/// checkpoint closes.
#[derive(Clone, Debug, PartialEq, Eq)]
pub struct SubSplit {
    pub name: String,
    /// The time of each attempt that has one on this checkpoint.
    pub attempts: BTreeMap<u32, Duration>,
    /// The best time ever recorded on this checkpoint alone.
    pub best_time: Duration,
}

/// What a `SubSplit` stands for: durations as nanoseconds.
pub struct SubSplitView {
    pub name: Seq<char>,
    pub attempts: Map<u32, nat>,
    pub best_time: nat,
}

/// The attempt times of a checkpoint as nanoseconds.
pub open spec fn attempt_views(attempts: Map<u32, Duration>) -> Map<u32, nat> {
    attempts.map_values(|d: Duration| d@)
}

impl View for SubSplit {
    type V = SubSplitView;

    open spec fn view(&self) -> SubSplitView {
        SubSplitView {
            name: self.name@,
            attempts: attempt_views(self.attempts@),
            best_time: self.best_time@,
        }
    }
}

/// The views of a list of checkpoints.
pub open spec fn subsplit_views(list: Seq<SubSplit>) -> Seq<SubSplitView> {
    Seq::new(list.len(), |i: int| list[i]@)
}

/// The sum of the best times of all checkpoints in `list`.
pub open spec fn best_total(list: Seq<SubSplitView>) -> nat
    decreases list.len(),
{
    if list.len() == 0 {
        0
    } else {
        best_total(list.drop_last()) + list.last().best_time
    }
}

/// Attempt `id` has a time on every checkpoint of the non-empty `list`.
pub open spec fn is_complete(list: Seq<SubSplitView>, id: u32) -> bool {
    list.len() > 0 && forall|i: int| 0 <= i < list.len() ==> (#[trigger] list[i]).attempts.contains_key(id)
}

/// The time of attempt `id` on one checkpoint, zero where it has none.
pub open spec fn recorded(subsplit: SubSplitView, id: u32) -> nat {
    if subsplit.attempts.contains_key(id) {
        subsplit.attempts[id]
    } else {
        0
    }
}

/// The sum of the times of attempt `id` over all checkpoints in `list`.
pub open spec fn attempt_total(list: Seq<SubSplitView>, id: u32) -> nat
    decreases list.len(),
{
    if list.len() == 0 {
        0
    } else {
        attempt_total(list.drop_last(), id) + recorded(list.last(), id)
    }
}

/// `total` is the time of a complete attempt, and no complete attempt was
/// faster.
pub open spec fn is_best_attempt_total(list: Seq<SubSplitView>, total: nat) -> bool {
    &&& exists|id: u32| is_complete(list, id) && #[trigger] attempt_total(list, id) == total
    &&& forall|id: u32| is_complete(list, id) ==> total <= #[trigger] attempt_total(list, id)
}

/// The time of the fastest complete attempt, or `None` where no attempt is
/// complete.
pub open spec fn best_attempt_total(list: Seq<SubSplitView>) -> Option<nat> {
    if exists|total: nat| is_best_attempt_total(list, total) {
        Some(choose|total: nat| is_best_attempt_total(list, total))
    } else {
        None
    }
}

/// `total` is the time of a complete attempt among `ids`, and no complete
/// attempt among `ids` was faster.
pub open spec fn is_best_among(list: Seq<SubSplitView>, ids: Set<u32>, total: nat) -> bool {
    &&& exists|id: u32|
        ids.contains(id) && is_complete(list, id) && #[trigger] attempt_total(list, id) == total
    &&& forall|id: u32|
        ids.contains(id) && is_complete(list, id) ==> total <= #[trigger] attempt_total(list, id)
}

/// There is at most one best attempt time.
pub proof fn lemma_best_attempt_total_unique(list: Seq<SubSplitView>, a: nat, b: nat)
    requires
        is_best_attempt_total(list, a),
        is_best_attempt_total(list, b),
    ensures
        a == b,
{
    let ia = choose|id: u32| is_complete(list, id) && #[trigger] attempt_total(list, id) == a;
    let ib = choose|id: u32| is_complete(list, id) && #[trigger] attempt_total(list, id) == b;
    assert(a <= attempt_total(list, ib));
    assert(b <= attempt_total(list, ia));
}

/// Adds up the best times of the checkpoints in `subsplit_list`.
///
/// The sum is exact. It is refused with `DurationOverflow` exactly where it
/// is longer than a duration can be.
pub fn calc_sum_of_best(subsplit_list: &[SubSplit]) -> (sum: Result<Duration, SplitsError>)
    ensures
        match sum {
            Ok(d) => d@ == best_total(subsplit_views(subsplit_list@)),
            Err(e) => e == SplitsError::DurationOverflow && best_total(
                subsplit_views(subsplit_list@),
            ) > u64::MAX,
        },
{
    let ghost views = subsplit_views(subsplit_list@);
    let mut total: u128 = 0;
    let mut i: usize = 0;
    proof {
        assert(views.take(0) == Seq::<SubSplitView>::empty());
    }
    while i < subsplit_list.len()
        invariant
            i <= subsplit_list.len(),
            views == subsplit_views(subsplit_list@),
            total == best_total(views.take(i as int)),
            total <= i * u64::MAX,
        decreases subsplit_list.len() - i,
    {
        proof {
            assert(views.take(i + 1).drop_last() == views.take(i as int));
            assert(views.take(i + 1).last() == subsplit_list@[i as int]@);
        }
        total = total + subsplit_list[i].best_time.nanos as u128;
        i += 1;
    }
    proof {
        assert(views.take(i as int) == views);
    }
    if total <= u64::MAX as u128 {
        Ok(Duration { nanos: total as u64 })
    } else {
        Err(SplitsError::DurationOverflow)
    }
}

/// The time of attempt `id` over the whole list, where it is complete.
fn attempt_time(subsplit_list: &[SubSplit], id: u32) -> (time: Option<u128>)
    requires
        subsplit_list@.len() > 0,
    ensures
        match time {
            Some(t) => is_complete(subsplit_views(subsplit_list@), id) && t == attempt_total(
                subsplit_views(subsplit_list@),
                id,
            ),
            None => !is_complete(subsplit_views(subsplit_list@), id),
        },
{
    let ghost views = subsplit_views(subsplit_list@);
    let mut total: u128 = 0;
    let mut i: usize = 0;
    proof {
        assert(views.take(0) == Seq::<SubSplitView>::empty());
    }
    while i < subsplit_list.len()
        invariant
            i <= subsplit_list.len(),
            views == subsplit_views(subsplit_list@),
            forall|j: int| 0 <= j < i ==> (#[trigger] views[j]).attempts.contains_key(id),
            total == attempt_total(views.take(i as int), id),
            total <= i * u64::MAX,
        decreases subsplit_list.len() - i,
    {
        proof {
            assert(views.take(i + 1).drop_last() == views.take(i as int));
            assert(views.take(i + 1).last() == subsplit_list@[i as int]@);
            assert(views[i as int] == subsplit_list@[i as int]@);
        }
        match subsplit_list[i].attempts.get(&id) {
            Some(time) => {
                total = total + time.nanos as u128;
            },
            None => {
                return None;
            },
        }
        i += 1;
    }
    proof {
        assert(views.take(i as int) == views);
    }
    Some(total)
}

/// Finds the time of the fastest attempt that has a time on every
/// checkpoint of `subsplit_list`.
///
/// The result is `Ok(None)` where no attempt is complete, which includes
/// the empty list. The time is exact; it is refused with `DurationOverflow`
/// exactly where it is longer than a duration can be.
pub fn best_complete_attempt(subsplit_list: &[SubSplit]) -> (best: Result<
    Option<Duration>,
    SplitsError,
>)
    ensures
        match best_attempt_total(subsplit_views(subsplit_list@)) {
            None => best == Ok::<Option<Duration>, SplitsError>(None),
            Some(total) => if total <= u64::MAX {
                best == Ok::<Option<Duration>, SplitsError>(
                    Some(Duration { nanos: total as u64 }),
                )
            } else {
                best == Err::<Option<Duration>, SplitsError>(SplitsError::DurationOverflow)
            },
        },
{
    let ghost views = subsplit_views(subsplit_list@);
    if subsplit_list.len() == 0 {
        return Ok(None);
    }
    let first: &SubSplit = &subsplit_list[0];
    let mut fastest: Option<u128> = None;
    let ghost mut done: Set<u32> = Set::empty();
    for id in it: first.attempts.keys()
        invariant
            subsplit_list@.len() > 0,
            views == subsplit_views(subsplit_list@),
            first == subsplit_list@[0],
            it.seq().unref().to_set() == first.attempts@.dom(),
            forall|j: int| 0 <= j < it.index() ==> done.contains(*#[trigger] it.seq()[j]),
            it.index() == it.seq().len() ==> forall|k: u32|
                first.attempts@.dom().contains(k) ==> done.contains(k),
            match fastest {
                None => forall|k: u32| done.contains(k) ==> !is_complete(views, k),
                Some(t) => is_best_among(views, done, t as nat),
            },
    {
        let ghost before = done;
        proof {
            done = done.insert(*id);
        }
        assert(it.index() + 1 == it.seq().len() ==> forall|k: u32|
            first.attempts@.dom().contains(k) ==> done.contains(k)) by {
            if it.index() + 1 == it.seq().len() {
                assert forall|k: u32| first.attempts@.dom().contains(k) implies done.contains(
                    k,
                ) by {
                    assert(it.seq().unref().to_set().contains(k));
                    let j = choose|j: int|
                        0 <= j < it.seq().unref().len() && it.seq().unref()[j] == k;
                    assert(*it.seq()[j] == k);
                }
            }
        }
        match attempt_time(subsplit_list, *id) {
            Some(time) => {
                let faster: bool = match fastest {
                    None => true,
                    Some(t) => time < t,
                };
                if faster {
                    fastest = Some(time);
                }
                proof {
                    assert(is_complete(views, *id) && attempt_total(views, *id) == time);
                }
            },
            None => {},
        }
    }
    proof {
        assert forall|k: u32| is_complete(views, k) implies done.contains(k) by {
            assert(views[0].attempts.contains_key(k));
        }
    }
    match fastest {
        None => {
            proof {
                assert forall|total: nat| !is_best_attempt_total(views, total) by {
                    if is_best_attempt_total(views, total) {
                        let k = choose|k: u32|
                            is_complete(views, k) && #[trigger] attempt_total(views, k) == total;
                        assert(done.contains(k));
                    }
                }
            }
            Ok(None)
        },
        Some(t) => {
            proof {
                let w = choose|k: u32|
                    done.contains(k) && is_complete(views, k) && #[trigger] attempt_total(
                        views,
                        k,
                    ) == t;
                assert(is_complete(views, w) && attempt_total(views, w) == t);
                assert(is_best_attempt_total(views, t as nat));
                lemma_best_attempt_total_unique(
                    views,
                    t as nat,
                    choose|total: nat| is_best_attempt_total(views, total),
                );
            }
            if t <= u64::MAX as u128 {
                Ok(Some(Duration { nanos: t as u64 }))
            } else {
                Err(SplitsError::DurationOverflow)
            }
        },
    }
}

/// The time that stands for the fastest complete attempt: its time, or 23
/// hours where no attempt is complete.
pub open spec fn nonsubsplit_total(list: Seq<SubSplitView>) -> nat {
    match best_attempt_total(list) {
        Some(total) => total,
        None => NO_DATA_NANOS as nat,
    }
}

/// Finds the time of the fastest attempt that has a time on every
/// checkpoint of `subsplit_list`, or 23 hours where there is no such
/// attempt.
///
/// The time is exact; it is refused with `DurationOverflow` exactly where it
/// is longer than a duration can be.
pub fn calc_sum_of_best_nonsubsplit(subsplit_list: &[SubSplit]) -> (best: Result<
    Duration,
    SplitsError,
>)
    ensures
        match best {
            Ok(d) => d@ == nonsubsplit_total(subsplit_views(subsplit_list@)),
            Err(e) => e == SplitsError::DurationOverflow && nonsubsplit_total(
                subsplit_views(subsplit_list@),
            ) > u64::MAX,
        },
{
    match best_complete_attempt(subsplit_list) {
        Ok(Some(d)) => Ok(d),
        Ok(None) => Ok(Duration { nanos: NO_DATA_NANOS }),
        Err(e) => Err(e),
    }
}

/// One checkpoint of a run as its runner sees it: a group of recorded
/// checkpoints, closed by the one that gives the segment its name.
#[derive(Clone, Debug, PartialEq, Eq)]
pub struct Segment {
    pub name: String,
    /// The sum of the best times of the checkpoints in the group.
    pub sum_of_best: Duration,
    /// The time of the fastest attempt that has a time on every checkpoint
    /// of the group.
    pub sum_of_best_nonsubsplit: Duration,
    /// The group holds more than one checkpoint.
    pub has_subsplits: bool,
}

/// What a `Segment` stands for: durations as nanoseconds.
pub struct SegmentView {
    pub name: Seq<char>,
    pub sum_of_best: nat,
    pub sum_of_best_nonsubsplit: nat,
    pub has_subsplits: bool,
}

impl View for Segment {
    type V = SegmentView;

    open spec fn view(&self) -> SegmentView {
        SegmentView {
            name: self.name@,
            sum_of_best: self.sum_of_best@,
            sum_of_best_nonsubsplit: self.sum_of_best_nonsubsplit@,
            has_subsplits: self.has_subsplits,
        }
    }
}

/// The views of a list of segments.
pub open spec fn segment_views(list: Seq<Segment>) -> Seq<SegmentView> {
    Seq::new(list.len(), |i: int| list[i]@)
}

/// A name that marks a member of a group: it starts with `-`.
pub open spec fn is_member_name(name: Seq<char>) -> bool {
    name.len() > 0 && name[0] == '-'
}

/// The segment that a group of checkpoints forms, named after its last
/// checkpoint.
pub open spec fn segment_of(group: Seq<SubSplitView>) -> Result<SegmentView, SplitsError> {
    if best_total(group) > u64::MAX || nonsubsplit_total(group) > u64::MAX {
        Err(SplitsError::DurationOverflow)
    } else {
        Ok(
            SegmentView {
                name: group.last().name,
                sum_of_best: best_total(group),
                sum_of_best_nonsubsplit: nonsubsplit_total(group),
                has_subsplits: group.len() > 1,
            },
        )
    }
}

/// The checkpoints at the end of `list` that wait for the one that closes
/// their group.
pub open spec fn pending_group(list: Seq<SubSplitView>) -> Seq<SubSplitView>
    decreases list.len(),
{
    if list.len() == 0 {
        Seq::<SubSplitView>::empty()
    } else if !is_member_name(list.last().name) {
        Seq::<SubSplitView>::empty()
    } else {
        pending_group(list.drop_last()).push(list.last())
    }
}

/// The segments of all groups that are closed within `list`, in order, or
/// the error of the first group whose segment cannot be formed.
pub open spec fn closed_segments(list: Seq<SubSplitView>) -> Result<Seq<SegmentView>, SplitsError>
    decreases list.len(),
{
    if list.len() == 0 {
        Ok(Seq::<SegmentView>::empty())
    } else {
        match closed_segments(list.drop_last()) {
            Err(e) => Err(e),
            Ok(segments) => if is_member_name(list.last().name) {
                Ok(segments)
            } else {
                match segment_of(pending_group(list.drop_last()).push(list.last())) {
                    Ok(segment) => Ok(segments.push(segment)),
                    Err(e) => Err(e),
                }
            },
        }
    }
}

/// The segments that a list of checkpoints forms: every maximal run of
/// member checkpoints together with the checkpoint that closes it. A list
/// that ends inside a group is refused with `UnterminatedGroup`.
pub open spec fn segments_of(list: Seq<SubSplitView>) -> Result<Seq<SegmentView>, SplitsError> {
    match closed_segments(list) {
        Err(e) => Err(e),
        Ok(segments) => if pending_group(list).len() > 0 {
            Err(SplitsError::UnterminatedGroup)
        } else {
            Ok(segments)
        },
    }
}

impl SubSplit {
    /// Whether this checkpoint closes a group: its name does not start with
    /// `-`.
    pub fn is_segment(&self) -> (closes: bool)
        ensures
            closes == !is_member_name(self.name@),
    {
        let name: &str = self.name.as_str();
        if name.is_empty() {
            true
        } else {
            name.get_char(0) != '-'
        }
    }
}

impl Segment {
    /// Forms the segment of a group of checkpoints.
    pub fn from_subsplits(group: &[SubSplit]) -> (segment: Result<Segment, SplitsError>)
        requires
            group@.len() > 0,
        ensures
            match segment {
                Ok(s) => segment_of(subsplit_views(group@)) == Ok::<SegmentView, SplitsError>(s@),
                Err(e) => segment_of(subsplit_views(group@)) == Err::<SegmentView, SplitsError>(e),
            },
    {
        let sum_of_best: Duration = match calc_sum_of_best(group) {
            Ok(d) => d,
            Err(e) => {
                return Err(e);
            },
        };
        let sum_of_best_nonsubsplit: Duration = match calc_sum_of_best_nonsubsplit(group) {
            Ok(d) => d,
            Err(e) => {
                return Err(e);
            },
        };
        let last: &SubSplit = &group[group.len() - 1];
        proof {
            assert(subsplit_views(group@).last() == last@);
        }
        Ok(
            Segment {
                name: last.name.clone(),
                sum_of_best,
                sum_of_best_nonsubsplit,
                has_subsplits: group.len() > 1,
            },
        )
    }
}

/// Groups checkpoints into segments.
///
/// Every checkpoint whose name does not start with `-` closes a group and
/// gives its segment the name. A list that ends inside a group is refused.
pub fn group_subsplits(subsplits: &[SubSplit]) -> (segments: Result<Vec<Segment>, SplitsError>)
    ensures
        match segments {
            Ok(list) => segments_of(subsplit_views(subsplits@)) == Ok::<
                Seq<SegmentView>,
                SplitsError,
            >(segment_views(list@)),
            Err(e) => segments_of(subsplit_views(subsplits@)) == Err::<
                Seq<SegmentView>,
                SplitsError,
            >(e),
        },
{
    let ghost views = subsplit_views(subsplits@);
    let mut segments: Vec<Segment> = Vec::new();
    let mut start: usize = 0;
    let mut i: usize = 0;
    proof {
        assert(views.take(0) == Seq::<SubSplitView>::empty());
        assert(segment_views(segments@) == Seq::<SegmentView>::empty());
        assert(views.subrange(0, 0) == Seq::<SubSplitView>::empty());
    }
    while i < subsplits.len()
        invariant
            start <= i <= subsplits.len(),
            views == subsplit_views(subsplits@),
            closed_segments(views.take(i as int)) == Ok::<Seq<SegmentView>, SplitsError>(
                segment_views(segments@),
            ),
            pending_group(views.take(i as int)) == views.subrange(start as int, i as int),
        decreases subsplits.len() - i,
    {
        let ghost before = segment_views(segments@);
        proof {
            assert(views.take(i + 1).drop_last() == views.take(i as int));
            assert(views.take(i + 1).last() == subsplits@[i as int]@);
            assert(views.subrange(start as int, i as int).push(views[i as int])
                == views.subrange(start as int, i + 1));
        }
        if subsplits[i].is_segment() {
            let group: &[SubSplit] = slice_subrange(subsplits, start, i + 1);
            proof {
                assert(subsplit_views(group@) == views.subrange(start as int, i + 1));
            }
            match Segment::from_subsplits(group) {
                Ok(segment) => {
                    segments.push(segment);
                    proof {
                        assert(segment_views(segments@) == before.push(segment@));
                    }
                },
                Err(e) => {
                    proof {
                        lemma_closed_segments_error(views, i + 1);
                    }
                    return Err(e);
                },
            }
            start = i + 1;
            proof {
                assert(views.subrange(start as int, start as int) == Seq::<SubSplitView>::empty());
            }
        }
        i += 1;
    }
    proof {
        assert(views.take(i as int) == views);
    }
    if start < i {
        Err(SplitsError::UnterminatedGroup)
    } else {
        Ok(segments)
    }
}

/// The pending group is the longest end of the list that holds members
/// only: all its checkpoints have member names, and the checkpoint before
/// it, where there is one, closes a group.
pub proof fn lemma_pending_group(list: Seq<SubSplitView>)
    ensures
        pending_group(list).len() <= list.len(),
        pending_group(list) == list.skip(list.len() - pending_group(list).len()),
        forall|i: int|
            0 <= i < pending_group(list).len() ==> is_member_name(
                (#[trigger] pending_group(list)[i]).name,
            ),
        pending_group(list).len() < list.len() ==> !is_member_name(
            list[list.len() - pending_group(list).len() - 1].name,
        ),
    decreases list.len(),
{
    if list.len() > 0 && is_member_name(list.last().name) {
        let before = list.drop_last();
        lemma_pending_group(before);
        let k = before.len() - pending_group(before).len();
        assert(before.skip(k).push(list.last()) == list.skip(k));
        if pending_group(before).len() < before.len() {
            assert(before[k - 1] == list[k - 1]);
        }
    } else {
        assert(list.skip(list.len() as int) == Seq::<SubSplitView>::empty());
    }
}

/// Every segment is the segment of a group: where the list ends on a
/// checkpoint that closes a group, the last segment is formed from the
/// members pending before it and that checkpoint, and the segments before
/// it are those of the list without this group.
pub proof fn lemma_last_segment(list: Seq<SubSplitView>)
    requires
        list.len() > 0,
        !is_member_name(list.last().name),
        segments_of(list) is Ok,
    ensures
        segments_of(list)->Ok_0.len() > 0,
        segment_of(pending_group(list.drop_last()).push(list.last())) == Ok::<
            SegmentView,
            SplitsError,
        >(segments_of(list)->Ok_0.last()),
        closed_segments(list.drop_last()) == Ok::<Seq<SegmentView>, SplitsError>(
            segments_of(list)->Ok_0.drop_last(),
        ),
        segments_of(list)->Ok_0.last().name == list.last().name,
{
    let before = closed_segments(list.drop_last())->Ok_0;
    let segment = segment_of(pending_group(list.drop_last()).push(list.last()))->Ok_0;
    assert(before.push(segment).drop_last() == before);
}

/// An error among the groups closed in a beginning of the list is the error
/// of the whole list.
pub proof fn lemma_closed_segments_error(list: Seq<SubSplitView>, n: int)
    requires
        0 <= n <= list.len(),
        closed_segments(list.take(n)) is Err,
    ensures
        closed_segments(list) == closed_segments(list.take(n)),
        segments_of(list) == closed_segments(list.take(n)),
    decreases list.len() - n,
{
    if n == list.len() {
        assert(list.take(n) == list);
    } else {
        assert(list.drop_last().take(n) == list.take(n));
        lemma_closed_segments_error(list.drop_last(), n);
    }
}

/// The sum of best times does not depend on how the additions are grouped:
/// the sum over a list cut in two is the sum over the first part plus the
/// sum over the second.
pub proof fn lemma_best_total_concat(a: Seq<SubSplitView>, b: Seq<SubSplitView>)
    ensures
        best_total(a + b) == best_total(a) + best_total(b),
    decreases b.len(),
{
    if b.len() == 0 {
        assert(a + b == a);
    } else {
        lemma_best_total_concat(a, b.drop_last());
        assert((a + b).drop_last() == a + b.drop_last());
    }
}

/// The sum of best times does not depend on the order of the additions: any
/// checkpoint may be taken out of the list and added last.
pub proof fn lemma_best_total_any_order(list: Seq<SubSplitView>, i: int)
    requires
        0 <= i < list.len(),
    ensures
        best_total(list) == best_total(list.remove(i)) + list[i].best_time,
{
    let head = list.take(i);
    let tail = list.skip(i + 1);
    let one = seq![list[i]];
    assert(list == head + one + tail);
    assert(list.remove(i) == head + tail);
    lemma_best_total_concat(head + one, tail);
    lemma_best_total_concat(head, one);
    lemma_best_total_concat(head, tail);
    assert(one.drop_last() == Seq::<SubSplitView>::empty());
    assert(best_total(one.drop_last()) == 0);
    assert(best_total(one) == list[i].best_time);
}

/// Where some attempt is complete, a fastest complete attempt exists.
pub proof fn lemma_best_attempt_exists(list: Seq<SubSplitView>, id: u32)
    requires
        is_complete(list, id),
    ensures
        best_attempt_total(list) is Some,
        is_best_attempt_total(list, best_attempt_total(list)->0),
    decreases attempt_total(list, id),
{
    let total = attempt_total(list, id);
    if forall|k: u32| is_complete(list, k) ==> total <= #[trigger] attempt_total(list, k) {
        assert(is_best_attempt_total(list, total));
    } else {
        let k = choose|k: u32| is_complete(list, k) && !(total <= #[trigger] attempt_total(list, k));
        lemma_best_attempt_exists(list, k);
    }
}

/// The time of the fastest complete attempt is a true minimum: every
/// attempt that has a time on every checkpoint took at least that long.
pub proof fn lemma_best_attempt_is_minimum(list: Seq<SubSplitView>, id: u32)
    requires
        is_complete(list, id),
    ensures
        best_attempt_total(list) is Some,
        nonsubsplit_total(list) <= attempt_total(list, id),
        segment_of(list) matches Ok(segment) ==> segment.sum_of_best_nonsubsplit <= attempt_total(
            list,
            id,
        ),
{
    lemma_best_attempt_exists(list, id);
}

/// The time of the fastest complete attempt is the time of an attempt that
/// has a time on every checkpoint.
pub proof fn lemma_best_attempt_is_complete(list: Seq<SubSplitView>)
    requires
        best_attempt_total(list) is Some,
    ensures
        exists|id: u32|
            is_complete(list, id) && #[trigger] attempt_total(list, id) == best_attempt_total(
                list,
            )->0,
{
    let total = choose|total: nat| is_best_attempt_total(list, total);
    assert(is_best_attempt_total(list, total));
}

/// The checkpoints of `list` with the attempts in `erased` struck from every
/// history.
pub open spec fn without_attempts(list: Seq<SubSplitView>, erased: Set<u32>) -> Seq<SubSplitView> {
    Seq::new(
        list.len(),
        |i: int|
            SubSplitView {
                name: list[i].name,
                attempts: list[i].attempts.remove_keys(erased),
                best_time: list[i].best_time,
            },
    )
}

/// Striking attempts from the histories leaves the totals of all other
/// attempts as they were.
pub proof fn lemma_attempt_total_without(list: Seq<SubSplitView>, erased: Set<u32>, id: u32)
    requires
        !erased.contains(id),
    ensures
        attempt_total(without_attempts(list, erased), id) == attempt_total(list, id),
    decreases list.len(),
{
    if list.len() > 0 {
        lemma_attempt_total_without(list.drop_last(), erased, id);
        assert(without_attempts(list, erased).drop_last() == without_attempts(
            list.drop_last(),
            erased,
        ));
    }
}

/// Only attempts that have a time on every checkpoint count: striking any
/// attempts that miss a checkpoint from all histories changes neither the
/// time of the fastest complete attempt nor the segment.
pub proof fn lemma_incomplete_attempts_do_not_count(list: Seq<SubSplitView>, erased: Set<u32>)
    requires
        forall|id: u32| erased.contains(id) ==> !is_complete(list, id),
    ensures
        best_attempt_total(without_attempts(list, erased)) == best_attempt_total(list),
        nonsubsplit_total(without_attempts(list, erased)) == nonsubsplit_total(list),
{
    let rest = without_attempts(list, erased);
    assert forall|id: u32| is_complete(rest, id) == is_complete(list, id) by {
        if is_complete(list, id) {
            assert forall|i: int| 0 <= i < rest.len() implies (#[trigger] rest[i]).attempts.contains_key(
                id,
            ) by {
                assert(list[i].attempts.contains_key(id));
            }
        }
        if is_complete(rest, id) {
            assert forall|i: int| 0 <= i < list.len() implies (#[trigger] list[i]).attempts.contains_key(
                id,
            ) by {
                assert(rest[i].attempts.contains_key(id));
            }
        }
    }
    assert forall|id: u32| is_complete(list, id) implies attempt_total(rest, id) == attempt_total(
        list,
        id,
    ) by {
        lemma_attempt_total_without(list, erased, id);
    }
    assert forall|total: nat| is_best_attempt_total(rest, total) == is_best_attempt_total(
        list,
        total,
    ) by {
        if is_best_attempt_total(list, total) {
            let id = choose|id: u32|
                is_complete(list, id) && #[trigger] attempt_total(list, id) == total;
            assert(is_complete(rest, id) && attempt_total(rest, id) == total);
            assert forall|k: u32| is_complete(rest, k) implies total <= #[trigger] attempt_total(
                rest,
                k,
            ) by {
                assert(is_complete(list, k));
                assert(total <= attempt_total(list, k));
            }
        }
        if is_best_attempt_total(rest, total) {
            let id = choose|id: u32|
                is_complete(rest, id) && #[trigger] attempt_total(rest, id) == total;
            assert(is_complete(list, id) && attempt_total(list, id) == total);
            assert forall|k: u32| is_complete(list, k) implies total <= #[trigger] attempt_total(
                list,
                k,
            ) by {
                assert(is_complete(rest, k));
                assert(total <= attempt_total(rest, k));
            }
        }
    }
    if exists|total: nat| is_best_attempt_total(list, total) {
        let a = choose|total: nat| is_best_attempt_total(list, total);
        let b = choose|total: nat| is_best_attempt_total(rest, total);
        assert(is_best_attempt_total(rest, a));
        assert(is_best_attempt_total(list, b));
        lemma_best_attempt_total_unique(list, a, b);
    }
}

} // verus!
