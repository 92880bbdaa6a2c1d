//! Named ranges of segments and the totals accumulated over them.
//!
//! A range starts at the segment named `start` and ends behind the segment
//! named `end`, or runs to the last segment where it has no `end`. A context
//! sees the segments one by one, in order, and adds up those in its range.

use vstd::prelude::*;
use vstd::string::*;
use crate::duration::Duration;
use crate::error::SplitsError;
use crate::segment::{segment_views, Segment, SegmentView};

verus! {

/// A named range of segments.
#[derive(Clone, Debug, PartialEq, Eq)]
pub struct SubSegment {
    pub name: String,
    /// The name of the first segment of the range.
    pub start: String,
    /// The name of the last segment of the range; without one the range runs
    /// to the end.
    pub end: Option<String>,
}

/// What a `SubSegment` stands for.
pub struct SubSegmentView {
    pub name: Seq<char>,
    pub start: Seq<char>,
    pub end: Option<Seq<char>>,
}

impl View for SubSegment {
    type V = SubSegmentView;

    open spec fn view(&self) -> SubSegmentView {
        SubSegmentView {
            name: self.name@,
            start: self.start@,
            end: match self.end {
                Some(end) => Some(end@),
                None => None,
            },
        }
    }
}

/// A range together with what has been accumulated over it so far.
#[derive(Clone, Debug, PartialEq, Eq)]
pub struct SubSegmentContext {
    pub sub_segment: SubSegment,
    /// The sum of `sum_of_best` over the segments seen inside the range.
    pub length: Duration,
    /// The sum of `sum_of_best_nonsubsplit` over the same segments.
    pub length_non_subsplit: Duration,
    /// The next segment lies inside the range.
    pub active: bool,
}

/// What a `SubSegmentContext` stands for: durations as nanoseconds, which
/// here may exceed what a `Duration` holds.
pub struct SubSegmentContextView {
    pub sub_segment: SubSegmentView,
    pub length: nat,
    pub length_non_subsplit: nat,
    pub active: bool,
}

impl View for SubSegmentContext {
    type V = SubSegmentContextView;

    open spec fn view(&self) -> SubSegmentContextView {
        SubSegmentContextView {
            sub_segment: self.sub_segment@,
            length: self.length@,
            length_non_subsplit: self.length_non_subsplit@,
            active: self.active,
        }
    }
}

/// The views of a list of ranges.
pub open spec fn sub_segment_views(list: Seq<SubSegment>) -> Seq<SubSegmentView> {
    Seq::new(list.len(), |i: int| list[i]@)
}

/// The context of a range that has seen no segment.
pub open spec fn fresh(sub_segment: SubSegmentView) -> SubSegmentContextView {
    SubSegmentContextView { sub_segment, length: 0, length_non_subsplit: 0, active: false }
}

/// The context after it has seen one more segment.
///
/// A segment named `start` opens the range; a segment inside the range is
/// added to both totals; a segment named `end` closes the range behind it.
pub open spec fn slurped(context: SubSegmentContextView, segment: SegmentView)
    -> SubSegmentContextView {
    let inside = context.active || context.sub_segment.start == segment.name;
    SubSegmentContextView {
        sub_segment: context.sub_segment,
        length: if inside {
            context.length + segment.sum_of_best
        } else {
            context.length
        },
        length_non_subsplit: if inside {
            context.length_non_subsplit + segment.sum_of_best_nonsubsplit
        } else {
            context.length_non_subsplit
        },
        active: inside && context.sub_segment.end != Some(segment.name),
    }
}

/// The context after it has seen all `segments` in order.
pub open spec fn slurped_all(context: SubSegmentContextView, segments: Seq<SegmentView>)
    -> SubSegmentContextView
    decreases segments.len(),
{
    if segments.len() == 0 {
        context
    } else {
        slurped(slurped_all(context, segments.drop_last()), segments.last())
    }
}

/// Both totals of the context are lengths that a `Duration` can hold.
pub open spec fn fits(context: SubSegmentContextView) -> bool {
    context.length <= u64::MAX && context.length_non_subsplit <= u64::MAX
}

/// The totals of a context never shrink while it sees more segments.
pub proof fn lemma_totals_grow(context: SubSegmentContextView, segments: Seq<SegmentView>, n: int)
    requires
        0 <= n <= segments.len(),
    ensures
        slurped_all(context, segments.take(n)).length <= slurped_all(context, segments).length,
        slurped_all(context, segments.take(n)).length_non_subsplit <= slurped_all(
            context,
            segments,
        ).length_non_subsplit,
    decreases segments.len() - n,
{
    if n == segments.len() {
        assert(segments.take(n) == segments);
    } else {
        assert(segments.drop_last().take(n) == segments.take(n));
        lemma_totals_grow(context, segments.drop_last(), n);
    }
}

/// The sum of `sum_of_best` over `segments`.
pub open spec fn sum_of_best_over(segments: Seq<SegmentView>) -> nat
    decreases segments.len(),
{
    if segments.len() == 0 {
        0
    } else {
        sum_of_best_over(segments.drop_last()) + segments.last().sum_of_best
    }
}

/// The sum of `sum_of_best_nonsubsplit` over `segments`.
pub open spec fn sum_of_best_nonsubsplit_over(segments: Seq<SegmentView>) -> nat
    decreases segments.len(),
{
    if segments.len() == 0 {
        0
    } else {
        sum_of_best_nonsubsplit_over(segments.drop_last())
            + segments.last().sum_of_best_nonsubsplit
    }
}

/// The segments among `segments` that are called `name`, in order.
pub open spec fn segments_named(segments: Seq<SegmentView>, name: Seq<char>) -> Seq<SegmentView>
    decreases segments.len(),
{
    if segments.len() == 0 {
        Seq::<SegmentView>::empty()
    } else if segments.last().name == name {
        segments_named(segments.drop_last(), name).push(segments.last())
    } else {
        segments_named(segments.drop_last(), name)
    }
}

/// A range whose first segment never comes accumulates nothing.
pub proof fn lemma_range_never_started(sub_segment: SubSegmentView, segments: Seq<SegmentView>)
    requires
        forall|j: int| 0 <= j < segments.len() ==> (#[trigger] segments[j]).name != sub_segment.start,
    ensures
        slurped_all(fresh(sub_segment), segments) == fresh(sub_segment),
    decreases segments.len(),
{
    if segments.len() > 0 {
        let before = segments.drop_last();
        assert forall|j: int| 0 <= j < before.len() implies (#[trigger] before[j]).name
            != sub_segment.start by {
            assert(before[j] == segments[j]);
        }
        lemma_range_never_started(sub_segment, before);
        assert(segments.last() == segments[segments.len() - 1]);
    }
}

/// A range that starts and ends on the same name accumulates exactly the
/// segments of that name, each of them once, and is closed behind each.
pub proof fn lemma_single_name_range(sub_segment: SubSegmentView, segments: Seq<SegmentView>)
    requires
        sub_segment.end == Some(sub_segment.start),
    ensures
        slurped_all(fresh(sub_segment), segments).sub_segment == sub_segment,
        !slurped_all(fresh(sub_segment), segments).active,
        slurped_all(fresh(sub_segment), segments).length == sum_of_best_over(
            segments_named(segments, sub_segment.start),
        ),
        slurped_all(fresh(sub_segment), segments).length_non_subsplit
            == sum_of_best_nonsubsplit_over(segments_named(segments, sub_segment.start)),
    decreases segments.len(),
{
    if segments.len() > 0 {
        lemma_single_name_range(sub_segment, segments.drop_last());
        let named = segments_named(segments, sub_segment.start);
        assert(slurped_all(fresh(sub_segment), segments) == slurped(
            slurped_all(fresh(sub_segment), segments.drop_last()),
            segments.last(),
        ));
        if segments.last().name == sub_segment.start {
            assert(named.drop_last() == segments_named(segments.drop_last(), sub_segment.start));
            assert(named.last() == segments.last());
        }
    }
}

/// A range that starts and ends on the same segment accumulates exactly
/// the values of that segment: once, not zero times and not twice.
pub proof fn lemma_single_segment_range(
    sub_segment: SubSegmentView,
    segments: Seq<SegmentView>,
    i: int,
)
    requires
        sub_segment.end == Some(sub_segment.start),
        0 <= i < segments.len(),
        segments[i].name == sub_segment.start,
        forall|j: int|
            0 <= j < segments.len() && j != i ==> (#[trigger] segments[j]).name
                != sub_segment.start,
    ensures
        slurped_all(fresh(sub_segment), segments).sub_segment == sub_segment,
        !slurped_all(fresh(sub_segment), segments).active,
        slurped_all(fresh(sub_segment), segments).length == segments[i].sum_of_best,
        slurped_all(fresh(sub_segment), segments).length_non_subsplit
            == segments[i].sum_of_best_nonsubsplit,
    decreases segments.len(),
{
    let before = segments.drop_last();
    let context = fresh(sub_segment);
    assert(segments.last() == segments[segments.len() - 1]);
    assert(slurped_all(context, segments) == slurped(
        slurped_all(context, before),
        segments.last(),
    ));
    if i == segments.len() - 1 {
        assert forall|j: int| 0 <= j < before.len() implies (#[trigger] before[j]).name
            != sub_segment.start by {
            assert(before[j] == segments[j]);
        }
        lemma_range_never_started(sub_segment, before);
    } else {
        assert(before[i] == segments[i]);
        assert forall|j: int| 0 <= j < before.len() && j != i implies (#[trigger] before[j]).name
            != sub_segment.start by {
            assert(before[j] == segments[j]);
        }
        lemma_single_segment_range(sub_segment, before, i);
    }
}

/// A range that has started and whose end has not come yet accumulates
/// every segment from the first one called `start` on, and is open.
pub proof fn lemma_range_still_open(
    sub_segment: SubSegmentView,
    segments: Seq<SegmentView>,
    first: int,
)
    requires
        0 <= first < segments.len(),
        segments[first].name == sub_segment.start,
        forall|j: int| 0 <= j < first ==> (#[trigger] segments[j]).name != sub_segment.start,
        forall|j: int|
            first <= j < segments.len() ==> sub_segment.end != Some((#[trigger] segments[j]).name),
    ensures
        slurped_all(fresh(sub_segment), segments).sub_segment == sub_segment,
        slurped_all(fresh(sub_segment), segments).active,
        slurped_all(fresh(sub_segment), segments).length == sum_of_best_over(
            segments.skip(first),
        ),
        slurped_all(fresh(sub_segment), segments).length_non_subsplit
            == sum_of_best_nonsubsplit_over(segments.skip(first)),
    decreases segments.len(),
{
    let before = segments.drop_last();
    let rest = segments.skip(first);
    assert(segments.last() == segments[segments.len() - 1]);
    assert(rest.last() == segments.last());
    assert(rest.drop_last() == before.skip(first));
    let context = fresh(sub_segment);
    assert(slurped_all(context, segments) == slurped(
        slurped_all(context, before),
        segments.last(),
    ));
    if first == segments.len() - 1 {
        assert forall|j: int| 0 <= j < before.len() implies (#[trigger] before[j]).name
            != sub_segment.start by {
            assert(before[j] == segments[j]);
        }
        lemma_range_never_started(sub_segment, before);
        assert(rest.drop_last() == Seq::<SegmentView>::empty());
        assert(sum_of_best_over(rest.drop_last()) == 0);
        assert(sum_of_best_nonsubsplit_over(rest.drop_last()) == 0);
    } else {
        assert(before[first] == segments[first]);
        assert forall|j: int| 0 <= j < first implies (#[trigger] before[j]).name
            != sub_segment.start by {
            assert(before[j] == segments[j]);
        }
        assert forall|j: int| first <= j < before.len() implies sub_segment.end != Some(
            (#[trigger] before[j]).name,
        ) by {
            assert(before[j] == segments[j]);
        }
        lemma_range_still_open(sub_segment, before, first);
    }
}

/// A range without an end accumulates every segment from the first one
/// called `start` to the last segment of all, and stays open.
pub proof fn lemma_open_range(sub_segment: SubSegmentView, segments: Seq<SegmentView>, first: int)
    requires
        sub_segment.end is None,
        0 <= first < segments.len(),
        segments[first].name == sub_segment.start,
        forall|j: int| 0 <= j < first ==> (#[trigger] segments[j]).name != sub_segment.start,
    ensures
        slurped_all(fresh(sub_segment), segments).sub_segment == sub_segment,
        slurped_all(fresh(sub_segment), segments).active,
        slurped_all(fresh(sub_segment), segments).length == sum_of_best_over(
            segments.skip(first),
        ),
        slurped_all(fresh(sub_segment), segments).length_non_subsplit
            == sum_of_best_nonsubsplit_over(segments.skip(first)),
{
    lemma_range_still_open(sub_segment, segments, first);
}

/// A range accumulates the segments from its first to its last, both
/// included, and nothing else: from the first segment called `start` to the
/// next segment called `end`, provided that no later segment is called
/// `start` again.
pub proof fn lemma_closed_range(
    sub_segment: SubSegmentView,
    segments: Seq<SegmentView>,
    first: int,
    last: int,
)
    requires
        0 <= first <= last < segments.len(),
        segments[first].name == sub_segment.start,
        forall|j: int| 0 <= j < first ==> (#[trigger] segments[j]).name != sub_segment.start,
        sub_segment.end == Some(segments[last].name),
        forall|j: int| first <= j < last ==> sub_segment.end != Some((#[trigger] segments[j]).name),
        forall|j: int|
            last < j < segments.len() ==> (#[trigger] segments[j]).name != sub_segment.start,
    ensures
        slurped_all(fresh(sub_segment), segments).sub_segment == sub_segment,
        !slurped_all(fresh(sub_segment), segments).active,
        slurped_all(fresh(sub_segment), segments).length == sum_of_best_over(
            segments.subrange(first, last + 1),
        ),
        slurped_all(fresh(sub_segment), segments).length_non_subsplit
            == sum_of_best_nonsubsplit_over(segments.subrange(first, last + 1)),
    decreases segments.len(),
{
    let before = segments.drop_last();
    let inside = segments.subrange(first, last + 1);
    let context = fresh(sub_segment);
    assert(segments.last() == segments[segments.len() - 1]);
    assert(slurped_all(context, segments) == slurped(
        slurped_all(context, before),
        segments.last(),
    ));
    if last < segments.len() - 1 {
        assert(before[first] == segments[first]);
        assert(before[last] == segments[last]);
        assert forall|j: int| 0 <= j < first implies (#[trigger] before[j]).name
            != sub_segment.start by {
            assert(before[j] == segments[j]);
        }
        assert forall|j: int| first <= j < last implies sub_segment.end != Some(
            (#[trigger] before[j]).name,
        ) by {
            assert(before[j] == segments[j]);
        }
        assert forall|j: int| last < j < before.len() implies (#[trigger] before[j]).name
            != sub_segment.start by {
            assert(before[j] == segments[j]);
        }
        lemma_closed_range(sub_segment, before, first, last);
        assert(before.subrange(first, last + 1) == inside);
    } else {
        assert(inside.last() == segments.last());
        assert(inside.drop_last() == before.skip(first));
        if first == last {
            assert forall|j: int| 0 <= j < before.len() implies (#[trigger] before[j]).name
                != sub_segment.start by {
                assert(before[j] == segments[j]);
            }
            lemma_range_never_started(sub_segment, before);
            assert(inside.drop_last() == Seq::<SegmentView>::empty());
            assert(sum_of_best_over(inside.drop_last()) == 0);
            assert(sum_of_best_nonsubsplit_over(inside.drop_last()) == 0);
        } else {
            assert(before[first] == segments[first]);
            assert forall|j: int| 0 <= j < first implies (#[trigger] before[j]).name
                != sub_segment.start by {
                assert(before[j] == segments[j]);
            }
            assert forall|j: int| first <= j < before.len() implies sub_segment.end != Some(
                (#[trigger] before[j]).name,
            ) by {
                assert(before[j] == segments[j]);
            }
            lemma_range_still_open(sub_segment, before, first);
        }
    }
}

impl SubSegment {
    /// A copy of the range.
    pub fn duplicate(&self) -> (copy: SubSegment)
        ensures
            copy@ == self@,
    {
        SubSegment {
            name: self.name.clone(),
            start: self.start.clone(),
            end: match &self.end {
                Some(end) => Some(end.clone()),
                None => None,
            },
        }
    }
}

impl SubSegmentContext {
    /// The context of a range that has seen no segment.
    pub fn new(sub_segment: SubSegment) -> (context: SubSegmentContext)
        ensures
            context@ == fresh(sub_segment@),
            context.sub_segment == sub_segment,
    {
        SubSegmentContext {
            sub_segment,
            length: Duration { nanos: 0 },
            length_non_subsplit: Duration { nanos: 0 },
            active: false,
        }
    }

    /// Whether the second total is worth showing: it is longer than one
    /// nanosecond.
    pub fn shows_non_subsplit(&self) -> (shown: bool)
        ensures
            shown == (self.length_non_subsplit@ > 1),
    {
        self.length_non_subsplit.nanos > 1
    }

    /// Lets the context see the next segment.
    ///
    /// Where a total would grow beyond what a `Duration` holds, the segment
    /// is refused with `DurationOverflow` and the context stays as it was.
    pub fn slurp(&mut self, segment: &Segment) -> (seen: Result<(), SplitsError>)
        ensures
            final(self).sub_segment == old(self).sub_segment,
            match seen {
                Ok(_) => final(self)@ == slurped(old(self)@, segment@),
                Err(e) => e == SplitsError::DurationOverflow && !fits(
                    slurped(old(self)@, segment@),
                ) && *final(self) == *old(self),
            },
    {
        let inside: bool = self.active || self.sub_segment.start == segment.name;
        if inside {
            let length: Duration = match self.length.checked_add(segment.sum_of_best) {
                Some(d) => d,
                None => {
                    return Err(SplitsError::DurationOverflow);
                },
            };
            let length_non_subsplit: Duration = match self.length_non_subsplit.checked_add(
                segment.sum_of_best_nonsubsplit,
            ) {
                Some(d) => d,
                None => {
                    return Err(SplitsError::DurationOverflow);
                },
            };
            self.length = length;
            self.length_non_subsplit = length_non_subsplit;
        }
        let closes: bool = match &self.sub_segment.end {
            Some(end) => *end == segment.name,
            None => false,
        };
        self.active = inside && !closes;
        Ok(())
    }

    /// Lets the context see all `segments` in order.
    ///
    /// Where a total would grow beyond what a `Duration` holds, the run is
    /// refused with `DurationOverflow`; the context then has seen the
    /// segments before the first one that was too much.
    pub fn slurp_all(&mut self, segments: &[Segment]) -> (seen: Result<(), SplitsError>)
        ensures
            final(self).sub_segment == old(self).sub_segment,
            match seen {
                Ok(_) => final(self)@ == slurped_all(old(self)@, segment_views(segments@)),
                Err(e) => {
                    &&& e == SplitsError::DurationOverflow
                    &&& !fits(slurped_all(old(self)@, segment_views(segments@)))
                    &&& exists|n: int|
                        0 <= n < segments@.len() && final(self)@ == slurped_all(
                            old(self)@,
                            #[trigger] segment_views(segments@).take(n),
                        ) && !fits(
                            slurped_all(old(self)@, segment_views(segments@).take(n + 1)),
                        )
                },
            },
    {
        let ghost views = segment_views(segments@);
        let mut i: usize = 0;
        proof {
            assert(views.take(0) == Seq::<SegmentView>::empty());
        }
        while i < segments.len()
            invariant
                i <= segments.len(),
                views == segment_views(segments@),
                self.sub_segment == old(self).sub_segment,
                self@ == slurped_all(old(self)@, views.take(i as int)),
            decreases segments.len() - i,
        {
            proof {
                assert(views.take(i + 1).drop_last() == views.take(i as int));
                assert(views.take(i + 1).last() == segments@[i as int]@);
            }
            match self.slurp(&segments[i]) {
                Ok(_) => {},
                Err(e) => {
                    proof {
                        lemma_totals_grow(old(self)@, views, i + 1);
                        assert(self@ == slurped_all(old(self)@, views.take(i as int)));
                        assert(!fits(slurped_all(old(self)@, views.take(i + 1))));
                    }
                    return Err(e);
                },
            }
            i += 1;
        }
        proof {
            assert(views.take(i as int) == views);
        }
        Ok(())
    }
}

/// The views of a list of contexts.
pub open spec fn context_views(list: Seq<SubSegmentContext>) -> Seq<SubSegmentContextView> {
    Seq::new(list.len(), |i: int| list[i]@)
}

/// The range of the whole run: from the first segment to the end.
pub open spec fn whole_run(segments: Seq<SegmentView>) -> SubSegmentView {
    SubSegmentView { name: "All Splits"@, start: segments[0].name, end: None }
}

/// The ranges that are accumulated over `segments`: the given ones and,
/// where there is any segment, the whole run behind them.
pub open spec fn ranges_of(sub_segments: Seq<SubSegmentView>, segments: Seq<SegmentView>) -> Seq<
    SubSegmentView,
> {
    if segments.len() > 0 {
        sub_segments.push(whole_run(segments))
    } else {
        sub_segments
    }
}

/// Accumulates the given ranges, and the whole run, over `segments` in a
/// single pass.
///
/// Every context of the result is what its range alone would have
/// accumulated over all segments. The pass is refused with
/// `DurationOverflow` exactly where a total of some range is longer than a
/// duration can be.
pub fn calc_sub_segments(sub_segments: &[SubSegment], segments: &[Segment]) -> (contexts: Result<
    Vec<SubSegmentContext>,
    SplitsError,
>)
    ensures
        match contexts {
            Ok(list) => {
                let ranges = ranges_of(sub_segment_views(sub_segments@), segment_views(segments@));
                &&& list@.len() == ranges.len()
                &&& forall|k: int|
                    0 <= k < ranges.len() ==> (#[trigger] list@[k])@ == slurped_all(
                        fresh(ranges[k]),
                        segment_views(segments@),
                    )
            },
            Err(e) => {
                let ranges = ranges_of(sub_segment_views(sub_segments@), segment_views(segments@));
                &&& e == SplitsError::DurationOverflow
                &&& exists|k: int|
                    0 <= k < ranges.len() && !fits(
                        slurped_all(fresh(#[trigger] ranges[k]), segment_views(segments@)),
                    )
            },
        },
{
    let ghost views = segment_views(segments@);
    let ghost ranges = ranges_of(sub_segment_views(sub_segments@), views);
    let mut contexts: Vec<SubSegmentContext> = Vec::new();
    let mut k: usize = 0;
    while k < sub_segments.len()
        invariant
            k <= sub_segments.len(),
            contexts@.len() == k,
            forall|j: int|
                0 <= j < k ==> (#[trigger] contexts@[j])@ == fresh(sub_segments@[j]@),
        decreases sub_segments.len() - k,
    {
        contexts.push(SubSegmentContext::new(sub_segments[k].duplicate()));
        k += 1;
    }
    if segments.len() > 0 {
        let all: SubSegment = SubSegment {
            name: String::from_str("All Splits"),
            start: segments[0].name.clone(),
            end: None,
        };
        proof {
            assert(all@ == whole_run(views));
        }
        contexts.push(SubSegmentContext::new(all));
    }
    let mut i: usize = 0;
    proof {
        assert(views.take(0) == Seq::<SegmentView>::empty());
    }
    while i < segments.len()
        invariant
            i <= segments.len(),
            views == segment_views(segments@),
            ranges == ranges_of(sub_segment_views(sub_segments@), views),
            contexts@.len() == ranges.len(),
            forall|j: int|
                0 <= j < ranges.len() ==> (#[trigger] contexts@[j])@ == slurped_all(
                    fresh(ranges[j]),
                    views.take(i as int),
                ),
        decreases segments.len() - i,
    {
        proof {
            assert(views.take(i + 1).drop_last() == views.take(i as int));
            assert(views.take(i + 1).last() == segments@[i as int]@);
        }
        let mut k: usize = 0;
        while k < contexts.len()
            invariant
                i < segments.len(),
                k <= contexts.len(),
                views == segment_views(segments@),
                ranges == ranges_of(sub_segment_views(sub_segments@), views),
                contexts@.len() == ranges.len(),
                views.take(i + 1).drop_last() == views.take(i as int),
                views.take(i + 1).last() == segments@[i as int]@,
                forall|j: int|
                    0 <= j < k ==> (#[trigger] contexts@[j])@ == slurped_all(
                        fresh(ranges[j]),
                        views.take(i + 1),
                    ),
                forall|j: int|
                    k <= j < ranges.len() ==> (#[trigger] contexts@[j])@ == slurped_all(
                        fresh(ranges[j]),
                        views.take(i as int),
                    ),
            decreases contexts.len() - k,
        {
            let ghost before = contexts@;
            match contexts[k].slurp(&segments[i]) {
                Ok(_) => {},
                Err(e) => {
                    proof {
                        lemma_totals_grow(fresh(ranges[k as int]), views, i + 1);
                        assert(before[k as int]@ == slurped_all(
                            fresh(ranges[k as int]),
                            views.take(i as int),
                        ));
                        assert(!fits(slurped_all(fresh(ranges[k as int]), views.take(i + 1))));
                        assert(!fits(slurped_all(fresh(ranges[k as int]), views)));
                    }
                    return Err(e);
                },
            }
            proof {
                assert(contexts@.len() == before.len());
                assert(forall|j: int| 0 <= j < before.len() && j != k ==> contexts@[j] == before[j]);
            }
            k += 1;
        }
        i += 1;
    }
    proof {
        assert(views.take(i as int) == views);
    }
    Ok(contexts)
}

} // verus!
