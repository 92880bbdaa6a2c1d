use std::collections::BTreeMap;
use sum_of_best::{
    best_complete_attempt, calc_sum_of_best, calc_sum_of_best_nonsubsplit, group_subsplits,
    Duration, Segment, SplitsError, SubSplit, NO_DATA_NANOS,
};

fn tenths(t: u64) -> Duration {
    Duration::from_nanos(t * 100_000_000)
}

fn subsplit(name: &str, best: Duration, attempts: &[(u32, Duration)]) -> SubSplit {
    let mut map = BTreeMap::new();
    for (id, time) in attempts {
        map.insert(*id, *time);
    }
    SubSplit { name: name.to_string(), attempts: map, best_time: best }
}

fn start_group() -> Vec<SubSplit> {
    vec![subsplit(
        "Start",
        Duration::from_nanos(9_123_456_000),
        &[(1, tenths(100)), (2, tenths(125))],
    )]
}

fn end_group() -> Vec<SubSplit> {
    vec![
        subsplit("-Mid", tenths(30), &[(1, tenths(35))]),
        subsplit("End", tenths(20), &[(1, tenths(22)), (2, tenths(21))]),
    ]
}

#[test]
fn segment_of_one_subsplit() {
    let group = start_group();
    assert_eq!(calc_sum_of_best(&group), Ok(Duration::from_nanos(9_123_456_000)));
    assert_eq!(calc_sum_of_best_nonsubsplit(&group), Ok(Duration::from_nanos(10_000_000_000)));
    let segment = Segment::from_subsplits(&group).unwrap();
    assert_eq!(segment.name, "Start");
    assert_eq!(segment.sum_of_best, Duration::from_nanos(9_123_456_000));
    assert_eq!(segment.sum_of_best_nonsubsplit, Duration::from_nanos(10_000_000_000));
    assert!(!segment.has_subsplits);
}

#[test]
fn segment_of_two_subsplits() {
    let group = end_group();
    assert_eq!(calc_sum_of_best(&group), Ok(Duration::from_nanos(5_000_000_000)));
    assert_eq!(calc_sum_of_best_nonsubsplit(&group), Ok(Duration::from_nanos(5_700_000_000)));
    let segment = Segment::from_subsplits(&group).unwrap();
    assert_eq!(segment.name, "End");
    assert_eq!(segment.sum_of_best, Duration::from_nanos(5_000_000_000));
    assert_eq!(segment.sum_of_best_nonsubsplit, Duration::from_nanos(5_700_000_000));
    assert!(segment.has_subsplits);
}

#[test]
fn sum_of_best_of_nothing_is_zero() {
    assert_eq!(calc_sum_of_best(&[]), Ok(Duration::zero()));
}

#[test]
fn sum_of_best_does_not_depend_on_order() {
    let a = subsplit("-a", Duration::from_nanos(1), &[]);
    let b = subsplit("-b", Duration::from_nanos(20), &[]);
    let c = subsplit("c", Duration::from_nanos(300), &[]);
    let forward = vec![a.clone(), b.clone(), c.clone()];
    let backward = vec![c.clone(), b.clone(), a.clone()];
    let mixed = vec![b.clone(), c.clone(), a.clone()];
    assert_eq!(calc_sum_of_best(&forward), Ok(Duration::from_nanos(321)));
    assert_eq!(calc_sum_of_best(&backward), Ok(Duration::from_nanos(321)));
    assert_eq!(calc_sum_of_best(&mixed), Ok(Duration::from_nanos(321)));
    let head = calc_sum_of_best(&forward[..1]).unwrap();
    let tail = calc_sum_of_best(&forward[1..]).unwrap();
    assert_eq!(head.checked_add(tail), Some(Duration::from_nanos(321)));
}

#[test]
fn sum_of_best_refuses_overflow() {
    let group = vec![
        subsplit("-a", Duration::from_nanos(u64::MAX), &[]),
        subsplit("b", Duration::from_nanos(1), &[]),
    ];
    assert_eq!(calc_sum_of_best(&group), Err(SplitsError::DurationOverflow));
    assert_eq!(Segment::from_subsplits(&group), Err(SplitsError::DurationOverflow));
}

#[test]
fn best_attempt_is_the_minimum_over_complete_attempts() {
    let group = vec![
        subsplit("-a", tenths(1), &[(1, tenths(50)), (2, tenths(10)), (3, tenths(30)), (4, tenths(1))]),
        subsplit("b", tenths(1), &[(1, tenths(10)), (2, tenths(60)), (3, tenths(20))]),
    ];
    assert_eq!(best_complete_attempt(&group), Ok(Some(tenths(50))));
    assert_eq!(calc_sum_of_best_nonsubsplit(&group), Ok(tenths(50)));
}

#[test]
fn attempt_missing_from_a_later_subsplit_does_not_count() {
    let group = vec![
        subsplit("-a", tenths(1), &[(1, tenths(1)), (2, tenths(40))]),
        subsplit("-b", tenths(1), &[(2, tenths(40))]),
        subsplit("c", tenths(1), &[(1, tenths(1)), (2, tenths(40))]),
    ];
    assert_eq!(best_complete_attempt(&group), Ok(Some(tenths(120))));
}

#[test]
fn attempt_missing_from_the_first_subsplit_does_not_count() {
    let group = vec![
        subsplit("-a", tenths(1), &[(2, tenths(40))]),
        subsplit("b", tenths(1), &[(1, tenths(1)), (2, tenths(40))]),
    ];
    assert_eq!(best_complete_attempt(&group), Ok(Some(tenths(80))));
}

#[test]
fn erasing_incomplete_attempts_changes_nothing() {
    let with = vec![
        subsplit("-a", tenths(1), &[(1, tenths(1)), (2, tenths(40)), (7, tenths(2))]),
        subsplit("b", tenths(1), &[(2, tenths(50)), (9, tenths(3))]),
    ];
    let without = vec![
        subsplit("-a", tenths(1), &[(2, tenths(40))]),
        subsplit("b", tenths(1), &[(2, tenths(50))]),
    ];
    assert_eq!(best_complete_attempt(&with), best_complete_attempt(&without));
    assert_eq!(best_complete_attempt(&with), Ok(Some(tenths(90))));
}

#[test]
fn no_complete_attempt_gives_the_no_data_time() {
    let group = vec![
        subsplit("-a", tenths(1), &[(1, tenths(1))]),
        subsplit("b", tenths(1), &[(2, tenths(1))]),
    ];
    assert_eq!(best_complete_attempt(&group), Ok(None));
    assert_eq!(NO_DATA_NANOS, 23 * 3600 * 1_000_000_000);
    assert_eq!(calc_sum_of_best_nonsubsplit(&group), Ok(Duration::from_nanos(NO_DATA_NANOS)));
    let segment = Segment::from_subsplits(&group).unwrap();
    assert_eq!(segment.sum_of_best_nonsubsplit, Duration::from_nanos(82_800_000_000_000));
}

#[test]
fn no_attempt_at_all_gives_the_no_data_time() {
    let group = vec![subsplit("a", tenths(1), &[])];
    assert_eq!(best_complete_attempt(&group), Ok(None));
    assert_eq!(best_complete_attempt(&[]), Ok(None));
    assert_eq!(calc_sum_of_best_nonsubsplit(&[]), Ok(Duration::from_nanos(NO_DATA_NANOS)));
}

#[test]
fn best_attempt_may_be_longer_than_23_hours() {
    let day = Duration::from_nanos(24 * 3600 * 1_000_000_000);
    let group = vec![subsplit("a", tenths(1), &[(1, day)])];
    assert_eq!(calc_sum_of_best_nonsubsplit(&group), Ok(day));
}

#[test]
fn best_attempt_refuses_overflow() {
    let group = vec![
        subsplit("-a", tenths(1), &[(1, Duration::from_nanos(u64::MAX))]),
        subsplit("b", tenths(1), &[(1, Duration::from_nanos(1))]),
    ];
    assert_eq!(best_complete_attempt(&group), Err(SplitsError::DurationOverflow));
    assert_eq!(calc_sum_of_best_nonsubsplit(&group), Err(SplitsError::DurationOverflow));
    assert_eq!(Segment::from_subsplits(&group), Err(SplitsError::DurationOverflow));
}

#[test]
fn best_attempt_ignores_an_overflowing_attempt_beside_a_shorter_one() {
    let group = vec![
        subsplit("-a", tenths(1), &[(1, Duration::from_nanos(u64::MAX)), (2, tenths(1))]),
        subsplit("b", tenths(1), &[(1, Duration::from_nanos(1)), (2, tenths(2))]),
    ];
    assert_eq!(best_complete_attempt(&group), Ok(Some(tenths(3))));
}

#[test]
fn subsplit_names_decide_what_closes_a_group() {
    assert!(subsplit("Start", tenths(1), &[]).is_segment());
    assert!(!subsplit("-Mid", tenths(1), &[]).is_segment());
    assert!(subsplit("", tenths(1), &[]).is_segment());
    assert!(subsplit("a-b", tenths(1), &[]).is_segment());
    assert!(!subsplit("-", tenths(1), &[]).is_segment());
    assert!(subsplit("\u{2212}Mid", tenths(1), &[]).is_segment());
}

#[test]
fn grouping_closes_a_segment_on_each_plain_name() {
    let mut all = start_group();
    all.extend(end_group());
    let segments = group_subsplits(&all).unwrap();
    assert_eq!(segments.len(), 2);
    assert_eq!(segments[0], Segment::from_subsplits(&start_group()).unwrap());
    assert_eq!(segments[1], Segment::from_subsplits(&end_group()).unwrap());
    assert_eq!(segments[0].name, "Start");
    assert_eq!(segments[1].name, "End");
    assert!(!segments[0].has_subsplits);
    assert!(segments[1].has_subsplits);
}

#[test]
fn grouping_of_nothing_is_nothing() {
    assert_eq!(group_subsplits(&[]), Ok(Vec::new()));
}

#[test]
fn grouping_refuses_a_list_that_ends_inside_a_group() {
    let mut all = start_group();
    all.push(subsplit("-Late", tenths(1), &[]));
    assert_eq!(group_subsplits(&all), Err(SplitsError::UnterminatedGroup));
    assert_eq!(
        group_subsplits(&[subsplit("-Only", tenths(1), &[])]),
        Err(SplitsError::UnterminatedGroup)
    );
}

#[test]
fn grouping_reports_overflow_before_an_open_end() {
    let all = vec![
        subsplit("-a", Duration::from_nanos(u64::MAX), &[]),
        subsplit("b", Duration::from_nanos(1), &[]),
        subsplit("-c", tenths(1), &[]),
    ];
    assert_eq!(group_subsplits(&all), Err(SplitsError::DurationOverflow));
}
