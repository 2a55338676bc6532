// The conflict-resolution pipeline end to end. Times are seconds since
// midnight (12:00:00 is 43200); program identities are numeric ids in place
// of names: A = 1, B = 2, C = 3, D = 4, E = 5, F = 6.

use time_priority_order::Program;
use time_priority_order::time_order_by_priority;

const T_11_00: u64 = 39600;
const T_11_30: u64 = 41400;
const T_12_00: u64 = 43200;
const T_12_30: u64 = 45000;
const T_13_00: u64 = 46800;
const T_13_30: u64 = 48600;
const T_14_00: u64 = 50400;
const T_14_30: u64 = 52200;
const T_15_00: u64 = 54000;
const T_15_30: u64 = 55800;
const T_16_00: u64 = 57600;
const T_16_30: u64 = 59400;
const T_17_00: u64 = 61200;
const T_18_00: u64 = 64800;

/// A single program comes back unchanged, as the very same value.
#[test]
fn test_do_nothing() {
    let prograns = vec![Program { start: T_12_00, end: T_15_00, priority: 1, id: 1 }];
    let original = prograns[0];
    let ordered = time_order_by_priority(prograns);
    assert_eq!(ordered.len(), 1);
    assert!(original == *ordered.get(0).unwrap());
}

/// Two programs overlapping for an hour: the higher-priority one keeps the
/// overlapped hour.
#[test]
fn test_simple_case() {
    let prograns = vec![
        Program { start: T_12_00, end: T_15_00, priority: 1, id: 1 },
        Program { start: T_14_00, end: T_16_00, priority: 2, id: 2 },
    ];
    let ordered = time_order_by_priority(prograns);
    assert_eq!(ordered.len(), 2);
    let obj = ordered.get(0).unwrap();
    assert!(obj.id == 1);
    assert!(obj.start == T_12_00);
    assert!(obj.end == T_14_00);
    let obj = ordered.get(1).unwrap();
    assert!(obj.id == 2);
    assert!(obj.start == T_14_00);
    assert!(obj.end == T_16_00);
}

/// The same ranges with the priorities inverted: the earlier program keeps
/// its full range and the later one is cut down.
#[test]
fn test_simple_case_inverse() {
    let prograns = vec![
        Program { start: T_12_00, end: T_15_00, priority: -1, id: 1 },
        Program { start: T_14_00, end: T_16_00, priority: -2, id: 2 },
    ];
    let ordered = time_order_by_priority(prograns);
    assert_eq!(ordered.len(), 2);
    let obj = ordered.get(0).unwrap();
    assert!(obj.id == 1);
    assert!(obj.start == T_12_00);
    assert!(obj.end == T_15_00);
    let obj = ordered.get(1).unwrap();
    assert!(obj.id == 2);
    assert!(obj.start == T_15_00);
    assert!(obj.end == T_16_00);
}

/// Two programs that do not overlap come back as they were.
#[test]
fn test_non_overlap_case() {
    let prograns = vec![
        Program { start: T_12_00, end: T_13_00, priority: 0, id: 1 },
        Program { start: T_14_00, end: T_15_00, priority: 0, id: 2 },
    ];
    let ordered = time_order_by_priority(prograns);
    assert_eq!(ordered.len(), 2);
    let obj = ordered.get(0).unwrap();
    assert!(obj.id == 1);
    assert!(obj.start == T_12_00);
    assert!(obj.end == T_13_00);
    let obj = ordered.get(1).unwrap();
    assert!(obj.id == 2);
    assert!(obj.start == T_14_00);
    assert!(obj.end == T_15_00);
}

/// An overlapping pair followed by a detached third program.
#[test]
fn test_simple_case_with_non_overlap() {
    let prograns = vec![
        Program { start: T_12_00, end: T_15_00, priority: 1, id: 1 },
        Program { start: T_14_00, end: T_16_00, priority: 2, id: 2 },
        Program { start: T_17_00, end: T_18_00, priority: 1, id: 3 },
    ];
    let ordered = time_order_by_priority(prograns);
    assert_eq!(ordered.len(), 3);
    let obj = ordered.get(0).unwrap();
    assert!(obj.id == 1);
    assert!(obj.start == T_12_00);
    assert!(obj.end == T_14_00);
    let obj = ordered.get(1).unwrap();
    assert!(obj.id == 2);
    assert!(obj.start == T_14_00);
    assert!(obj.end == T_16_00);
    let obj = ordered.get(2).unwrap();
    assert!(obj.id == 3);
    assert!(obj.start == T_17_00);
    assert!(obj.end == T_18_00);
}

/// A higher-priority program in the middle of another splits it in two.
#[test]
fn test_a_program_in_the_middle_of_another() {
    let prograns = vec![
        Program { start: T_12_00, end: T_18_00, priority: 1, id: 1 },
        Program { start: T_14_00, end: T_15_00, priority: 2, id: 2 },
    ];
    let ordered = time_order_by_priority(prograns);
    assert_eq!(ordered.len(), 3);
    let obj = ordered.get(0).unwrap();
    assert!(obj.id == 1);
    assert!(obj.start == T_12_00);
    assert!(obj.end == T_14_00);
    let obj = ordered.get(1).unwrap();
    assert!(obj.id == 2);
    assert!(obj.start == T_14_00);
    assert!(obj.end == T_15_00);
    let obj = ordered.get(2).unwrap();
    assert!(obj.id == 1);
    assert!(obj.start == T_15_00);
    assert!(obj.end == T_18_00);
}

/// The same ranges with the priorities inverted: only the outer program
/// shows.
#[test]
fn test_a_program_in_the_middle_of_another_inverted() {
    let prograns = vec![
        Program { start: T_12_00, end: T_18_00, priority: i32::MAX as i64, id: 1 },
        Program { start: T_14_00, end: T_15_00, priority: 2, id: 2 },
    ];
    let ordered = time_order_by_priority(prograns);
    assert_eq!(ordered.len(), 1);
    let obj = ordered.get(0).unwrap();
    assert!(obj.id == 1);
    assert!(obj.start == T_12_00);
    assert!(obj.end == T_18_00);
}

/// One program starting exactly when another ends, under every priority
/// relation: the output always equals the input.
#[test]
fn test_non_overlap_case_with_same_start() {
    let prograns = vec![
        Program { start: T_12_00, end: T_13_00, priority: 0, id: 1 },
        Program { start: T_13_00, end: T_14_00, priority: 0, id: 2 },
    ];
    let mut prograns = time_order_by_priority(prograns);

    let mut iter = prograns.iter();
    let item = iter.next().unwrap();
    assert_eq!(item, &Program { start: T_12_00, end: T_13_00, priority: 0, id: 1 });
    let item = iter.next().unwrap();
    assert_eq!(item, &Program { start: T_13_00, end: T_14_00, priority: 0, id: 2 });
    assert!(iter.next().is_none());

    prograns.get_mut(0).unwrap().priority = 1;
    let mut prograns = time_order_by_priority(prograns);

    let mut iter = prograns.iter();
    let item = iter.next().unwrap();
    assert_eq!(item, &Program { start: T_12_00, end: T_13_00, priority: 1, id: 1 });
    let item = iter.next().unwrap();
    assert_eq!(item, &Program { start: T_13_00, end: T_14_00, priority: 0, id: 2 });
    assert!(iter.next().is_none());

    prograns.get_mut(1).unwrap().priority = 2;
    let prograns = time_order_by_priority(prograns);

    let mut iter = prograns.iter();
    let item = iter.next().unwrap();
    assert_eq!(item, &Program { start: T_12_00, end: T_13_00, priority: 1, id: 1 });
    let item = iter.next().unwrap();
    assert_eq!(item, &Program { start: T_13_00, end: T_14_00, priority: 2, id: 2 });
    assert!(iter.next().is_none());
}

/// Two programs over the very same range: the lower-priority one shrinks to
/// a zero-length segment ahead of the winner.
#[test]
fn test_start_and_finish_same_time() {
    let prograns = vec![
        Program { start: T_12_00, end: T_13_00, priority: 1, id: 1 },
        Program { start: T_12_00, end: T_13_00, priority: 0, id: 2 },
    ];
    let prograns = time_order_by_priority(prograns);
    let mut iter = prograns.iter();
    let item = iter.next().unwrap();
    assert_eq!(item, &Program { start: T_12_00, end: T_12_00, priority: 0, id: 2 });
    let item = iter.next().unwrap();
    assert_eq!(item, &Program { start: T_12_00, end: T_13_00, priority: 1, id: 1 });
    assert!(iter.next().is_none());
}

/// Six programs with nested and staggered overlaps, walking every path of
/// the sweep.
#[test]
fn test_complex_example() {
    let prograns = vec![
        Program { start: T_12_00, end: T_15_00, priority: 1, id: 1 },
        Program { start: T_13_30, end: T_15_30, priority: 2, id: 2 },
        Program { start: T_12_30, end: T_14_30, priority: 3, id: 3 },
        Program { start: T_13_00, end: T_14_00, priority: 4, id: 4 },
        Program { start: T_16_00, end: T_16_30, priority: 1, id: 5 },
        Program { start: T_11_00, end: T_11_30, priority: 1, id: 6 },
    ];
    let ordered = time_order_by_priority(prograns);
    assert_eq!(ordered.len(), 7);

    let mut ordered = ordered.iter();
    let item = ordered.next().unwrap();
    assert_eq!(item, &Program { start: T_11_00, end: T_11_30, priority: 1, id: 6 });
    let item = ordered.next().unwrap();
    assert_eq!(item, &Program { start: T_12_00, end: T_12_30, priority: 1, id: 1 });
    let item = ordered.next().unwrap();
    assert_eq!(item, &Program { start: T_12_30, end: T_13_00, priority: 3, id: 3 });
    let item = ordered.next().unwrap();
    assert_eq!(item, &Program { start: T_13_00, end: T_14_00, priority: 4, id: 4 });
    let item = ordered.next().unwrap();
    assert_eq!(item, &Program { start: T_14_00, end: T_14_30, priority: 3, id: 3 });
    let item = ordered.next().unwrap();
    assert_eq!(item, &Program { start: T_14_30, end: T_15_30, priority: 2, id: 2 });
    let item = ordered.next().unwrap();
    assert_eq!(item, &Program { start: T_16_00, end: T_16_30, priority: 1, id: 5 });
    assert_eq!(ordered.next(), None);
}
