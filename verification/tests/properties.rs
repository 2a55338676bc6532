// The stated properties of the resolution, checked on concrete values:
// coverage is preserved, every covered instant shows the program of highest
// rank, the output is ordered and non-overlapping, and equal priorities are
// decided by input order.

use time_priority_order::Program;
use time_priority_order::TimedEvent;
use time_priority_order::create_time_order_events;
use time_priority_order::recreate_priority_index;
use time_priority_order::time_order_by_priority;

fn complex_input() -> Vec<Program> {
    vec![
        Program { start: 43200, end: 54000, priority: 1, id: 1 },
        Program { start: 48600, end: 55800, priority: 2, id: 2 },
        Program { start: 45000, end: 52200, priority: 3, id: 3 },
        Program { start: 46800, end: 50400, priority: 4, id: 4 },
        Program { start: 57600, end: 59400, priority: 1, id: 5 },
        Program { start: 39600, end: 41400, priority: 1, id: 6 },
    ]
}

fn covered_at(list: &[Program], t: u64) -> bool {
    list.iter().any(|x| x.start <= t && t < x.end)
}

fn winner_id(list: &[Program], t: u64) -> Option<u64> {
    let mut best: Option<(i64, usize)> = None;
    for (i, x) in list.iter().enumerate() {
        if x.start <= t && t < x.end {
            match best {
                Some((bp, bi)) if (x.priority, i) <= (bp, bi) => {},
                _ => best = Some((x.priority, i)),
            }
        }
    }
    best.map(|(_, i)| list[i].id)
}

/// The union of the output ranges equals the union of the input ranges.
#[test]
fn coverage_union_matches_input() {
    let input = complex_input();
    let output = time_order_by_priority(input.clone());
    let mut t = 39000;
    while t < 60600 {
        assert_eq!(covered_at(&input, t), covered_at(&output, t), "instant {}", t);
        t += 300;
    }
}

/// At every covered instant the segment containing it shows the program of
/// highest priority there, later input winning ties.
#[test]
fn winner_shows_at_every_instant() {
    let input = complex_input();
    let output = time_order_by_priority(input.clone());
    let mut t = 39000;
    while t < 60600 {
        if let Some(expected) = winner_id(&input, t) {
            let seg = output.iter().find(|x| x.start <= t && t < x.end).unwrap();
            assert_eq!(seg.id, expected, "instant {}", t);
        }
        t += 300;
    }
}

/// Output segments are well-formed, sorted ascending and pairwise
/// non-overlapping.
#[test]
fn output_sorted_non_overlapping() {
    let output = time_order_by_priority(complex_input());
    for seg in &output {
        assert!(seg.start <= seg.end);
    }
    for pair in output.windows(2) {
        assert!(pair[0].end <= pair[1].start);
    }
}

/// Two programs of equal priority overlapping: the one later in the input
/// keeps the overlapped region.
#[test]
fn later_equal_priority_wins() {
    let prograns = vec![
        Program { start: 43200, end: 50400, priority: 1, id: 1 },
        Program { start: 46800, end: 54000, priority: 1, id: 2 },
    ];
    let ordered = time_order_by_priority(prograns);
    assert_eq!(ordered.len(), 2);
    assert_eq!(ordered[0], Program { start: 43200, end: 46800, priority: 1, id: 1 });
    assert_eq!(ordered[1], Program { start: 46800, end: 54000, priority: 1, id: 2 });
}

/// The timeline holds two marks per program, ordered by time, rank, and
/// opening before closing.
#[test]
fn timeline_ordered_and_complete() {
    let ranked = recreate_priority_index(complex_input());
    let events = create_time_order_events(&ranked);
    assert_eq!(events.len(), 2 * ranked.len());
    let key = |e: &TimedEvent| -> (u64, usize, u8) {
        match e {
            TimedEvent::Start { time, reference } => (*time, *reference, 0),
            TimedEvent::End { time, reference } => (*time, *reference, 1),
        }
    };
    for pair in events.windows(2) {
        assert!(key(&pair[0]) < key(&pair[1]));
    }
    for (p, holder) in ranked.iter().enumerate() {
        assert!(events.iter().any(|e| match e {
            TimedEvent::Start { time, reference } => *reference == p && *time == holder.obj.start,
            TimedEvent::End { .. } => false,
        }));
        assert!(events.iter().any(|e| match e {
            TimedEvent::End { time, reference } => *reference == p && *time == holder.obj.end,
            TimedEvent::Start { .. } => false,
        }));
    }
}

/// A zero-length input range stays a valid zero-length segment in the
/// output.
#[test]
fn zero_length_program_survives() {
    let prograns = vec![
        Program { start: 43200, end: 43200, priority: 5, id: 1 },
        Program { start: 43000, end: 43400, priority: 1, id: 2 },
    ];
    let ordered = time_order_by_priority(prograns);
    for seg in &ordered {
        assert!(seg.start <= seg.end);
    }
    for pair in ordered.windows(2) {
        assert!(pair[0].end <= pair[1].start);
    }
    // the zero-length program covers no instant, so the other keeps its range
    let mut t = 43000;
    while t < 43400 {
        let seg = ordered.iter().find(|x| x.start <= t && t < x.end).unwrap();
        assert_eq!(seg.id, 2);
        t += 50;
    }
}
