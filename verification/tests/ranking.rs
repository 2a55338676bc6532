// The rank assigner and the program value itself. In
// test_recreate_priority_index the id field plays the part of a secondary
// mark that tells equal-priority programs apart.

use time_priority_order::ObjHolder;
use time_priority_order::Program;
use time_priority_order::Timed;
use time_priority_order::recreate_priority_index;
use time_priority_order::time_order_by_priority;

/// The program value behaves as the pipeline tests expect: full value
/// equality, and a stable sort by priority.
#[test]
fn test_obj() {
    let mut vec = vec![
        Program { start: 43200, end: 54000, priority: 1, id: 1 },
        Program { start: 50400, end: 57600, priority: 2, id: 2 },
        Program { start: 43200, end: 54000, priority: 1, id: 1 },
    ];

    assert_eq!(vec[0], vec[2]);
    assert_ne!(vec[0], vec[1]);
    assert_ne!(vec[2], vec[1]);

    assert!(vec[0].priority < vec[1].priority);
    assert!(vec[2].priority < vec[1].priority);

    vec.sort_by(|a, b| a.priority.cmp(&b.priority));

    assert_eq!(vec[0], vec[1]);
    assert_ne!(vec[0], vec[2]);
    assert_ne!(vec[1], vec[2]);

    assert!(vec[0].priority < vec[2].priority);
    assert!(vec[1].priority < vec[2].priority);
}

/// Ranks are reassigned uniquely, in priority order, with the input order
/// deciding between equal priorities.
#[test]
fn test_recreate_priority_index() {
    let vec = vec![
        Program { start: 1, end: 2, priority: 20, id: 0 },
        Program { start: 1, end: 2, priority: 40, id: 0 },
        Program { start: 0, end: 2, priority: 10, id: 0 },
        Program { start: 0, end: 2, priority: 10, id: 1 },
        Program { start: 1, end: 2, priority: 30, id: 0 },
    ];

    let vec = recreate_priority_index(vec);
    assert_eq!(vec.len(), 5);

    let mut vec = vec.iter();

    let item = vec.next().unwrap();
    assert_eq!(item.obj.priority, 10);
    assert_eq!(item.priority, 1);
    assert_eq!(item.obj.id, 0);

    let item = vec.next().unwrap();
    assert_eq!(item.obj.priority, 10);
    assert_eq!(item.priority, 2);
    assert_eq!(item.obj.id, 1);

    let item = vec.next().unwrap();
    assert_eq!(item.obj.priority, 20);
    assert_eq!(item.priority, 3);

    let item = vec.next().unwrap();
    assert_eq!(item.obj.priority, 30);
    assert_eq!(item.priority, 4);

    let item = vec.next().unwrap();
    assert_eq!(item.obj.priority, 40);
    assert_eq!(item.priority, 5);
}

/// An empty list is returned unchanged.
#[test]
fn empty_input_returns_empty() {
    let ordered = time_order_by_priority(Vec::<Program>::new());
    assert!(ordered.is_empty());
}

/// Wrapping a program gives it the one-based rank for its position.
#[test]
fn holder_new_sets_rank() {
    let prog = Program { start: 5, end: 9, priority: 7, id: 3 };
    let holder = ObjHolder::new((2, prog));
    assert_eq!(holder.priority, 3);
    assert_eq!(holder.obj, prog);
}

/// The timed interface reads and rewrites the program's range.
#[test]
fn timed_interface_reads_and_writes() {
    let mut prog = Program { start: 10, end: 20, priority: 1, id: 4 };
    assert_eq!(prog.get_start(), 10);
    assert_eq!(prog.get_end(), 20);
    prog.set_start(12);
    prog.set_end(18);
    assert_eq!(prog.get_start(), 12);
    assert_eq!(prog.get_end(), 18);
    assert_eq!(prog.priority, 1);
    assert_eq!(prog.id, 4);
}
