//! The timeline builder: every ranked program contributes an opening and a
//! closing event, and the events are ordered by time, ties resolved by rank
//! and, within one program, opening before closing. That order is exactly
//! the order in which the sweep must observe the events.

use vstd::prelude::*;
use crate::holder::ObjHolder;
use crate::timed::Timed;

verus! {

/// An opening or closing mark on the timeline. `reference` is the position
/// of the ranked program in the rank-ordered sequence.
#[derive(Clone, Copy, Debug)]
pub enum TimedEvent {
    Start { time: u64, reference: usize },
    End { time: u64, reference: usize },
}

pub open spec fn evt_time(e: TimedEvent) -> u64 {
    match e {
        TimedEvent::Start { time, .. } => time,
        TimedEvent::End { time, .. } => time,
    }
}

pub open spec fn evt_ref(e: TimedEvent) -> usize {
    match e {
        TimedEvent::Start { reference, .. } => reference,
        TimedEvent::End { reference, .. } => reference,
    }
}

pub open spec fn evt_is_end(e: TimedEvent) -> bool {
    e is End
}

/// The strict total order of the timeline: time first, then rank, and for
/// one program's two marks at the same time, opening before closing.
pub open spec fn evt_lt(a: TimedEvent, b: TimedEvent) -> bool {
    ||| evt_time(a) < evt_time(b)
    ||| (evt_time(a) == evt_time(b) && evt_ref(a) < evt_ref(b))
    ||| (evt_time(a) == evt_time(b) && evt_ref(a) == evt_ref(b) && !evt_is_end(a) && evt_is_end(
        b,
    ))
}

/// Distinct events are always ordered one way or the other.
pub proof fn lemma_evt_lt_total(a: TimedEvent, b: TimedEvent)
    requires
        a != b,
    ensures
        evt_lt(a, b) || evt_lt(b, a),
{
    match a {
        TimedEvent::Start { time: ta, reference: ra } => {
            match b {
                TimedEvent::Start { time: tb, reference: rb } => {
                    assert(!(ta == tb && ra == rb));
                },
                TimedEvent::End { .. } => {},
            }
        },
        TimedEvent::End { time: ta, reference: ra } => {
            match b {
                TimedEvent::Start { .. } => {},
                TimedEvent::End { time: tb, reference: rb } => {
                    assert(!(ta == tb && ra == rb));
                },
            }
        },
    }
}

pub open spec fn events_sorted(evs: Seq<TimedEvent>) -> bool {
    forall|a: int, b: int| 0 <= a < b < evs.len() ==> evt_lt(#[trigger] evs[a], #[trigger] evs[b])
}

/// The event agrees with the ranked program it references: an opening mark
/// carries the program's start time, a closing mark its end time.
pub open spec fn evt_wf(arena: Seq<ObjHolder>, e: TimedEvent) -> bool {
    &&& (evt_ref(e) as int) < arena.len()
    &&& evt_time(e) == if evt_is_end(e) {
        arena[evt_ref(e) as int].obj.end
    } else {
        arena[evt_ref(e) as int].obj.start
    }
}

/// `evs` is the timeline of the ranked sequence `arena`: the two marks of
/// every program, in the strict order `evt_lt`.
pub open spec fn timeline_of(arena: Seq<ObjHolder>, evs: Seq<TimedEvent>) -> bool {
    &&& evs.len() == 2 * arena.len()
    &&& events_sorted(evs)
    &&& forall|p: int|
        0 <= p < arena.len() ==> evs.contains(
            TimedEvent::Start { time: (#[trigger] arena[p]).obj.start, reference: p as usize },
        )
    &&& forall|p: int|
        0 <= p < arena.len() ==> evs.contains(
            TimedEvent::End { time: (#[trigger] arena[p]).obj.end, reference: p as usize },
        )
    &&& forall|a: int| 0 <= a < evs.len() ==> evt_wf(arena, #[trigger] evs[a])
}

/// True of the exec comparison exactly when `evt_lt` holds.
fn evt_before(a: &TimedEvent, b: &TimedEvent) -> (r: bool)
    ensures
        r == evt_lt(*a, *b),
{
    let (ta, ra, ea) = match a {
        TimedEvent::Start { time, reference } => (*time, *reference, false),
        TimedEvent::End { time, reference } => (*time, *reference, true),
    };
    let (tb, rb, eb) = match b {
        TimedEvent::Start { time, reference } => (*time, *reference, false),
        TimedEvent::End { time, reference } => (*time, *reference, true),
    };
    ta < tb || (ta == tb && ra < rb) || (ta == tb && ra == rb && !ea && eb)
}

/// Insert an event not yet present at its place in the strict order.
fn insert_event_sorted(evs: &mut Vec<TimedEvent>, e: TimedEvent)
    requires
        events_sorted(old(evs)@),
        forall|a: int| 0 <= a < old(evs)@.len() ==> (#[trigger] old(evs)@[a]) != e,
    ensures
        final(evs)@.len() == old(evs)@.len() + 1,
        events_sorted(final(evs)@),
        forall|x: TimedEvent| #[trigger] final(evs)@.contains(x) <==> (old(evs)@.contains(x) || x
            == e),
{
    let mut pos: usize = 0;
    while pos < evs.len() && evt_before(&evs[pos], &e)
        invariant
            pos <= evs@.len(),
            evs@ == old(evs)@,
            events_sorted(evs@),
            forall|a: int| 0 <= a < pos ==> evt_lt(#[trigger] evs@[a], e),
        decreases evs@.len() - pos,
    {
        pos = pos + 1;
    }
    let ghost before = evs@;
    let ghost ipos = pos as int;
    evs.insert(pos, e);
    proof {
        before.insert_ensures(ipos, e);
        assert forall|a: int| ipos < a < evs@.len() implies evt_lt(e, #[trigger] evs@[a]) by {
            assert(evs@[a] == before[a - 1]);
            assert(!evt_lt(before[ipos], e) || ipos == before.len());
            if a - 1 > ipos {
                assert(evt_lt(before[ipos], before[a - 1]));
            }
            lemma_evt_lt_total(e, before[a - 1]);
            if ipos < before.len() && !evt_lt(e, before[a - 1]) {
                assert(evt_lt(before[a - 1], e));
                assert(evt_lt(before[ipos], e) || before[ipos] == before[a - 1] || evt_lt(
                    before[ipos],
                    before[a - 1],
                ));
            }
        }
        assert forall|a: int, b: int| 0 <= a < b < evs@.len() implies evt_lt(
            #[trigger] evs@[a],
            #[trigger] evs@[b],
        ) by {
            if a < ipos && b < ipos {
                assert(evs@[a] == before[a] && evs@[b] == before[b]);
            } else if a < ipos && b == ipos {
                assert(evs@[a] == before[a]);
            } else if a < ipos && b > ipos {
                assert(evs@[a] == before[a] && evs@[b] == before[b - 1]);
            } else if a == ipos {
                assert(evt_lt(e, evs@[b]));
            } else {
                assert(evs@[a] == before[a - 1] && evs@[b] == before[b - 1]);
            }
        }
        assert forall|x: TimedEvent| #[trigger] evs@.contains(x) implies (before.contains(x) || x
            == e) by {
            let a = choose|a: int| 0 <= a < evs@.len() && evs@[a] == x;
            if a < ipos {
                assert(before[a] == x);
            } else if a > ipos {
                assert(before[a - 1] == x);
            }
        }
        assert forall|x: TimedEvent| (before.contains(x) || x == e) implies #[trigger] evs@
            .contains(x) by {
            if x == e {
                assert(evs@[ipos] == x);
            } else {
                let a = choose|a: int| 0 <= a < before.len() && before[a] == x;
                if a < ipos {
                    assert(evs@[a] == x);
                } else {
                    assert(evs@[a + 1] == x);
                }
            }
        }
    }
}

/// Expand every ranked program into its opening and closing events and order
/// the whole timeline by `evt_lt`.
pub fn create_time_order_events(vec: &Vec<ObjHolder>) -> (r: Vec<TimedEvent>)
    ensures
        timeline_of(vec@, r@),
{
    let n = vec.len();
    let mut evs: Vec<TimedEvent> = Vec::new();
    let mut p: usize = 0;
    while p < n
        invariant
            p <= n == vec.len(),
            evs@.len() == 2 * p,
            events_sorted(evs@),
            forall|a: int| 0 <= a < evs@.len() ==> evt_wf(vec@, #[trigger] evs@[a]),
            forall|a: int| 0 <= a < evs@.len() ==> (evt_ref(#[trigger] evs@[a]) as int) < p,
            forall|q: int|
                0 <= q < p ==> evs@.contains(
                    TimedEvent::Start {
                        time: (#[trigger] vec@[q]).obj.start,
                        reference: q as usize,
                    },
                ),
            forall|q: int|
                0 <= q < p ==> evs@.contains(
                    TimedEvent::End { time: (#[trigger] vec@[q]).obj.end, reference: q as usize },
                ),
        decreases n - p,
    {
        let e1 = TimedEvent::Start { time: vec[p].obj.get_start(), reference: p };
        let e2 = TimedEvent::End { time: vec[p].obj.get_end(), reference: p };
        proof {
            assert forall|a: int| 0 <= a < evs@.len() implies (#[trigger] evs@[a]) != e1 by {
                assert((evt_ref(evs@[a]) as int) < p);
            }
        }
        insert_event_sorted(&mut evs, e1);
        proof {
            assert forall|a: int| 0 <= a < evs@.len() implies (#[trigger] evs@[a]) != e2 by {
                assert(evs@.contains(evs@[a]));
                if evs@[a] == e2 {
                    assert((evt_ref(e2) as int) < p || e2 == e1);
                }
            }
        }
        insert_event_sorted(&mut evs, e2);
        proof {
            assert forall|a: int| 0 <= a < evs@.len() implies evt_wf(vec@, #[trigger] evs@[a])
                && (evt_ref(evs@[a]) as int) < p + 1 by {
                assert(evs@.contains(evs@[a]));
            }
            assert forall|q: int| 0 <= q < p + 1 implies evs@.contains(
                TimedEvent::Start { time: (#[trigger] vec@[q]).obj.start, reference: q as usize },
            ) by {
                if q == p {
                    assert(evs@.contains(e1));
                }
            }
            assert forall|q: int| 0 <= q < p + 1 implies evs@.contains(
                TimedEvent::End { time: (#[trigger] vec@[q]).obj.end, reference: q as usize },
            ) by {
                if q == p {
                    assert(evs@.contains(e2));
                }
            }
        }
        p = p + 1;
    }
    evs
}

} // verus!
