//! The sweep engine: one pass over the time-ordered events, tracking the
//! currently visible program and the set of programs overlapping it, and
//! emitting a finalized segment whenever visibility changes.

use vstd::prelude::*;
use crate::active_list::inserted_at;
use crate::active_list::rank_list_insert;
use crate::active_list::rank_list_last;
use crate::active_list::rank_list_new;
use crate::active_list::rank_list_remove;
use crate::active_list::rank_list_search;
use crate::active_list::rank_list_view;
use crate::holder::ObjHolder;
use crate::holder::lemma_ranked_unique;
use crate::holder::ranked_of;
use crate::holder::recreate_priority_index;
use crate::holder::src_appears;
use crate::ordering::covered;
use crate::ordering::covers;
use crate::ordering::key_lt;
use crate::ordering::payload_eq;
use crate::ordering::wins;
use crate::timed::Program;
use crate::timed::Timed;
use crate::timeline::TimedEvent;
use crate::timeline::create_time_order_events;
use crate::timeline::events_sorted;
use crate::timeline::evt_is_end;
use crate::timeline::evt_lt;
use crate::timeline::evt_ref;
use crate::timeline::evt_time;
use crate::timeline::evt_wf;
use crate::timeline::timeline_of;
use sortedlist_rs::SortedList;

verus! {

/// Every ranked program has a well-formed range, and the arena is small
/// enough for its positions to be machine indices.
pub open spec fn arena_wf(arena: Seq<ObjHolder>) -> bool {
    &&& arena.len() <= usize::MAX
    &&& forall|p: int| 0 <= p < arena.len() ==> (#[trigger] arena[p]).obj.start <= arena[p].obj.end
}

/// The ranked program at position `p` is active at instant `t`.
pub open spec fn acovers(arena: Seq<ObjHolder>, p: int, t: int) -> bool {
    0 <= p < arena.len() && arena[p].obj.start <= t < arena[p].obj.end
}

/// Some ranked program is active at instant `t`.
pub open spec fn acovered(arena: Seq<ObjHolder>, t: int) -> bool {
    exists|p: int| #[trigger] acovers(arena, p, t)
}

/// The ranked program at position `p` is the highest-ranked one active at
/// instant `t`.
pub open spec fn atop(arena: Seq<ObjHolder>, p: int, t: int) -> bool {
    &&& acovers(arena, p, t)
    &&& forall|q: int| #[trigger] acovers(arena, q, t) ==> q <= p
}

/// The opening mark of ranked program `p`.
pub open spec fn start_mark(arena: Seq<ObjHolder>, p: int) -> TimedEvent {
    TimedEvent::Start { time: arena[p].obj.start, reference: p as usize }
}

/// The closing mark of ranked program `p`.
pub open spec fn end_mark(arena: Seq<ObjHolder>, p: int) -> TimedEvent {
    TimedEvent::End { time: arena[p].obj.end, reference: p as usize }
}

/// The position of event `e` on the timeline.
pub open spec fn pos_of(evs: Seq<TimedEvent>, e: TimedEvent) -> int {
    choose|a: int| 0 <= a < evs.len() && evs[a] == e
}

/// An opening event of ranked program `p` lies among the first `k` events.
pub open spec fn opened_in(evs: Seq<TimedEvent>, k: int, p: int) -> bool {
    exists|a: int| 0 <= a < k && !evt_is_end(#[trigger] evs[a]) && evt_ref(evs[a]) as int == p
}

/// A closing event of ranked program `p` lies among the first `k` events.
pub open spec fn closed_in(evs: Seq<TimedEvent>, k: int, p: int) -> bool {
    exists|a: int| 0 <= a < k && evt_is_end(#[trigger] evs[a]) && evt_ref(evs[a]) as int == p
}

/// Ranked program `p` has been opened and not yet closed after the first
/// `k` events.
pub open spec fn active_in(evs: Seq<TimedEvent>, k: int, p: int) -> bool {
    opened_in(evs, k, p) && !closed_in(evs, k, p)
}

proof fn lemma_time_mono(evs: Seq<TimedEvent>, a: int, b: int)
    requires
        events_sorted(evs),
        0 <= a <= b < evs.len(),
    ensures
        evt_time(evs[a]) <= evt_time(evs[b]),
{
    if a < b {
        assert(evt_lt(evs[a], evs[b]));
    }
}

proof fn lemma_pos_unique(evs: Seq<TimedEvent>, a: int, b: int)
    requires
        events_sorted(evs),
        0 <= a < evs.len(),
        0 <= b < evs.len(),
        evs[a] == evs[b],
    ensures
        a == b,
{
    if a < b {
        assert(evt_lt(evs[a], evs[b]));
    }
    if b < a {
        assert(evt_lt(evs[b], evs[a]));
    }
}

/// Both marks of program `p` lie on the timeline, the opening one first.
proof fn lemma_mark_positions(arena: Seq<ObjHolder>, evs: Seq<TimedEvent>, p: int)
    requires
        timeline_of(arena, evs),
        arena_wf(arena),
        0 <= p < arena.len(),
    ensures
        0 <= pos_of(evs, start_mark(arena, p)) < evs.len(),
        evs[pos_of(evs, start_mark(arena, p))] == start_mark(arena, p),
        0 <= pos_of(evs, end_mark(arena, p)) < evs.len(),
        evs[pos_of(evs, end_mark(arena, p))] == end_mark(arena, p),
        pos_of(evs, start_mark(arena, p)) < pos_of(evs, end_mark(arena, p)),
{
    assert(evs.contains(start_mark(arena, p)));
    assert(evs.contains(end_mark(arena, p)));
    let sa = pos_of(evs, start_mark(arena, p));
    let sb = pos_of(evs, end_mark(arena, p));
    assert(0 <= sa < evs.len() && evs[sa] == start_mark(arena, p));
    assert(0 <= sb < evs.len() && evs[sb] == end_mark(arena, p));
    assert(evt_lt(start_mark(arena, p), end_mark(arena, p)));
    if sb < sa {
        assert(evt_lt(evs[sb], evs[sa]));
    }
    if sb == sa {
        assert(start_mark(arena, p) == end_mark(arena, p));
    }
}

/// Program `p` counts as opened among the first `k` events exactly when its
/// opening mark's position lies there.
proof fn lemma_opened_iff(arena: Seq<ObjHolder>, evs: Seq<TimedEvent>, k: int, p: int)
    requires
        timeline_of(arena, evs),
        arena_wf(arena),
        0 <= k <= evs.len(),
        0 <= p < arena.len(),
    ensures
        opened_in(evs, k, p) <==> pos_of(evs, start_mark(arena, p)) < k,
{
    lemma_mark_positions(arena, evs, p);
    let sa = pos_of(evs, start_mark(arena, p));
    if opened_in(evs, k, p) {
        let a = choose|a: int|
            0 <= a < k && !evt_is_end(#[trigger] evs[a]) && evt_ref(evs[a]) as int == p;
        assert(evt_wf(arena, evs[a]));
        assert(evs[a] == start_mark(arena, p));
        lemma_pos_unique(evs, a, sa);
    }
    if sa < k {
        assert(!evt_is_end(evs[sa]) && evt_ref(evs[sa]) as int == p);
    }
}

/// Program `p` counts as closed among the first `k` events exactly when its
/// closing mark's position lies there.
proof fn lemma_closed_iff(arena: Seq<ObjHolder>, evs: Seq<TimedEvent>, k: int, p: int)
    requires
        timeline_of(arena, evs),
        arena_wf(arena),
        0 <= k <= evs.len(),
        0 <= p < arena.len(),
    ensures
        closed_in(evs, k, p) <==> pos_of(evs, end_mark(arena, p)) < k,
{
    lemma_mark_positions(arena, evs, p);
    let sb = pos_of(evs, end_mark(arena, p));
    if closed_in(evs, k, p) {
        let a = choose|a: int|
            0 <= a < k && evt_is_end(#[trigger] evs[a]) && evt_ref(evs[a]) as int == p;
        assert(evt_wf(arena, evs[a]));
        assert(evs[a] == end_mark(arena, p));
        lemma_pos_unique(evs, a, sb);
    }
    if sb < k {
        assert(evt_is_end(evs[sb]) && evt_ref(evs[sb]) as int == p);
    }
}

/// A program that is active at an instant lying at or after the last
/// processed event and before the next one is in the active set.
proof fn lemma_cover_active(arena: Seq<ObjHolder>, evs: Seq<TimedEvent>, k: int, q: int, t: int)
    requires
        timeline_of(arena, evs),
        arena_wf(arena),
        1 <= k < evs.len(),
        acovers(arena, q, t),
        evt_time(evs[k - 1]) <= t < evt_time(evs[k]),
    ensures
        active_in(evs, k, q),
{
    lemma_mark_positions(arena, evs, q);
    lemma_opened_iff(arena, evs, k, q);
    lemma_closed_iff(arena, evs, k, q);
    let sa = pos_of(evs, start_mark(arena, q));
    let sb = pos_of(evs, end_mark(arena, q));
    if sa >= k {
        lemma_time_mono(evs, k, sa);
        assert(evt_time(evs[sa]) == arena[q].obj.start);
    }
    if sb < k {
        lemma_time_mono(evs, sb, k - 1);
        assert(evt_time(evs[sb]) == arena[q].obj.end);
    }
}

/// A program whose closing mark is still unprocessed ends no earlier than
/// the next event.
proof fn lemma_unclosed_end_ge(arena: Seq<ObjHolder>, evs: Seq<TimedEvent>, k: int, q: int)
    requires
        timeline_of(arena, evs),
        arena_wf(arena),
        0 <= k < evs.len(),
        0 <= q < arena.len(),
        !closed_in(evs, k, q),
    ensures
        arena[q].obj.end >= evt_time(evs[k]),
{
    lemma_mark_positions(arena, evs, q);
    lemma_closed_iff(arena, evs, k, q);
    let sb = pos_of(evs, end_mark(arena, q));
    lemma_time_mono(evs, k, sb);
    assert(evt_time(evs[sb]) == arena[q].obj.end);
}

/// A program opened among the first `k` events starts no later than the
/// last of them.
proof fn lemma_opened_start_le(arena: Seq<ObjHolder>, evs: Seq<TimedEvent>, k: int, q: int)
    requires
        timeline_of(arena, evs),
        arena_wf(arena),
        1 <= k <= evs.len(),
        0 <= q < arena.len(),
        opened_in(evs, k, q),
    ensures
        arena[q].obj.start <= evt_time(evs[k - 1]),
{
    lemma_mark_positions(arena, evs, q);
    lemma_opened_iff(arena, evs, k, q);
    let sa = pos_of(evs, start_mark(arena, q));
    lemma_time_mono(evs, sa, k - 1);
    assert(evt_time(evs[sa]) == arena[q].obj.start);
}

/// Once the whole timeline is processed, nothing is active any more.
proof fn lemma_all_closed(arena: Seq<ObjHolder>, evs: Seq<TimedEvent>, q: int)
    requires
        timeline_of(arena, evs),
        arena_wf(arena),
        0 <= q < arena.len(),
    ensures
        closed_in(evs, evs.len() as int, q),
{
    lemma_mark_positions(arena, evs, q);
    lemma_closed_iff(arena, evs, evs.len() as int, q);
}

/// No instant at or past the last event's time is covered.
proof fn lemma_no_cover_late(arena: Seq<ObjHolder>, evs: Seq<TimedEvent>, t: int)
    requires
        timeline_of(arena, evs),
        arena_wf(arena),
        evs.len() > 0,
        t >= evt_time(evs[evs.len() - 1]),
    ensures
        !acovered(arena, t),
{
    assert forall|q: int| !(#[trigger] acovers(arena, q, t)) by {
        if 0 <= q < arena.len() {
            lemma_mark_positions(arena, evs, q);
            let sb = pos_of(evs, end_mark(arena, q));
            lemma_time_mono(evs, sb, evs.len() - 1);
            assert(evt_time(evs[sb]) == arena[q].obj.end);
        }
    }
}

/// Which events among the first `k + 1` open `p`: those among the first `k`,
/// or the event at `k` itself.
proof fn lemma_opened_step(evs: Seq<TimedEvent>, k: int, p: int)
    requires
        0 <= k < evs.len(),
    ensures
        opened_in(evs, k + 1, p) <==> (opened_in(evs, k, p) || (!evt_is_end(evs[k]) && evt_ref(
            evs[k],
        ) as int == p)),
{
    if opened_in(evs, k + 1, p) {
        let a = choose|a: int|
            0 <= a < k + 1 && !evt_is_end(#[trigger] evs[a]) && evt_ref(evs[a]) as int == p;
        if a < k {
            assert(opened_in(evs, k, p));
        }
    }
    if opened_in(evs, k, p) {
        let a = choose|a: int|
            0 <= a < k && !evt_is_end(#[trigger] evs[a]) && evt_ref(evs[a]) as int == p;
        assert(0 <= a < k + 1 && !evt_is_end(evs[a]) && evt_ref(evs[a]) as int == p);
    }
    if !evt_is_end(evs[k]) && evt_ref(evs[k]) as int == p {
        assert(0 <= k < k + 1 && !evt_is_end(evs[k]) && evt_ref(evs[k]) as int == p);
    }
}

/// The closing counterpart of the step rule.
proof fn lemma_closed_step(evs: Seq<TimedEvent>, k: int, p: int)
    requires
        0 <= k < evs.len(),
    ensures
        closed_in(evs, k + 1, p) <==> (closed_in(evs, k, p) || (evt_is_end(evs[k]) && evt_ref(
            evs[k],
        ) as int == p)),
{
    if closed_in(evs, k + 1, p) {
        let a = choose|a: int|
            0 <= a < k + 1 && evt_is_end(#[trigger] evs[a]) && evt_ref(evs[a]) as int == p;
        if a < k {
            assert(closed_in(evs, k, p));
        }
    }
    if closed_in(evs, k, p) {
        let a = choose|a: int|
            0 <= a < k && evt_is_end(#[trigger] evs[a]) && evt_ref(evs[a]) as int == p;
        assert(0 <= a < k + 1 && evt_is_end(evs[a]) && evt_ref(evs[a]) as int == p);
    }
    if evt_is_end(evs[k]) && evt_ref(evs[k]) as int == p {
        assert(0 <= k < k + 1 && evt_is_end(evs[k]) && evt_ref(evs[k]) as int == p);
    }
}

/// Rank `x` stands somewhere in the active list.
pub open spec fn in_lv(lv: Seq<usize>, x: int) -> bool {
    exists|a: int| 0 <= a < lv.len() && (#[trigger] lv[a]) as int == x
}

/// The active list holds exactly the ranks of the programs opened and not
/// yet closed, in ascending order.
pub open spec fn lv_matches(evs: Seq<TimedEvent>, k: int, lv: Seq<usize>) -> bool {
    &&& forall|a: int, b: int| 0 <= a < b < lv.len() ==> (#[trigger] lv[a]) < (#[trigger] lv[b])
    &&& forall|a: int| 0 <= a < lv.len() ==> active_in(evs, k, (#[trigger] lv[a]) as int)
    &&& forall|x: int| #[trigger] active_in(evs, k, x) ==> in_lv(lv, x)
}

/// The current program of the sweep: the top of the active list, with a
/// pending segment opened at `cur_start` that reaches at least to the next
/// event.
pub open spec fn cur_state_ok(
    arena: Seq<ObjHolder>,
    evs: Seq<TimedEvent>,
    k: int,
    lv: Seq<usize>,
    cur: usize,
    cur_start: u64,
) -> bool {
    &&& lv.len() > 0
    &&& cur == lv[lv.len() - 1]
    &&& (cur as int) < arena.len()
    &&& arena[cur as int].obj.start <= cur_start
    &&& cur_start <= evt_time(evs[k])
    &&& forall|t: int, q: int|
        cur_start <= t < evt_time(evs[k]) && #[trigger] acovers(arena, q, t) ==> q <= cur as int
}

/// `g` is a fragment of some ranked program: same payload, and a time
/// range inside the program's own.
pub open spec fn afragment_of(arena: Seq<ObjHolder>, g: Program) -> bool {
    exists|p: int|
        0 <= p < arena.len() && payload_eq(g, (#[trigger] arena[p]).obj) && arena[p].obj.start
            <= g.start && g.end <= arena[p].obj.end
}

/// `g` is a fragment of some input program: same payload, and a time range
/// inside the program's own.
pub open spec fn fragment_of(s: Seq<Program>, g: Program) -> bool {
    exists|i: int|
        0 <= i < s.len() && payload_eq(g, #[trigger] s[i]) && s[i].start <= g.start && g.end
            <= s[i].end
}

/// Output segment `q` contains instant `t`.
pub open spec fn seg_contains(res: Seq<Program>, q: int, t: int) -> bool {
    0 <= q < res.len() && res[q].start <= t < res[q].end
}

/// What has been emitted so far: ordered, non-overlapping segments that
/// cover exactly the covered instants before `cur_start`, each showing the
/// highest-ranked program active throughout it.
pub open spec fn res_ok(
    arena: Seq<ObjHolder>,
    evs: Seq<TimedEvent>,
    k: int,
    cur_start: u64,
    res: Seq<Program>,
) -> bool {
    &&& forall|q: int| 0 <= q < res.len() ==> (#[trigger] res[q]).start <= res[q].end
    &&& forall|q: int| 0 <= q < res.len() - 1 ==> (#[trigger] res[q]).end <= res[q + 1].start
    &&& (k < evs.len() ==> forall|q: int|
        0 <= q < res.len() ==> (#[trigger] res[q]).end <= cur_start)
    &&& forall|t: int|
        #![trigger acovered(arena, t)]
        #![trigger covered(res, t)]
        (k < evs.len() ==> t < cur_start) ==> (acovered(arena, t) <==> covered(res, t))
    &&& forall|q: int, t: int|
        #[trigger] seg_contains(res, q, t) ==> exists|p: int|
            #[trigger] atop(arena, p, t) && payload_eq(res[q], arena[p].obj)
    &&& forall|q: int| 0 <= q < res.len() ==> afragment_of(arena, #[trigger] res[q])
}

/// The whole state of the sweep after the first `k` events.
pub open spec fn sweep_inv(
    arena: Seq<ObjHolder>,
    evs: Seq<TimedEvent>,
    k: int,
    lv: Seq<usize>,
    cur: usize,
    cur_start: u64,
    res: Seq<Program>,
) -> bool {
    &&& arena_wf(arena)
    &&& timeline_of(arena, evs)
    &&& 1 <= k <= evs.len()
    &&& lv_matches(evs, k, lv)
    &&& (k < evs.len() ==> cur_state_ok(arena, evs, k, lv, cur, cur_start))
    &&& res_ok(arena, evs, k, cur_start, res)
}



/// The segment emitted when the program at arena position `p`, visible
/// since `s`, is finalized at `t`.
pub open spec fn segment_cut(arena: Seq<ObjHolder>, p: int, s: u64, t: u64) -> Program {
    Program {
        start: s,
        end: t,
        priority: arena[p].obj.priority,
        id: arena[p].obj.id,
    }
}

/// Ranked program `p` is the highest-ranked member of the active set after
/// the first `k` events.
pub open spec fn is_max_active(evs: Seq<TimedEvent>, k: int, p: int) -> bool {
    &&& active_in(evs, k, p)
    &&& forall|q: int| #[trigger] active_in(evs, k, q) ==> q <= p
}

/// The highest-ranked member of the active set after the first `k` events.
pub open spec fn max_active(evs: Seq<TimedEvent>, k: int) -> int {
    choose|p: int| is_max_active(evs, k, p)
}

/// The sweep's remaining output, as a function of the timeline suffix and
/// the visible program `cur` with its pending start `cur_start`: an opening
/// event of higher rank, or the visible program's own closing event,
/// finalizes the pending segment and visibility moves on — to the opened
/// program, to the highest-ranked program still active, or to the next
/// program to open.
pub open spec fn sweep_from(
    arena: Seq<ObjHolder>,
    evs: Seq<TimedEvent>,
    k: int,
    cur: int,
    cur_start: u64,
) -> Seq<Program>
    decreases evs.len() - k,
{
    if k < 0 || k >= evs.len() {
        Seq::<Program>::empty()
    } else {
        let e = evs[k];
        let t = evt_time(e);
        if !evt_is_end(e) {
            if evt_ref(e) as int >= cur {
                seq![segment_cut(arena, cur, cur_start, t)] + sweep_from(
                    arena,
                    evs,
                    k + 1,
                    evt_ref(e) as int,
                    t,
                )
            } else {
                sweep_from(arena, evs, k + 1, cur, cur_start)
            }
        } else {
            if evt_ref(e) as int >= cur {
                let emitted = segment_cut(arena, cur, cur_start, t);
                if exists|p: int| #[trigger] active_in(evs, k + 1, p) {
                    seq![emitted] + sweep_from(arena, evs, k + 1, max_active(evs, k + 1), t)
                } else if k + 1 < evs.len() {
                    seq![emitted] + sweep_from(
                        arena,
                        evs,
                        k + 2,
                        evt_ref(evs[k + 1]) as int,
                        evt_time(evs[k + 1]),
                    )
                } else {
                    seq![emitted]
                }
            } else {
                sweep_from(arena, evs, k + 1, cur, cur_start)
            }
        }
    }
}

/// The rank-ordered sequence of the input, well-defined by
/// `lemma_ranked_unique`.
pub open spec fn rank_order_of(v: Seq<Program>) -> Seq<ObjHolder> {
    choose|r: Seq<ObjHolder>| ranked_of(v, r)
}

/// The sorted timeline of a ranked sequence, well-defined by
/// `lemma_timeline_unique`.
pub open spec fn timeline_seq_of(arena: Seq<ObjHolder>) -> Seq<TimedEvent> {
    choose|e: Seq<TimedEvent>| timeline_of(arena, e)
}

/// The canonical result of the conflict resolution: the input itself when
/// it holds at most one program, and otherwise the sweep's output over the
/// input's rank order and timeline, starting at the first event, which
/// opens the earliest program.
pub open spec fn resolved_order(v: Seq<Program>) -> Seq<Program> {
    if v.len() <= 1 {
        v
    } else {
        let arena = rank_order_of(v);
        let evs = timeline_seq_of(arena);
        sweep_from(arena, evs, 1, evt_ref(evs[0]) as int, evt_time(evs[0]))
    }
}

proof fn lemma_timeline_prefix_eq(
    arena: Seq<ObjHolder>,
    e1: Seq<TimedEvent>,
    e2: Seq<TimedEvent>,
    a: int,
)
    requires
        timeline_of(arena, e1),
        timeline_of(arena, e2),
        arena_wf(arena),
        0 <= a <= e1.len(),
    ensures
        forall|b: int| 0 <= b < a ==> e1[b] == e2[b],
    decreases a,
{
    if a > 0 {
        lemma_timeline_prefix_eq(arena, e1, e2, a - 1);
        let x1 = e1[a - 1];
        let x2 = e2[a - 1];
        if x1 != x2 {
            // each event is one of the marks, so each sequence holds the
            // other's event; the strict order forces it later, both ways
            assert(evt_wf(arena, x2));
            let r2 = evt_ref(x2) as int;
            assert(x2 == if evt_is_end(x2) {
                end_mark(arena, r2)
            } else {
                start_mark(arena, r2)
            });
            assert(e1.contains(x2));
            let b2 = choose|b: int| 0 <= b < e1.len() && e1[b] == x2;
            if b2 < a - 1 {
                assert(e2[b2] == x2);
                lemma_pos_unique(e2, b2, a - 1);
            }
            if b2 == a - 1 {
                assert(x1 == x2);
            }
            assert(b2 > a - 1);
            assert(evt_lt(x1, x2));
            assert(evt_wf(arena, x1));
            let r1 = evt_ref(x1) as int;
            assert(x1 == if evt_is_end(x1) {
                end_mark(arena, r1)
            } else {
                start_mark(arena, r1)
            });
            assert(e2.contains(x1));
            let b1 = choose|b: int| 0 <= b < e2.len() && e2[b] == x1;
            if b1 < a - 1 {
                assert(e1[b1] == x1);
                lemma_pos_unique(e1, b1, a - 1);
            }
            assert(b1 > a - 1);
            assert(evt_lt(x2, x1));
        }
    }
}

/// The sorted timeline of a ranked sequence is unique: `timeline_of` is a
/// function of the ranked sequence.
pub proof fn lemma_timeline_unique(arena: Seq<ObjHolder>, e1: Seq<TimedEvent>, e2: Seq<TimedEvent>)
    requires
        timeline_of(arena, e1),
        timeline_of(arena, e2),
        arena_wf(arena),
    ensures
        e1 == e2,
{
    lemma_timeline_prefix_eq(arena, e1, e2, e1.len() as int);
    assert(e1 =~= e2);
}

/// Inserting the rank of the program being opened updates the active list
/// to match the timeline prefix grown by that opening event.
proof fn lemma_lv_insert(
    arena: Seq<ObjHolder>,
    evs: Seq<TimedEvent>,
    k: int,
    lv0: Seq<usize>,
    lv1: Seq<usize>,
    x: usize,
)
    requires
        timeline_of(arena, evs),
        arena_wf(arena),
        0 <= k < evs.len(),
        lv_matches(evs, k, lv0),
        !evt_is_end(evs[k]),
        evt_ref(evs[k]) == x,
        !opened_in(evs, k, x as int),
        exists|i: int| #[trigger] inserted_at(lv0, lv1, x, i),
    ensures
        lv_matches(evs, k + 1, lv1),
        lv1.len() == lv0.len() + 1,
        in_lv(lv1, x as int),
        forall|y: int| #[trigger] in_lv(lv1, y) <==> (in_lv(lv0, y) || y == x as int),
        lv0.len() > 0 && x > lv0[lv0.len() - 1] ==> lv1[lv1.len() - 1] == x,
        lv0.len() > 0 && x < lv0[lv0.len() - 1] ==> lv1[lv1.len() - 1] == lv0[lv0.len() - 1],
{
    assert(evt_wf(arena, evs[k]));
    let xi = x as int;
    assert(0 <= xi < arena.len());
    // x is not yet active, so it is not in the list
    assert forall|a: int| 0 <= a < lv0.len() implies (#[trigger] lv0[a]) != x by {
        if lv0[a] == x {
            assert(active_in(evs, k, lv0[a] as int));
        }
    }
    let i_ins = choose|i: int| #[trigger] inserted_at(lv0, lv1, x, i);
    lv0.insert_ensures(i_ins, x);
    // strict ascending order
    assert forall|a: int, b: int| 0 <= a < b < lv1.len() implies (#[trigger] lv1[a]) < (
    #[trigger] lv1[b]) by {
        if b < i_ins {
            assert(lv1[a] == lv0[a] && lv1[b] == lv0[b]);
        } else if a < i_ins && b == i_ins {
            assert(lv1[a] == lv0[a] && lv1[b] == x);
            assert(lv0[a] <= x);
        } else if a < i_ins && b > i_ins {
            assert(lv1[a] == lv0[a] && lv1[b] == lv0[b - 1]);
        } else if a == i_ins {
            assert(lv1[a] == x && lv1[b] == lv0[b - 1]);
            assert(x <= lv0[b - 1]);
        } else {
            assert(lv1[a] == lv0[a - 1] && lv1[b] == lv0[b - 1]);
        }
    }
    // membership both ways
    assert forall|y: int| #[trigger] in_lv(lv1, y) implies (in_lv(lv0, y) || y == xi) by {
        let a = choose|a: int| 0 <= a < lv1.len() && (#[trigger] lv1[a]) as int == y;
        if a < i_ins {
            assert(lv0[a] as int == y);
        } else if a > i_ins {
            assert(lv0[a - 1] as int == y);
        }
    }
    assert forall|y: int| (in_lv(lv0, y) || y == xi) implies #[trigger] in_lv(lv1, y) by {
        if y == xi {
            assert(lv1[i_ins] == x);
        } else {
            let a = choose|a: int| 0 <= a < lv0.len() && (#[trigger] lv0[a]) as int == y;
            if a < i_ins {
                assert(lv1[a] as int == y);
            } else {
                assert(lv1[a + 1] as int == y);
            }
        }
    }
    // x is active after the opening event
    lemma_opened_step(evs, k, xi);
    lemma_closed_step(evs, k, xi);
    assert(opened_in(evs, k + 1, xi));
    if closed_in(evs, k, xi) {
        lemma_closed_iff(arena, evs, k, xi);
        lemma_opened_iff(arena, evs, k, xi);
        lemma_mark_positions(arena, evs, xi);
    }
    assert(active_in(evs, k + 1, xi));
    // every list member is active, every active rank is listed
    assert forall|a: int| 0 <= a < lv1.len() implies active_in(evs, k + 1, (#[trigger] lv1[a]) as int) by {
        let y = lv1[a] as int;
        assert(in_lv(lv1, y));
        if y != xi {
            assert(in_lv(lv0, y));
            let a0 = choose|a0: int| 0 <= a0 < lv0.len() && (#[trigger] lv0[a0]) as int == y;
            assert(active_in(evs, k, y));
            lemma_opened_step(evs, k, y);
            lemma_closed_step(evs, k, y);
        }
    }
    assert forall|y: int| #[trigger] active_in(evs, k + 1, y) implies in_lv(lv1, y) by {
        lemma_opened_step(evs, k, y);
        lemma_closed_step(evs, k, y);
        if y != xi {
            assert(active_in(evs, k, y));
        }
    }
    // the new top of the list
    if lv0.len() > 0 && x > lv0[lv0.len() - 1] {
        assert forall|j: int| 0 <= j < lv0.len() implies (#[trigger] lv0[j]) <= lv0[lv0.len() - 1] by {}
        if i_ins < lv0.len() {
            assert(x <= lv0[i_ins]);
        }
        assert(i_ins == lv0.len());
        assert(lv1[lv1.len() - 1] == x);
    }
    if lv0.len() > 0 && x < lv0[lv0.len() - 1] {
        if i_ins == lv0.len() {
            assert(lv0[lv0.len() - 1] <= x);
        }
        assert(i_ins < lv0.len());
        assert(lv1[lv1.len() - 1] == lv0[lv0.len() - 1]);
    }
}

/// Removing the rank of the program being closed updates the active list to
/// match the timeline prefix grown by that closing event.
proof fn lemma_lv_remove(
    arena: Seq<ObjHolder>,
    evs: Seq<TimedEvent>,
    k: int,
    lv0: Seq<usize>,
    lv1: Seq<usize>,
    idx: int,
    x: usize,
)
    requires
        timeline_of(arena, evs),
        arena_wf(arena),
        0 <= k < evs.len(),
        lv_matches(evs, k, lv0),
        evt_is_end(evs[k]),
        evt_ref(evs[k]) == x,
        0 <= idx < lv0.len(),
        lv0[idx] == x,
        lv1 == lv0.remove(idx),
    ensures
        lv_matches(evs, k + 1, lv1),
        lv1.len() == lv0.len() - 1,
        forall|y: int| #[trigger] in_lv(lv1, y) <==> (in_lv(lv0, y) && y != x as int),
        lv1.len() > 0 && idx == lv0.len() - 1 ==> lv1[lv1.len() - 1] == lv0[lv0.len() - 2],
        idx < lv0.len() - 1 ==> lv1[lv1.len() - 1] == lv0[lv0.len() - 1],
{
    let xi = x as int;
    lv0.remove_ensures(idx);
    // distinctness carries over from the strict order
    assert forall|a: int, b: int| 0 <= a < b < lv1.len() implies (#[trigger] lv1[a]) < (
    #[trigger] lv1[b]) by {
        if b < idx {
            assert(lv1[a] == lv0[a] && lv1[b] == lv0[b]);
        } else if a < idx && b >= idx {
            assert(lv1[a] == lv0[a] && lv1[b] == lv0[b + 1]);
        } else {
            assert(lv1[a] == lv0[a + 1] && lv1[b] == lv0[b + 1]);
        }
    }
    // x stands only at idx in lv0
    assert forall|a: int| 0 <= a < lv0.len() && a != idx implies (#[trigger] lv0[a]) != x by {
        if a < idx {
            assert(lv0[a] < lv0[idx]);
        } else {
            assert(lv0[idx] < lv0[a]);
        }
    }
    assert forall|y: int| #[trigger] in_lv(lv1, y) implies (in_lv(lv0, y) && y != xi) by {
        let a = choose|a: int| 0 <= a < lv1.len() && (#[trigger] lv1[a]) as int == y;
        if a < idx {
            assert(lv0[a] as int == y);
            assert(lv0[a] != x);
        } else {
            assert(lv0[a + 1] as int == y);
            assert(lv0[a + 1] != x);
        }
    }
    assert forall|y: int| (in_lv(lv0, y) && y != xi) implies #[trigger] in_lv(lv1, y) by {
        let a = choose|a: int| 0 <= a < lv0.len() && (#[trigger] lv0[a]) as int == y;
        if a < idx {
            assert(lv1[a] as int == y);
        } else {
            assert(a != idx);
            assert(lv1[a - 1] as int == y);
        }
    }
    // membership matches the grown prefix
    assert forall|a: int| 0 <= a < lv1.len() implies active_in(evs, k + 1, (#[trigger] lv1[a]) as int) by {
        let y = lv1[a] as int;
        assert(in_lv(lv1, y));
        let a0 = choose|a0: int| 0 <= a0 < lv0.len() && (#[trigger] lv0[a0]) as int == y;
        assert(active_in(evs, k, y));
        lemma_opened_step(evs, k, y);
        lemma_closed_step(evs, k, y);
        assert(y != xi);
    }
    assert forall|y: int| #[trigger] active_in(evs, k + 1, y) implies in_lv(lv1, y) by {
        lemma_opened_step(evs, k, y);
        lemma_closed_step(evs, k, y);
        assert(active_in(evs, k, y));
        assert(y != xi);
        assert(in_lv(lv0, y));
    }
}


/// An opening event: the opened program joins the active set and, when its
/// rank beats the visible one, the pending segment is finalized and the
/// newcomer becomes visible.
#[verifier::rlimit(80)]
fn process_start_case(
    result: &mut Vec<Program>,
    temp_obj: &mut usize,
    temp_start: &mut u64,
    sorted_list: &mut SortedList<usize>,
    arena: &Vec<ObjHolder>,
    events: &Vec<TimedEvent>,
    k: usize,
    reference: usize,
    time: u64,
)
    requires
        sweep_inv(
            arena@,
            events@,
            k as int,
            rank_list_view(*old(sorted_list)),
            *old(temp_obj),
            *old(temp_start),
            old(result)@,
        ),
        (k as int) < events@.len(),
        events@[k as int] == (TimedEvent::Start { time, reference }),
    ensures
        sweep_inv(
            arena@,
            events@,
            k as int + 1,
            rank_list_view(*final(sorted_list)),
            *final(temp_obj),
            *final(temp_start),
            final(result)@,
        ),
        reference >= *old(temp_obj) ==> final(result)@ == old(result)@.push(
            segment_cut(arena@, *old(temp_obj) as int, *old(temp_start), time),
        ) && *final(temp_obj) == reference && *final(temp_start) == time,
        reference < *old(temp_obj) ==> final(result)@ == old(result)@ && *final(temp_obj) == *old(
            temp_obj,
        ) && *final(temp_start) == *old(temp_start),
{
    let ghost ar = arena@;
    let ghost evs = events@;
    let ghost k0 = k as int;
    let ghost lv0 = rank_list_view(*sorted_list);
    let ghost cur0 = *temp_obj;
    let ghost cs0 = *temp_start;
    let ghost res0 = result@;
    let ghost ref0 = reference as int;
    proof {
        assert(evt_wf(ar, evs[k0]));
        assert(ref0 < ar.len());
        assert(time == ar[ref0].obj.start);
        assert(evt_time(evs[k0]) == time);
        // this opening event is the program's unique opening mark
        lemma_mark_positions(ar, evs, ref0);
        assert(evs[k0] == start_mark(ar, ref0));
        lemma_pos_unique(evs, k0, pos_of(evs, start_mark(ar, ref0)));
        lemma_opened_iff(ar, evs, k0, ref0);
        assert(!opened_in(evs, k0, ref0));
        // the closing mark comes later, so more events follow
        lemma_closed_iff(ar, evs, k0 + 1, ref0);
        assert(pos_of(evs, end_mark(ar, ref0)) > k0);
        assert(k0 + 1 < evs.len());
        // the current program is active and every list member is at most it
        assert(active_in(evs, k0, cur0 as int));
        assert(forall|a: int|
            0 <= a < lv0.len() ==> (#[trigger] lv0[a]) <= lv0[lv0.len() - 1]);
    }
    rank_list_insert(sorted_list, reference);
    let ghost lv1 = rank_list_view(*sorted_list);
    proof {
        lemma_lv_insert(ar, evs, k0, lv0, lv1, reference);
        lemma_time_mono(evs, k0, k0 + 1);
    }
    if reference >= *temp_obj {
        proof {
            // a rank is unique: the newcomer is strictly above the current
            assert(in_lv(lv0, cur0 as int));
            assert(reference != cur0) by {
                if reference == cur0 {
                    assert(active_in(evs, k0, cur0 as int));
                }
            }
            assert(reference > cur0);
            assert(lv1[lv1.len() - 1] == reference);
        }
        let mut out = arena[*temp_obj].obj;
        out.set_start(*temp_start);
        out.set_end(time);
        result.push(out);
        *temp_obj = reference;
        *temp_start = time;
        proof {
            lemma_unclosed_end_ge(ar, evs, k0, cur0 as int);
            assert(out.start == cs0 && out.end == time);
            assert(payload_eq(out, ar[cur0 as int].obj));
            assert(out == segment_cut(ar, cur0 as int, cs0, time));
            let res1 = result@;
            assert(res1 == res0.push(out));
            // the emitted segment shows the top-ranked program throughout
            assert forall|t: int| cs0 <= t < time implies #[trigger] atop(ar, cur0 as int, t) by {
                assert(acovers(ar, cur0 as int, t));
            }
            // ordering and the cover equivalence
            assert forall|q: int| 0 <= q < res1.len() - 1 implies (#[trigger] res1[q]).end <= res1[
                q + 1
            ].start by {
                if q < res0.len() - 1 {
                    assert(res1[q] == res0[q] && res1[q + 1] == res0[q + 1]);
                } else {
                    assert(res1[q] == res0[q] && res1[q + 1] == out);
                }
            }
            assert forall|t: int| t < time implies (acovered(ar, t) <==> covered(res1, t)) by {
                if t < cs0 {
                    assert(acovered(ar, t) <==> covered(res0, t));
                    if covered(res0, t) {
                        let q = choose|q: int|
                            0 <= q < res0.len() && covers(#[trigger] res0[q], t);
                        assert(covers(res1[q], t));
                    }
                    if covered(res1, t) {
                        let q = choose|q: int|
                            0 <= q < res1.len() && covers(#[trigger] res1[q], t);
                        if q < res0.len() {
                            assert(covers(res0[q], t));
                        }
                    }
                } else {
                    assert(acovers(ar, cur0 as int, t));
                    assert(covers(res1[res0.len() as int], t));
                    assert(covered(res1, t));
                }
            }
            assert forall|q: int, t: int| #[trigger] seg_contains(res1, q, t) implies exists|p: int|
                #[trigger] atop(ar, p, t) && payload_eq(res1[q], ar[p].obj) by {
                if q < res0.len() {
                    assert(seg_contains(res0, q, t));
                } else {
                    assert(atop(ar, cur0 as int, t) && payload_eq(res1[q], ar[cur0 as int].obj));
                }
            }
            assert forall|q: int| 0 <= q < res1.len() implies afragment_of(
                ar,
                #[trigger] res1[q],
            ) by {
                if q < res0.len() {
                    assert(res1[q] == res0[q]);
                    assert(afragment_of(ar, res0[q]));
                } else {
                    assert(payload_eq(res1[q], (ar[cur0 as int]).obj) && ar[cur0 as int].obj.start
                        <= res1[q].start && res1[q].end <= ar[cur0 as int].obj.end);
                }
            }
            // the new current state
            assert forall|t: int, q: int|
                time <= t < evt_time(evs[k0 + 1]) && #[trigger] acovers(ar, q, t) implies q
                <= ref0 by {
                lemma_cover_active(ar, evs, k0 + 1, q, t);
                assert(in_lv(lv1, q));
                let a = choose|a: int| 0 <= a < lv1.len() && (#[trigger] lv1[a]) as int == q;
                assert(lv1[a] <= lv1[lv1.len() - 1]);
            }
            assert(cur_state_ok(ar, evs, k0 + 1, lv1, reference, time));
            assert(res_ok(ar, evs, k0 + 1, time, res1));
        }
    } else {
        proof {
            assert(reference < cur0);
            assert(lv1[lv1.len() - 1] == cur0);
            // the window up to the next event still shows the current program
            assert forall|t: int, q: int|
                cs0 <= t < evt_time(evs[k0 + 1]) && #[trigger] acovers(ar, q, t) implies q
                <= cur0 as int by {
                if t < time {
                    assert(q <= cur0 as int);
                } else {
                    lemma_cover_active(ar, evs, k0 + 1, q, t);
                    assert(in_lv(lv1, q));
                    let a = choose|a: int| 0 <= a < lv1.len() && (#[trigger] lv1[a]) as int == q;
                    assert(lv1[a] <= lv1[lv1.len() - 1]);
                }
            }
            assert(cur_state_ok(ar, evs, k0 + 1, lv1, cur0, cs0));
            assert(res_ok(ar, evs, k0 + 1, cs0, res0));
        }
    }
}


/// An opened program's rank is a valid arena position.
proof fn lemma_active_bound(arena: Seq<ObjHolder>, evs: Seq<TimedEvent>, k: int, y: int)
    requires
        timeline_of(arena, evs),
        0 <= k <= evs.len(),
        opened_in(evs, k, y),
    ensures
        0 <= y < arena.len(),
{
    let a = choose|a: int|
        0 <= a < k && !evt_is_end(#[trigger] evs[a]) && evt_ref(evs[a]) as int == y;
    assert(evt_wf(arena, evs[a]));
}

/// A closing event: the closed program leaves the active set; if it was the
/// visible one, its pending segment is finalized and visibility passes to
/// the highest-ranked program still active, or to the next program to open.
#[verifier::rlimit(100)]
fn process_end_case(
    result: &mut Vec<Program>,
    temp_obj: &mut usize,
    temp_start: &mut u64,
    sorted_list: &mut SortedList<usize>,
    inter: &mut usize,
    arena: &Vec<ObjHolder>,
    events: &Vec<TimedEvent>,
    reference: usize,
    time: u64,
)
    requires
        sweep_inv(
            arena@,
            events@,
            *old(inter) as int,
            rank_list_view(*old(sorted_list)),
            *old(temp_obj),
            *old(temp_start),
            old(result)@,
        ),
        (*old(inter) as int) < events@.len(),
        events@[*old(inter) as int] == (TimedEvent::End { time, reference }),
    ensures
        sweep_inv(
            arena@,
            events@,
            *final(inter) as int,
            rank_list_view(*final(sorted_list)),
            *final(temp_obj),
            *final(temp_start),
            final(result)@,
        ),
        *old(inter) < *final(inter) <= events@.len(),
        reference < *old(temp_obj) ==> final(result)@ == old(result)@ && *final(temp_obj) == *old(
            temp_obj,
        ) && *final(temp_start) == *old(temp_start) && *final(inter) == *old(inter) + 1,
        reference >= *old(temp_obj) ==> final(result)@ == old(result)@.push(
            segment_cut(arena@, *old(temp_obj) as int, *old(temp_start), time),
        ),
        reference >= *old(temp_obj) ==> (if exists|p: int|
            #[trigger] active_in(events@, *old(inter) as int + 1, p) {
            &&& *final(inter) == *old(inter) + 1
            &&& is_max_active(events@, *old(inter) as int + 1, *final(temp_obj) as int)
            &&& *final(temp_start) == time
        } else if *old(inter) as int + 1 < events@.len() {
            &&& *final(inter) == *old(inter) + 2
            &&& *final(temp_obj) == evt_ref(events@[*old(inter) as int + 1])
            &&& *final(temp_start) == evt_time(events@[*old(inter) as int + 1])
        } else {
            *final(inter) == *old(inter) + 1
        }),
{
    let ghost ar = arena@;
    let ghost evs = events@;
    let ghost k0 = *inter as int;
    let ghost lv0 = rank_list_view(*sorted_list);
    let ghost cur0 = *temp_obj;
    let ghost cs0 = *temp_start;
    let ghost res0 = result@;
    let ghost ref0 = reference as int;
    let total = events.len();
    *inter = *inter + 1;
    proof {
        assert(k0 < total);
        assert(evt_wf(ar, evs[k0]));
        assert(ref0 < ar.len());
        assert(time == ar[ref0].obj.end);
        assert(evt_time(evs[k0]) == time);
        // this closing event is the program's unique closing mark
        lemma_mark_positions(ar, evs, ref0);
        assert(evs[k0] == end_mark(ar, ref0));
        lemma_pos_unique(evs, k0, pos_of(evs, end_mark(ar, ref0)));
        lemma_closed_iff(ar, evs, k0, ref0);
        assert(!closed_in(evs, k0, ref0));
        lemma_opened_iff(ar, evs, k0, ref0);
        assert(opened_in(evs, k0, ref0));
        assert(active_in(evs, k0, ref0));
        assert(in_lv(lv0, ref0));
        assert(active_in(evs, k0, cur0 as int));
        assert(forall|a: int|
            0 <= a < lv0.len() ==> (#[trigger] lv0[a]) <= lv0[lv0.len() - 1]);
        // the closed rank is bounded by the visible one
        let a0 = choose|a: int| 0 <= a < lv0.len() && (#[trigger] lv0[a]) as int == ref0;
        assert(lv0[a0] <= cur0);
    }
    let found = rank_list_search(sorted_list, reference);
    proof {
        let a0 = choose|a: int| 0 <= a < lv0.len() && (#[trigger] lv0[a]) as int == ref0;
        assert(lv0[a0] == reference);
        assert(lv0.contains(reference));
        assert(found matches Ok(_));
    }
    let ghost mut idxg: int = 0;
    if let Ok(index) = found {
        proof {
            idxg = index as int;
        }
        rank_list_remove(sorted_list, index);
    }
    let ghost lv1 = rank_list_view(*sorted_list);
    proof {
        assert(lv0[idxg] == reference);
        assert(lv1 == lv0.remove(idxg));
        lemma_lv_remove(ar, evs, k0, lv0, lv1, idxg, reference);
    }
    if reference >= *temp_obj {
        proof {
            assert(reference == cur0);
        }
        let mut out = arena[*temp_obj].obj;
        out.set_start(*temp_start);
        out.set_end(time);
        result.push(out);
        let ghost res1 = result@;
        proof {
            assert(out.start == cs0 && out.end == time);
            assert(payload_eq(out, ar[cur0 as int].obj));
            assert(out == segment_cut(ar, cur0 as int, cs0, time));
            assert(ar[cur0 as int].obj.end == time);
            // the emitted segment shows the top-ranked program throughout
            assert forall|t: int| cs0 <= t < time implies #[trigger] atop(ar, cur0 as int, t) by {
                assert(acovers(ar, cur0 as int, t));
            }
            assert forall|q: int| 0 <= q < res1.len() - 1 implies (#[trigger] res1[q]).end <= res1[
                q + 1
            ].start by {
                if q < res0.len() - 1 {
                    assert(res1[q] == res0[q] && res1[q + 1] == res0[q + 1]);
                } else {
                    assert(res1[q] == res0[q] && res1[q + 1] == out);
                }
            }
            // every covered instant before the closing time is in a segment
            assert forall|t: int| t < time implies (acovered(ar, t) <==> covered(res1, t)) by {
                if t < cs0 {
                    assert(acovered(ar, t) <==> covered(res0, t));
                    if covered(res0, t) {
                        let q = choose|q: int|
                            0 <= q < res0.len() && covers(#[trigger] res0[q], t);
                        assert(covers(res1[q], t));
                    }
                    if covered(res1, t) {
                        let q = choose|q: int|
                            0 <= q < res1.len() && covers(#[trigger] res1[q], t);
                        if q < res0.len() {
                            assert(covers(res0[q], t));
                        }
                    }
                } else {
                    assert(acovers(ar, cur0 as int, t));
                    assert(covers(res1[res0.len() as int], t));
                    assert(covered(res1, t));
                }
            }
            assert forall|q: int, t: int| #[trigger] seg_contains(res1, q, t) implies exists|p: int|
                #[trigger] atop(ar, p, t) && payload_eq(res1[q], ar[p].obj) by {
                if q < res0.len() {
                    assert(seg_contains(res0, q, t));
                } else {
                    assert(atop(ar, cur0 as int, t) && payload_eq(res1[q], ar[cur0 as int].obj));
                }
            }
            assert forall|q: int| 0 <= q < res1.len() implies afragment_of(
                ar,
                #[trigger] res1[q],
            ) by {
                if q < res0.len() {
                    assert(res1[q] == res0[q]);
                    assert(afragment_of(ar, res0[q]));
                } else {
                    assert(payload_eq(res1[q], (ar[cur0 as int]).obj) && ar[cur0 as int].obj.start
                        <= res1[q].start && res1[q].end <= ar[cur0 as int].obj.end);
                }
            }
        }
        let last = rank_list_last(sorted_list);
        if let Some(last_item) = last {
            *temp_obj = last_item;
            *temp_start = time;
            proof {
                let res1 = result@;
                let li = last_item as int;
                assert(lv1.len() > 0 && last_item == lv1[lv1.len() - 1]);
                assert(active_in(evs, k0 + 1, li));
                lemma_active_bound(ar, evs, k0 + 1, li);
                // further events must remain: something is still active
                if k0 + 1 == evs.len() {
                    lemma_all_closed(ar, evs, li);
                }
                assert(k0 + 1 < evs.len());
                lemma_time_mono(evs, k0, k0 + 1);
                lemma_opened_start_le(ar, evs, k0 + 1, li);
                assert(ar[li].obj.start <= time);
                assert forall|t: int, q: int|
                    time <= t < evt_time(evs[k0 + 1]) && #[trigger] acovers(ar, q, t) implies q
                    <= li by {
                    lemma_cover_active(ar, evs, k0 + 1, q, t);
                    assert(in_lv(lv1, q));
                    let a = choose|a: int| 0 <= a < lv1.len() && (#[trigger] lv1[a]) as int == q;
                    assert(lv1[a] <= lv1[lv1.len() - 1]);
                }
                assert(cur_state_ok(ar, evs, k0 + 1, lv1, last_item, time));
                assert(res_ok(ar, evs, k0 + 1, time, res1));
                assert forall|q: int| #[trigger] active_in(evs, k0 + 1, q) implies q <= li by {
                    assert(in_lv(lv1, q));
                    let a = choose|a: int| 0 <= a < lv1.len() && (#[trigger] lv1[a]) as int == q;
                    assert(lv1[a] <= lv1[lv1.len() - 1]);
                }
                assert(is_max_active(evs, k0 + 1, li));
            }
        } else {
            proof {
                assert(lv1.len() == 0);
                // the active set is empty, so nothing counts as active
                assert forall|p: int| !(#[trigger] active_in(evs, k0 + 1, p)) by {
                    if active_in(evs, k0 + 1, p) {
                        assert(in_lv(lv1, p));
                        let a = choose|a: int| 0 <= a < lv1.len() && (#[trigger] lv1[a]) as int == p;
                    }
                }
            }
            if *inter < events.len() {
                let item = events[*inter];
                let ghost k1 = *inter as int;
                match item {
                    TimedEvent::Start { time: t2, reference: r2 } => {
                        *inter = *inter + 1;
                        *temp_obj = r2;
                        *temp_start = t2;
                        proof {
                            assert(evt_wf(ar, evs[k1]));
                            assert((r2 as int) < ar.len());
                            assert(t2 == ar[r2 as int].obj.start);
                            lemma_mark_positions(ar, evs, r2 as int);
                            assert(evs[k1] == start_mark(ar, r2 as int));
                            lemma_pos_unique(evs, k1, pos_of(evs, start_mark(ar, r2 as int)));
                            lemma_opened_iff(ar, evs, k1, r2 as int);
                            assert(!opened_in(evs, k1, r2 as int));
                        }
                        rank_list_insert(sorted_list, r2);
                        let ghost lv2 = rank_list_view(*sorted_list);
                        proof {
                            let res1 = result@;
                            lemma_lv_insert(ar, evs, k1, lv1, lv2, r2);
                            assert(lv2.len() == 1);
                            assert(in_lv(lv2, r2 as int));
                            let aw = choose|a: int|
                                0 <= a < lv2.len() && (#[trigger] lv2[a]) as int == r2 as int;
                            assert(lv2[0] == r2);
                            lemma_time_mono(evs, k0, k1);
                            // nothing is covered between the close and the next opening
                            assert forall|t: int| time <= t < t2 implies !acovered(ar, t) by {
                                if acovered(ar, t) {
                                    let q = choose|q: int| #[trigger] acovers(ar, q, t);
                                    lemma_cover_active(ar, evs, k1, q, t);
                                    assert(in_lv(lv1, q));
                                }
                            }
                            // the emitted segments reach no further than the close
                            assert forall|t: int| t < t2 implies (acovered(ar, t) <==> covered(
                                res1,
                                t,
                            )) by {
                                if t < time {
                                    assert(acovered(ar, t) <==> covered(res1, t));
                                } else {
                                    assert(!acovered(ar, t));
                                    if covered(res1, t) {
                                        let q = choose|q: int|
                                            0 <= q < res1.len() && covers(
                                                #[trigger] res1[q],
                                                t,
                                            );
                                        assert(res1[q].end <= time);
                                    }
                                }
                            }
                            // the freshly opened program rules until the next event
                            if k1 + 1 < evs.len() {
                                lemma_time_mono(evs, k1, k1 + 1);
                                assert forall|t: int, q: int|
                                    t2 <= t < evt_time(evs[k1 + 1]) && #[trigger] acovers(
                                        ar,
                                        q,
                                        t,
                                    ) implies q <= r2 as int by {
                                    lemma_cover_active(ar, evs, k1 + 1, q, t);
                                    assert(in_lv(lv2, q));
                                    let a = choose|a: int|
                                        0 <= a < lv2.len() && (#[trigger] lv2[a]) as int == q;
                                }
                                assert(cur_state_ok(ar, evs, k1 + 1, lv2, r2, t2));
                            }
                            assert forall|q: int| 0 <= q < res1.len() implies (
                            #[trigger] res1[q]).end <= t2 by {
                                assert(res1[q].end <= time);
                            }
                            assert(res_ok(ar, evs, k1 + 1, t2, res1));
                            assert(lv_matches(evs, k1 + 1, lv2));
                        }
                    },
                    TimedEvent::End { time: t3, reference: r3 } => {
                        proof {
                            // impossible: that program would still be active,
                            // yet the active set is empty
                            assert(evt_wf(ar, evs[k1]));
                            lemma_mark_positions(ar, evs, r3 as int);
                            assert(evs[k1] == end_mark(ar, r3 as int));
                            lemma_pos_unique(evs, k1, pos_of(evs, end_mark(ar, r3 as int)));
                            lemma_closed_iff(ar, evs, k1, r3 as int);
                            lemma_opened_iff(ar, evs, k1, r3 as int);
                            assert(active_in(evs, k1, r3 as int));
                            assert(in_lv(lv1, r3 as int));
                            assert(false);
                        }
                    },
                }
            } else {
                proof {
                    let res1 = result@;
                    assert(k0 + 1 == evs.len());
                    // the timeline is exhausted: the equivalence now holds at
                    // every instant
                    assert forall|t: int| (acovered(ar, t) <==> covered(res1, t)) by {
                        if t < time {
                            assert(acovered(ar, t) <==> covered(res1, t));
                        } else {
                            lemma_no_cover_late(ar, evs, t);
                            if covered(res1, t) {
                                let q = choose|q: int|
                                    0 <= q < res1.len() && covers(
                                        #[trigger] res1[q],
                                        t,
                                    );
                                assert(res1[q].end <= time);
                            }
                        }
                    }
                    assert(res_ok(ar, evs, k0 + 1, time, res1));
                }
            }
        }
    } else {
        proof {
            assert(reference < cur0);
            // the visible program is still active and still on top
            assert(idxg < lv0.len() - 1) by {
                if idxg == lv0.len() - 1 {
                    assert(lv0[idxg] == cur0);
                }
            }
            assert(lv1[lv1.len() - 1] == cur0);
            assert(active_in(evs, k0 + 1, cur0 as int));
            if k0 + 1 == evs.len() {
                lemma_all_closed(ar, evs, cur0 as int);
            }
            assert(k0 + 1 < evs.len());
            lemma_time_mono(evs, k0, k0 + 1);
            assert forall|t: int, q: int|
                cs0 <= t < evt_time(evs[k0 + 1]) && #[trigger] acovers(ar, q, t) implies q
                <= cur0 as int by {
                if t < time {
                    assert(q <= cur0 as int);
                } else {
                    lemma_cover_active(ar, evs, k0 + 1, q, t);
                    assert(in_lv(lv1, q));
                    let a = choose|a: int| 0 <= a < lv1.len() && (#[trigger] lv1[a]) as int == q;
                    assert(lv1[a] <= lv1[lv1.len() - 1]);
                }
            }
            assert(cur_state_ok(ar, evs, k0 + 1, lv1, cur0, cs0));
            assert(res_ok(ar, evs, k0 + 1, cs0, res0));
        }
    }
}



/// One opening event advances the running equation between the emitted
/// segments and the canonical sweep output.
proof fn lemma_step_start(
    arena: Seq<ObjHolder>,
    evs: Seq<TimedEvent>,
    k: int,
    cur0: int,
    cs0: u64,
    res0: Seq<Program>,
    res1: Seq<Program>,
    cur1: int,
    cs1: u64,
    reference: usize,
    time: u64,
    goal: Seq<Program>,
)
    requires
        0 <= k < evs.len(),
        evs[k] == (TimedEvent::Start { time, reference }),
        res0 + sweep_from(arena, evs, k, cur0, cs0) == goal,
        reference as int >= cur0 ==> res1 == res0.push(segment_cut(arena, cur0, cs0, time))
            && cur1 == reference as int && cs1 == time,
        (reference as int) < cur0 ==> res1 == res0 && cur1 == cur0 && cs1 == cs0,
    ensures
        res1 + sweep_from(arena, evs, k + 1, cur1, cs1) == goal,
{
    let e = evs[k];
    assert(!evt_is_end(e) && evt_ref(e) == reference && evt_time(e) == time);
    if reference as int >= cur0 {
        let seg = segment_cut(arena, cur0, cs0, time);
        let rest = sweep_from(arena, evs, k + 1, cur1, cs1);
        assert(sweep_from(arena, evs, k, cur0, cs0) == seq![seg] + rest);
        assert(res0.push(seg) + rest =~= res0 + (seq![seg] + rest));
    } else {
        assert(sweep_from(arena, evs, k, cur0, cs0) == sweep_from(arena, evs, k + 1, cur0, cs0));
    }
}

/// One closing event (with a possible refill) advances the running equation
/// between the emitted segments and the canonical sweep output.
proof fn lemma_step_end(
    arena: Seq<ObjHolder>,
    evs: Seq<TimedEvent>,
    k: int,
    k1: int,
    cur0: int,
    cs0: u64,
    res0: Seq<Program>,
    res1: Seq<Program>,
    cur1: int,
    cs1: u64,
    reference: usize,
    time: u64,
    goal: Seq<Program>,
)
    requires
        0 <= k < evs.len(),
        evs[k] == (TimedEvent::End { time, reference }),
        res0 + sweep_from(arena, evs, k, cur0, cs0) == goal,
        (reference as int) < cur0 ==> res1 == res0 && cur1 == cur0 && cs1 == cs0 && k1 == k + 1,
        reference as int >= cur0 ==> res1 == res0.push(segment_cut(arena, cur0, cs0, time)),
        reference as int >= cur0 ==> (if exists|p: int| #[trigger] active_in(evs, k + 1, p) {
            &&& k1 == k + 1
            &&& is_max_active(evs, k + 1, cur1)
            &&& cs1 == time
        } else if k + 1 < evs.len() {
            &&& k1 == k + 2
            &&& cur1 == evt_ref(evs[k + 1]) as int
            &&& cs1 == evt_time(evs[k + 1])
        } else {
            k1 == k + 1
        }),
    ensures
        res1 + sweep_from(arena, evs, k1, cur1, cs1) == goal,
{
    let e = evs[k];
    assert(evt_is_end(e) && evt_ref(e) == reference && evt_time(e) == time);
    if (reference as int) < cur0 {
        assert(sweep_from(arena, evs, k, cur0, cs0) == sweep_from(arena, evs, k + 1, cur0, cs0));
    } else {
        let seg = segment_cut(arena, cur0, cs0, time);
        if exists|p: int| #[trigger] active_in(evs, k + 1, p) {
            let m = max_active(evs, k + 1);
            assert(is_max_active(evs, k + 1, m)) by {
                assert(is_max_active(evs, k + 1, cur1));
            }
            assert(active_in(evs, k + 1, m));
            assert(active_in(evs, k + 1, cur1));
            assert(m <= cur1 && cur1 <= m);
            let rest = sweep_from(arena, evs, k + 1, m, time);
            assert(sweep_from(arena, evs, k, cur0, cs0) == seq![seg] + rest);
            assert(res0.push(seg) + rest =~= res0 + (seq![seg] + rest));
        } else if k + 1 < evs.len() {
            let rest = sweep_from(arena, evs, k + 2, evt_ref(evs[k + 1]) as int, evt_time(evs[k + 1]));
            assert(sweep_from(arena, evs, k, cur0, cs0) == seq![seg] + rest);
            assert(res0.push(seg) + rest =~= res0 + (seq![seg] + rest));
        } else {
            assert(sweep_from(arena, evs, k, cur0, cs0) == seq![seg]);
            assert(sweep_from(arena, evs, k1, cur1, cs1) == Seq::<Program>::empty());
            assert(res0.push(seg) + Seq::<Program>::empty() =~= res0 + seq![seg]);
        }
    }
}

/// Carry the sweep's conclusions, stated over the rank-ordered arena, back
/// to the caller's input order: coverage is the same, the winner of every
/// instant appears in a segment containing it, and every segment is a
/// fragment of some input program.
proof fn lemma_output_to_input(v: Seq<Program>, arena: Seq<ObjHolder>, res: Seq<Program>)
    requires
        ranked_of(v, arena),
        forall|t: int|
            #![trigger acovered(arena, t)]
            #![trigger covered(res, t)]
            acovered(arena, t) <==> covered(res, t),
        forall|q: int, t: int|
            #[trigger] seg_contains(res, q, t) ==> exists|p: int|
                #[trigger] atop(arena, p, t) && payload_eq(res[q], arena[p].obj),
        forall|q: int| 0 <= q < res.len() ==> afragment_of(arena, #[trigger] res[q]),
    ensures
        forall|t: int|
            #![trigger covered(v, t)]
            #![trigger covered(res, t)]
            covered(v, t) <==> covered(res, t),
        forall|i: int, t: int|
            #[trigger] wins(v, i, t) ==> exists|q: int|
                #[trigger] seg_contains(res, q, t) && payload_eq(res[q], v[i]),
        forall|q: int| 0 <= q < res.len() ==> fragment_of(v, #[trigger] res[q]),
{
    assert forall|t: int|
        #![trigger covered(v, t)]
        #![trigger covered(res, t)]
        covered(v, t) <==> covered(res, t) by {
        if covered(v, t) {
            let i = choose|i: int| 0 <= i < v.len() && covers(#[trigger] v[i], t);
            assert(src_appears(arena, i));
            let p = choose|p: int| 0 <= p < arena.len() && (#[trigger] arena[p].src@) == i;
            assert(arena[p].obj == v[i]);
            assert(acovers(arena, p, t));
            assert(acovered(arena, t));
        }
        if covered(res, t) {
            assert(acovered(arena, t));
            let p = choose|p: int| #[trigger] acovers(arena, p, t);
            assert(covers(v[arena[p].src@], t));
            assert(covered(v, t));
        }
    }
    assert forall|i: int, t: int| #[trigger] wins(v, i, t) implies exists|q: int|
        #[trigger] seg_contains(res, q, t) && payload_eq(res[q], v[i]) by {
        assert(src_appears(arena, i));
        let p = choose|p: int| 0 <= p < arena.len() && (#[trigger] arena[p].src@) == i;
        assert(arena[p].obj == v[i]);
        assert(acovers(arena, p, t));
        assert forall|q2: int| #[trigger] acovers(arena, q2, t) implies q2 <= p by {
            if q2 > p {
                let j = arena[q2].src@;
                assert(key_lt(v[arena[p].src@].priority, arena[p].src@, v[j].priority, j));
                assert(covers(v[j], t));
                assert(j != i);
                assert(key_lt(v[j].priority, j, v[i].priority, i));
            }
        }
        assert(atop(arena, p, t));
        assert(acovered(arena, t));
        assert(covered(res, t));
        let q = choose|q: int| 0 <= q < res.len() && covers(#[trigger] res[q], t);
        assert(seg_contains(res, q, t));
        let p2 = choose|p2: int| #[trigger] atop(arena, p2, t) && payload_eq(res[q], arena[p2].obj);
        assert(acovers(arena, p2, t));
        assert(p2 <= p && p <= p2);
        assert(payload_eq(res[q], v[i]));
    }
    assert forall|q: int| 0 <= q < res.len() implies fragment_of(v, #[trigger] res[q]) by {
        assert(afragment_of(arena, res[q]));
        let p = choose|p: int|
            0 <= p < arena.len() && payload_eq(res[q], (#[trigger] arena[p]).obj) && arena[
                p
            ].obj.start <= res[q].start && res[q].end <= arena[p].obj.end;
        let i = arena[p].src@;
        assert(arena[p].obj == v[i]);
        assert(payload_eq(res[q], v[i]) && v[i].start <= res[q].start && res[q].end <= v[i].end);
    }
}

/// Order a list of programs by priority: resolve every time overlap so that
/// at each covered instant exactly the highest-ranked active program shows,
/// splitting lower-priority programs around higher-priority ones. A list of
/// at most one program is returned unchanged. The result is exactly
/// `resolved_order` of the input — the canonical sweep output, which makes
/// the outcome a function of the input values — and the named properties
/// restate what that output guarantees.
#[verifier::rlimit(100)]
pub fn time_order_by_priority(vec: Vec<Program>) -> (r: Vec<Program>)
    requires
        forall|i: int| 0 <= i < vec@.len() ==> (#[trigger] vec@[i]).start <= vec@[i].end,
    ensures
        r@ == resolved_order(vec@),
        vec@.len() <= 1 ==> r@ == vec@,
        forall|q: int| 0 <= q < r@.len() ==> (#[trigger] r@[q]).start <= r@[q].end,
        forall|q: int| 0 <= q < r@.len() - 1 ==> (#[trigger] r@[q]).end <= r@[q + 1].start,
        forall|t: int|
            #![trigger covered(vec@, t)]
            #![trigger covered(r@, t)]
            covered(vec@, t) <==> covered(r@, t),
        forall|i: int, t: int|
            #[trigger] wins(vec@, i, t) ==> exists|q: int|
                #[trigger] seg_contains(r@, q, t) && payload_eq(r@[q], vec@[i]),
        forall|q: int| 0 <= q < r@.len() ==> fragment_of(vec@, #[trigger] r@[q]),
{
    let ghost vg = vec@;
    // the trivial case is not worth passing through the pipeline
    if vec.len() <= 1 {
        proof {
            assert forall|i: int, t: int| #[trigger] wins(vg, i, t) implies exists|q: int|
                #[trigger] seg_contains(vg, q, t) && payload_eq(vg[q], vg[i]) by {
                assert(i == 0);
                assert(seg_contains(vg, 0, t) && payload_eq(vg[0], vg[0]));
            }
            assert forall|q: int| 0 <= q < vg.len() implies fragment_of(vg, #[trigger] vg[q]) by {
                assert(payload_eq(vg[q], vg[q]));
            }
            assert(resolved_order(vg) == vg);
        }
        return vec;
    }
    let arena = recreate_priority_index(vec);
    let events = create_time_order_events(&arena);
    let ghost ar = arena@;
    let ghost evs = events@;
    proof {
        assert(ar.len() == vg.len());
        assert forall|p: int| 0 <= p < ar.len() implies (#[trigger] ar[p]).obj.start
            <= ar[p].obj.end by {
            assert(ar[p].obj == vg[ar[p].src@]);
        }
        assert(arena_wf(ar));
        assert(evs.len() == 2 * ar.len());
    }
    let mut result: Vec<Program> = Vec::new();
    let mut temp_obj: usize;
    let mut temp_start: u64;
    let mut running_programs = rank_list_new();
    // the first event on the timeline is always an opening one
    let item = events[0];
    let (t0, p0) = match item {
        TimedEvent::Start { time, reference } => (time, reference),
        TimedEvent::End { time, reference } => (time, reference),
    };
    temp_obj = p0;
    temp_start = t0;
    proof {
        assert(evt_wf(ar, evs[0]));
        if evt_is_end(evs[0]) {
            let pb = evt_ref(evs[0]) as int;
            lemma_mark_positions(ar, evs, pb);
            assert(evs[0] == end_mark(ar, pb));
            lemma_pos_unique(evs, 0, pos_of(evs, end_mark(ar, pb)));
        }
        assert(!evt_is_end(evs[0]));
        assert(p0 as int == evt_ref(evs[0]) as int);
        assert(t0 == ar[p0 as int].obj.start);
    }
    rank_list_insert(&mut running_programs, p0);
    proof {
        let lv = rank_list_view(running_programs);
        lemma_lv_insert(ar, evs, 0, Seq::<usize>::empty(), lv, p0);
        assert(lv.len() == 1);
        assert(in_lv(lv, p0 as int));
        let aw = choose|a: int| 0 <= a < lv.len() && (#[trigger] lv[a]) as int == p0 as int;
        assert(lv[0] == p0);
        lemma_time_mono(evs, 0, 1);
        assert forall|t: int, q: int|
            t0 <= t < evt_time(evs[1]) && #[trigger] acovers(ar, q, t) implies q <= p0 as int by {
            lemma_cover_active(ar, evs, 1, q, t);
            assert(in_lv(lv, q));
            let a = choose|a: int| 0 <= a < lv.len() && (#[trigger] lv[a]) as int == q;
        }
        assert(cur_state_ok(ar, evs, 1, lv, p0, t0));
        assert forall|t: int| t < t0 implies !acovered(ar, t) by {
            if acovered(ar, t) {
                let q = choose|q: int| #[trigger] acovers(ar, q, t);
                lemma_mark_positions(ar, evs, q);
                let sa = pos_of(evs, start_mark(ar, q));
                lemma_time_mono(evs, 0, sa);
                assert(evt_time(evs[sa]) == ar[q].obj.start);
            }
        }
        assert(res_ok(ar, evs, 1, t0, result@));
        assert(sweep_inv(ar, evs, 1, lv, temp_obj, temp_start, result@));
    }
    let ghost goal = sweep_from(ar, evs, 1, p0 as int, t0);
    proof {
        assert(result@ + sweep_from(ar, evs, 1, temp_obj as int, temp_start) =~= goal);
    }
    let mut k: usize = 1;
    while k < events.len()
        invariant
            sweep_inv(
                ar,
                evs,
                k as int,
                rank_list_view(running_programs),
                temp_obj,
                temp_start,
                result@,
            ),
            ar == arena@,
            evs == events@,
            1 <= k as int <= evs.len(),
            result@ + sweep_from(ar, evs, k as int, temp_obj as int, temp_start) == goal,
        decreases evs.len() - k as int,
    {
        let ev = events[k];
        let ghost k_at = k as int;
        let ghost cur_at = temp_obj as int;
        let ghost cs_at = temp_start;
        let ghost res_at = result@;
        match ev {
            TimedEvent::Start { time, reference } => {
                process_start_case(
                    &mut result,
                    &mut temp_obj,
                    &mut temp_start,
                    &mut running_programs,
                    &arena,
                    &events,
                    k,
                    reference,
                    time,
                );
                k = k + 1;
                proof {
                    lemma_step_start(ar, evs, k_at, cur_at, cs_at, res_at, result@, temp_obj as int, temp_start, reference, time, goal);
                }
            },
            TimedEvent::End { time, reference } => {
                process_end_case(
                    &mut result,
                    &mut temp_obj,
                    &mut temp_start,
                    &mut running_programs,
                    &mut k,
                    &arena,
                    &events,
                    reference,
                    time,
                );
                proof {
                    lemma_step_end(ar, evs, k_at, k as int, cur_at, cs_at, res_at, result@, temp_obj as int, temp_start, reference, time, goal);
                }
            },
        }
    }
    proof {
        assert(k as int == evs.len());
        lemma_output_to_input(vg, ar, result@);
        // the loop's running equation settles the exact output
        assert(result@ + Seq::<Program>::empty() =~= result@);
        assert(result@ == goal);
        // the spec-level pipeline is the one the code ran
        let arena_c = rank_order_of(vg);
        assert(ranked_of(vg, arena_c)) by {
            assert(ranked_of(vg, ar));
        }
        lemma_ranked_unique(vg, arena_c, ar);
        let evs_c = timeline_seq_of(ar);
        assert(timeline_of(ar, evs_c)) by {
            assert(timeline_of(ar, evs));
        }
        lemma_timeline_unique(ar, evs_c, evs);
        assert(p0 == evt_ref(evs[0]) && t0 == evt_time(evs[0]));
        assert(resolved_order(vg) == goal);
    }
    result
}

} // verus!
