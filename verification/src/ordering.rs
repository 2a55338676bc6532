//! The mathematical model of the conflict resolution: which instants a
//! program covers, the total order of ranks derived from priorities, and what
//! it means for a program to win an instant.

use vstd::prelude::*;
use crate::timed::Program;

verus! {

/// The rank order on inputs: priority first, and between equal priorities the
/// later input position. This is the strict total order that decides which
/// program is visible wherever ranges overlap.
pub open spec fn key_lt(pa: i64, ia: int, pb: i64, ib: int) -> bool {
    pa < pb || (pa == pb && ia < ib)
}

/// `x` is active at instant `t`: its half-open range `[start, end)`
/// contains `t`.
pub open spec fn covers(x: Program, t: int) -> bool {
    x.start <= t < x.end
}

/// Some program of `s` is active at instant `t`.
pub open spec fn covered(s: Seq<Program>, t: int) -> bool {
    exists|i: int| 0 <= i < s.len() && covers(#[trigger] s[i], t)
}

/// The program at input position `i` is the one visible at instant `t`: it is
/// active there, and every other active program has a smaller rank.
pub open spec fn wins(s: Seq<Program>, i: int, t: int) -> bool {
    &&& 0 <= i < s.len()
    &&& covers(s[i], t)
    &&& forall|j: int|
        0 <= j < s.len() && j != i && covers(#[trigger] s[j], t)
            ==> key_lt(s[j].priority, j, s[i].priority, i)
}

/// Two programs carry the same payload: an output segment is a copy of an
/// input with only its time range rewritten.
pub open spec fn payload_eq(a: Program, b: Program) -> bool {
    a.priority == b.priority && a.id == b.id
}

/// The program at position `w` is active at `t` and of maximal rank among
/// the first `m` programs.
pub open spec fn wins_prefix(s: Seq<Program>, w: int, t: int, m: int) -> bool {
    &&& 0 <= w < m
    &&& covers(s[w], t)
    &&& forall|j: int|
        0 <= j < m && j != w && covers(#[trigger] s[j], t)
            ==> key_lt(s[j].priority, j, s[w].priority, w)
}

proof fn lemma_prefix_winner_exists(s: Seq<Program>, t: int, m: int)
    requires
        1 <= m <= s.len(),
        exists|i: int| 0 <= i < m && covers(#[trigger] s[i], t),
    ensures
        exists|w: int| #[trigger] wins_prefix(s, w, t, m),
    decreases m,
{
    if m == 1 {
        assert(wins_prefix(s, 0, t, 1));
    } else if !covers(s[m - 1], t) {
        lemma_prefix_winner_exists(s, t, m - 1);
        let w = choose|w: int| #[trigger] wins_prefix(s, w, t, m - 1);
        assert(wins_prefix(s, w, t, m));
    } else if exists|i: int| 0 <= i < m - 1 && covers(#[trigger] s[i], t) {
        lemma_prefix_winner_exists(s, t, m - 1);
        let w = choose|w: int| #[trigger] wins_prefix(s, w, t, m - 1);
        if key_lt(s[w].priority, w, s[m - 1].priority, m - 1) {
            assert(wins_prefix(s, m - 1, t, m));
        } else {
            assert(wins_prefix(s, w, t, m));
        }
    } else {
        assert(wins_prefix(s, m - 1, t, m));
    }
}

/// At every covered instant a visible program exists: the active set is
/// finite and non-empty, so it has a member of maximal rank.
pub proof fn lemma_winner_exists(s: Seq<Program>, t: int)
    requires
        covered(s, t),
    ensures
        exists|i: int| wins(s, i, t),
{
    lemma_prefix_winner_exists(s, t, s.len() as int);
    let w = choose|w: int| #[trigger] wins_prefix(s, w, t, s.len() as int);
    assert(wins(s, w, t));
}

/// The winning position at an instant is unique.
pub proof fn lemma_winner_unique(s: Seq<Program>, t: int, i: int, j: int)
    requires
        wins(s, i, t),
        wins(s, j, t),
    ensures
        i == j,
{
}

} // verus!
