//! Laws of the rank order that the conflict resolution obeys, stated over
//! the same spec functions as the pipeline's contracts.

use vstd::prelude::*;
use crate::ordering::covers;
use crate::ordering::key_lt;
use crate::ordering::wins;
use crate::timed::Program;

verus! {

/// Tie-break determinism: of two equal-priority programs both active at an
/// instant, the one earlier in the input never wins that instant.
pub proof fn lemma_tie_break(v: Seq<Program>, i: int, j: int, t: int)
    requires
        0 <= i < j < v.len(),
        v[i].priority == v[j].priority,
        covers(v[i], t),
        covers(v[j], t),
    ensures
        !wins(v, i, t),
{
    if wins(v, i, t) {
        assert(key_lt(v[j].priority, j, v[i].priority, i));
    }
}

/// Tie-break determinism for a pair: when two programs of equal priority
/// both cover an instant, the one appearing later in the input is the
/// winner there.
pub proof fn lemma_tie_break_pair(v: Seq<Program>, t: int)
    requires
        v.len() == 2,
        v[0].priority == v[1].priority,
        covers(v[0], t),
        covers(v[1], t),
    ensures
        wins(v, 1, t),
{
    assert(key_lt(v[0].priority, 0, v[1].priority, 1));
}

} // verus!
