//! The interval type the pipeline works on, and the `Timed` interface that
//! exposes its time range.

use vstd::prelude::*;

verus! {

/// A program: a time range `[start, end)` with a caller priority and an
/// identifying payload.
#[derive(Clone, Copy, Debug, PartialEq, Eq, Structural)]
pub struct Program {
    pub start: u64,
    pub end: u64,
    pub priority: i64,
    pub id: u64,
}

/// A value with a time range: what the conflict-resolution pipeline reads and
/// rewrites when it narrows a program to its visible sub-range.
pub trait Timed: Sized {
    spec fn spec_start(&self) -> u64;

    spec fn spec_end(&self) -> u64;

    fn get_start(&self) -> (r: u64)
        ensures
            r == self.spec_start(),
    ;

    fn get_end(&self) -> (r: u64)
        ensures
            r == self.spec_end(),
    ;

    fn set_start(&mut self, time: u64)
        ensures
            final(self).spec_start() == time,
            final(self).spec_end() == old(self).spec_end(),
    ;

    fn set_end(&mut self, time: u64)
        ensures
            final(self).spec_end() == time,
            final(self).spec_start() == old(self).spec_start(),
    ;
}

impl Timed for Program {
    open spec fn spec_start(&self) -> u64 {
        self.start
    }

    open spec fn spec_end(&self) -> u64 {
        self.end
    }

    fn get_start(&self) -> (r: u64) {
        self.start
    }

    fn get_end(&self) -> (r: u64) {
        self.end
    }

    fn set_start(&mut self, time: u64)
        ensures
            final(self).priority == old(self).priority,
            final(self).id == old(self).id,
    {
        self.start = time;
    }

    fn set_end(&mut self, time: u64)
        ensures
            final(self).priority == old(self).priority,
            final(self).id == old(self).id,
    {
        self.end = time;
    }
}

} // verus!
