//! What a callback tells a loop over table items: go on, or stop.
use vstd::prelude::*;

verus! {

/// The outcome of one step of a loop driven by a callback.
pub enum BreakContinue {
    Break,
    Continue,
}

impl BreakContinue {
    /// Whether this outcome stops the loop.
    pub open spec fn is_break(&self) -> bool {
        *self is Break
    }
}

/// What a callback may return to steer a loop over table items.
pub trait End {
    /// Whether this value asks the loop to stop.
    spec fn stops(&self) -> bool;

    fn breaks_loop(&self) -> (r: bool)
        ensures
            r == self.stops(),
    ;

    fn to_break_continue(&self) -> (r: BreakContinue)
        ensures
            r.is_break() == self.stops(),
    ;
}

impl End for () {
    open spec fn stops(&self) -> bool {
        false
    }

    fn breaks_loop(&self) -> (r: bool) {
        false
    }

    fn to_break_continue(&self) -> (r: BreakContinue) {
        BreakContinue::Continue
    }
}

impl End for BreakContinue {
    open spec fn stops(&self) -> bool {
        self.is_break()
    }

    fn breaks_loop(&self) -> (r: bool) {
        match self {
            BreakContinue::Break => true,
            BreakContinue::Continue => false,
        }
    }

    fn to_break_continue(&self) -> (r: BreakContinue)
        ensures
            r == *self,
    {
        match self {
            BreakContinue::Break => BreakContinue::Break,
            BreakContinue::Continue => BreakContinue::Continue,
        }
    }
}

} // verus!
