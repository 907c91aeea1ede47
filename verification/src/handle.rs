//! Handles: the opaque names under which a table hands out its items.
use std::marker::PhantomData;
use vstd::prelude::*;

verus! {

/// A reference to an item stored in a `Table<A>`.
///
/// A handle is a plain number; it stays valid (and keeps naming the same
/// item) until that item is freed, and it is never handed out again.
#[derive(Debug, Hash)]
pub struct Handle<A> {
    pub(crate) phantom: PhantomData<A>,
    pub(crate) ix: u64,
}

impl<A> Handle<A> {
    /// The slot number that this handle names.
    pub closed spec fn index(self) -> u64 {
        self.ix
    }

    /// The handle that names slot `ix`.
    pub closed spec fn spec_at(ix: u64) -> Handle<A> {
        Handle { phantom: PhantomData, ix }
    }

    pub(crate) fn at(ix: u64) -> (h: Handle<A>)
        ensures
            h == Handle::<A>::spec_at(ix),
            h.index() == ix,
    {
        Handle { phantom: PhantomData, ix }
    }

    pub(crate) fn ix(&self) -> (r: u64)
        ensures
            r == self.index(),
    {
        self.ix
    }

    /// The handle for slot `ix` names slot `ix`.
    pub broadcast proof fn lemma_at_index(ix: u64)
        ensures
            #[trigger] Handle::<A>::spec_at(ix).index() == ix,
    {
    }

    /// A handle is determined by its slot number.
    pub broadcast proof fn lemma_index_determines(h: Handle<A>)
        ensures
            #[trigger] Handle::<A>::spec_at(h.index()) == h,
    {
    }
}

/// Two handles with the same slot number are the same handle.
pub broadcast proof fn lemma_same_index<A>(h1: Handle<A>, h2: Handle<A>)
    requires
        #[trigger] h1.index() == #[trigger] h2.index(),
    ensures
        h1 == h2,
{
}

pub broadcast group group_handle {
    Handle::lemma_at_index,
    Handle::lemma_index_determines,
    lemma_same_index,
}

impl<A> Clone for Handle<A> {
    fn clone(&self) -> (r: Self)
        ensures
            r == *self,
    {
        Handle { phantom: PhantomData, ix: self.ix }
    }
}

impl<A> Copy for Handle<A> {

}

impl<A> PartialEq for Handle<A> {
    fn eq(&self, other: &Self) -> (r: bool) {
        self.ix == other.ix
    }
}

impl<A> vstd::std_specs::cmp::PartialEqSpecImpl for Handle<A> {
    open spec fn obeys_eq_spec() -> bool {
        true
    }

    open spec fn eq_spec(&self, other: &Self) -> bool {
        self.index() == other.index()
    }
}

impl<A> Eq for Handle<A> {

}

} // verus!
