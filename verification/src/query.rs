//! Queries: which index to read a table through, and in which direction.
use crate::index::{faithful_at, lists_in_order, IndexSlot, Indexer};
use std::marker::PhantomData;
use vstd::prelude::*;

verus! {

/// A request for the items of a table in the order of one of its indices.
pub struct Query<A> {
    pub(crate) phantom: PhantomData<A>,
    pub(crate) ix: usize,
    pub(crate) descending: bool,
}

impl<A> Query<A> {
    /// The number of the index that the query reads.
    pub closed spec fn index_number(&self) -> nat {
        self.ix as nat
    }

    /// Whether the query reads the index from its greatest item down.
    pub closed spec fn is_descending(&self) -> bool {
        self.descending
    }

    /// The query for index `ix` reads index `ix`, in the given direction.
    pub broadcast proof fn lemma_spec_new(ix: usize, descending: bool)
        ensures
            #[trigger] Self::spec_new(ix, descending).index_number() == ix,
            Self::spec_new(ix, descending).is_descending() == descending,
    {
    }

    /// The query for index `ix`, in the given direction.
    pub closed spec fn spec_new(ix: usize, descending: bool) -> Query<A> {
        Query { phantom: PhantomData, ix, descending }
    }

    pub(crate) fn new(ix: usize, descending: bool) -> (q: Self)
        ensures
            q == Self::spec_new(ix, descending),
            q.index_number() == ix,
            q.is_descending() == descending,
    {
        Query { phantom: PhantomData, ix, descending }
    }

    /// The handles of the items in the order that the query asks for.
    pub(crate) fn run(&self, ixers: &Vec<IndexSlot<A>>, contents: Ghost<Map<u64, A>>) -> (r:
        Vec<u64>)
        requires
            self.index_number() < ixers@.len(),
            faithful_at(ixers@, self.index_number() as int, contents@),
        ensures
            ({
                let ixer = ixers@[self.index_number() as int].ixer;
                let asc = if self.is_descending() {
                    r@.reverse()
                } else {
                    r@
                };
                lists_in_order(ixer.order().less, |h: u64| ixer.position(h), contents@, asc)
            }),
    {
        let ixer = &ixers[self.ix].ixer;
        let asc = ixer.ordered(contents);
        if self.descending {
            let mut desc: Vec<u64> = Vec::new();
            let mut i: usize = asc.len();
            while i > 0
                invariant
                    i <= asc@.len(),
                    desc@.len() == asc@.len() - i,
                    forall|j: int| 0 <= j < desc@.len() ==> desc@[j] == asc@[asc@.len() - 1 - j],
                decreases i,
            {
                i = i - 1;
                desc.push(asc[i]);
            }
            proof {
                assert(desc@.reverse() =~= asc@);
            }
            desc
        } else {
            asc
        }
    }
}

} // verus!
