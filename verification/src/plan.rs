//! Plans: stores and frees that a callback asks for while the table it runs
//! over cannot take them, carried out afterwards.
use crate::handle::Handle;
use crate::loops::End;
use crate::query::Query;
use crate::table::Table;
use vstd::prelude::*;

verus! {

broadcast use crate::handle::group_handle;

/// A callback run on an item just stored by a plan.
pub trait StoreThen<A> {
    /// Whether the callback may be run on any handle and item.
    spec fn ready(&self) -> bool;

    /// Whether a run of the callback on handle `h` may take the item from
    /// `*a` to `*final(a)`.
    spec fn post(&self, h: Handle<A>, a: &mut A) -> bool;

    fn call(&self, h: Handle<A>, a: &mut A)
        requires
            self.ready(),
        ensures
            exists|x: &mut A|
                #![trigger self.post(h, x)]
                *x == *old(a) && *final(x) == *final(a) && self.post(h, x),
    ;
}

impl<A, F: Fn(Handle<A>, &mut A)> StoreThen<A> for F {
    open spec fn ready(&self) -> bool {
        forall|h: Handle<A>, x: &mut A| #[trigger] self.requires((h, x))
    }

    open spec fn post(&self, h: Handle<A>, a: &mut A) -> bool {
        self.ensures((h, a), ())
    }

    fn call(&self, h: Handle<A>, a: &mut A) {
        let ghost a0 = *a;
        self(h, a);
        proof {
            let w = choose|x: &mut A|
                #![trigger self.ensures((h, x), ())]
                *x == a0 && *final(x) == *a && self.ensures((h, x), ());
            assert(self.post(h, w));
            assert(has_resolved(a));
        }
    }
}

/// A callback that a plan keeps beside a handle to free. Carrying out a
/// plan frees neither such a handle nor runs such a callback.
pub trait FreeThen<A> {
    /// Whether the callback may be run on any item.
    spec fn ready(&self) -> bool;
}

impl<A, F: Fn(A)> FreeThen<A> for F {
    open spec fn ready(&self) -> bool {
        forall|x: A| #[trigger] self.requires((x,))
    }
}

/// An item to store, with the callback to run on it once stored.
#[verifier::reject_recursive_types(A)]
pub struct StoreAnd<A> {
    pub item: A,
    pub callback: Box<dyn StoreThen<A>>,
}

impl<A> StoreAnd<A> {
    fn new<F: Fn(Handle<A>, &mut A) + 'static>(item: A, callback: F) -> (e: StoreAnd<A>)
        requires
            forall|h: Handle<A>, x: &mut A| #[trigger] callback.requires((h, x)),
        ensures
            e.item == item,
            e.callback.ready(),
            forall|h: Handle<A>, x: &mut A| #[trigger] e.callback.post(h, x) == callback.ensures((h, x), ()),
    {
        StoreAnd { item, callback: Box::new(callback) }
    }
}

/// A handle to free, with the callback to run on the freed item.
#[verifier::reject_recursive_types(A)]
pub struct FreeAnd<A> {
    pub handle: Handle<A>,
    pub callback: Box<dyn FreeThen<A>>,
}

impl<A> FreeAnd<A> {
    fn new<F: Fn(A) + 'static>(handle: Handle<A>, callback: F) -> (e: FreeAnd<A>)
        requires
            forall|x: A| #[trigger] callback.requires((x,)),
        ensures
            e.handle == handle,
            e.callback.ready(),
    {
        FreeAnd { handle, callback: Box::new(callback) }
    }
}

/// Stores and frees requested of a table, to be carried out later, in this
/// order: plain stores, stores with a callback, plain frees, each in the
/// order of the requests. Frees with a callback are kept, never carried out.
#[verifier::reject_recursive_types(A)]
pub struct TablePlan<A> {
    store: Vec<A>,
    store_and: Vec<StoreAnd<A>>,
    free: Vec<Handle<A>>,
    free_and: Vec<FreeAnd<A>>,
}

impl<A> TablePlan<A> {
    /// The items to store without a callback.
    pub closed spec fn stores(&self) -> Seq<A> {
        self.store@
    }

    /// The items to store with a callback, each with its callback.
    pub closed spec fn store_entries(&self) -> Seq<StoreAnd<A>> {
        self.store_and@
    }

    /// The items to store with a callback.
    pub open spec fn stores_then(&self) -> Seq<A> {
        self.store_entries().map_values(|s: StoreAnd<A>| s.item)
    }

    /// The handles to free without a callback.
    pub closed spec fn frees(&self) -> Seq<Handle<A>> {
        self.free@
    }

    /// The handles to free with a callback, each with its callback.
    pub closed spec fn free_entries(&self) -> Seq<FreeAnd<A>> {
        self.free_and@
    }

    /// The handles to free with a callback.
    pub open spec fn frees_then(&self) -> Seq<Handle<A>> {
        self.free_entries().map_values(|f: FreeAnd<A>| f.handle)
    }

    /// Every callback of the plan may be run.
    #[verifier::type_invariant]
    pub closed spec fn wf(&self) -> bool {
        &&& forall|i: int| 0 <= i < self.store_and@.len() ==> #[trigger] self.store_and@[i].callback.ready()
        &&& forall|i: int| 0 <= i < self.free_and@.len() ==> #[trigger] self.free_and@[i].callback.ready()
    }

    /// Whether the plan asks for nothing.
    pub open spec fn is_empty(&self) -> bool {
        &&& self.stores().len() == 0
        &&& self.stores_then().len() == 0
        &&& self.frees().len() == 0
        &&& self.frees_then().len() == 0
    }

    /// A plan that asks for nothing.
    pub fn new() -> (p: TablePlan<A>)
        ensures
            p.is_empty(),
    {
        TablePlan { store: Vec::new(), store_and: Vec::new(), free: Vec::new(), free_and: Vec::new() }
    }

    /// Asks for `a` to be stored.
    pub fn store(&mut self, a: A)
        ensures
            final(self).stores() == old(self).stores().push(a),
            final(self).store_entries() == old(self).store_entries(),
            final(self).frees() == old(self).frees(),
            final(self).free_entries() == old(self).free_entries(),
    {
        proof {
            use_type_invariant(&*self);
        }
        let mut v: Vec<_> = Vec::new();
        std::mem::swap(&mut v, &mut self.store);
        v.push(a);
        std::mem::swap(&mut v, &mut self.store);
    }

    /// Asks for `a` to be stored and `callback` to be run on it with its
    /// handle.
    pub fn store_and<F: Fn(Handle<A>, &mut A) + 'static>(&mut self, a: A, callback: F)
        requires
            forall|h: Handle<A>, x: &mut A| #[trigger] callback.requires((h, x)),
        ensures
            final(self).stores() == old(self).stores(),
            final(self).stores_then() == old(self).stores_then().push(a),
            final(self).store_entries().len() == old(self).store_entries().len() + 1,
            final(self).store_entries().drop_last() == old(self).store_entries(),
            final(self).store_entries().last().item == a,
            forall|h: Handle<A>, x: &mut A|
                #[trigger] final(self).store_entries().last().callback.post(h, x) == callback.ensures((h, x), ()),
            final(self).frees() == old(self).frees(),
            final(self).free_entries() == old(self).free_entries(),
    {
        proof {
            use_type_invariant(&*self);
        }
        let ghost pre = self.store_and@;
        let entry = StoreAnd::new(a, callback);
        let mut v: Vec<StoreAnd<A>> = Vec::new();
        std::mem::swap(&mut v, &mut self.store_and);
        v.push(entry);
        std::mem::swap(&mut v, &mut self.store_and);
        proof {
            assert(self.store_and@ == pre.push(entry));
            assert(self.store_and@.drop_last() =~= pre);
            assert(self.store_and@.map_values(|s: StoreAnd<A>| s.item) =~= pre.map_values(
                |s: StoreAnd<A>| s.item,
            ).push(a));
        }
    }

    /// Asks for the item under `a` to be freed.
    pub fn free(&mut self, a: Handle<A>)
        ensures
            final(self).stores() == old(self).stores(),
            final(self).store_entries() == old(self).store_entries(),
            final(self).frees() == old(self).frees().push(a),
            final(self).free_entries() == old(self).free_entries(),
    {
        proof {
            use_type_invariant(&*self);
        }
        let mut v: Vec<_> = Vec::new();
        std::mem::swap(&mut v, &mut self.free);
        v.push(a);
        std::mem::swap(&mut v, &mut self.free);
    }

    /// Asks for the item under `a` to be freed and `callback` to be run on
    /// it.
    pub fn free_and<F: Fn(A) + 'static>(&mut self, a: Handle<A>, callback: F)
        requires
            forall|x: A| #[trigger] callback.requires((x,)),
        ensures
            final(self).stores() == old(self).stores(),
            final(self).store_entries() == old(self).store_entries(),
            final(self).frees() == old(self).frees(),
            final(self).frees_then() == old(self).frees_then().push(a),
            final(self).free_entries().len() == old(self).free_entries().len() + 1,
            final(self).free_entries().drop_last() == old(self).free_entries(),
            final(self).free_entries().last().handle == a,
    {
        proof {
            use_type_invariant(&*self);
        }
        let ghost pre = self.free_and@;
        let entry = FreeAnd::new(a, callback);
        let mut v: Vec<FreeAnd<A>> = Vec::new();
        std::mem::swap(&mut v, &mut self.free_and);
        v.push(entry);
        std::mem::swap(&mut v, &mut self.free_and);
        proof {
            assert(self.free_and@ == pre.push(entry));
            assert(self.free_and@.drop_last() =~= pre);
            assert(self.free_and@.map_values(|f: FreeAnd<A>| f.handle) =~= pre.map_values(
                |f: FreeAnd<A>| f.handle,
            ).push(a));
        }
    }
}


/// Whether `t` keeps `old`'s indices and relations: the same index orders,
/// the same insertion positions for the items of `old` that `t` still holds,
/// and the same relation freelists.
pub open spec fn keeps_layout<A>(old: Table<A>, t: Table<A>) -> bool {
    &&& t.index_count() == old.index_count()
    &&& forall|i: int| 0 <= i < t.index_count() ==> #[trigger] t.order(i) == old.order(i)
    &&& forall|i: int, k: u64|
        0 <= i < t.index_count() && old@.contains_key(k) && t@.contains_key(k) ==> #[trigger] t.position(i, k)
            == old.position(i, k)
    &&& t.relation_count() == old.relation_count()
}

/// Whether every item of `t` that `t0` also holds has the same value in
/// both.
pub open spec fn keeps_old_values<A>(t0: Map<u64, A>, t: Map<u64, A>) -> bool {
    forall|k: u64| t.contains_key(k) && t0.contains_key(k) ==> #[trigger] t[k] == t0[k]
}

/// The slot numbers of a sequence of handles.
pub open spec fn slots_of<A>(hs: Seq<Handle<A>>) -> Set<u64> {
    hs.map_values(|h: Handle<A>| h.index()).to_set()
}

/// Whether `t` is what carrying out plan `p` makes of table `old`, as far as
/// which slots hold items, the next slot number, the items of the plain
/// stores and the relation freelists go: the stores take the next slot
/// numbers in order, then the frees take out what they name, and each freed
/// item's handle enters every relation freelist.
pub open spec fn carried_out<A>(old: Table<A>, p: TablePlan<A>, t: Table<A>) -> bool {
    let n0 = old.next_index();
    let top = n0 + p.store_count();
    &&& t.next_index() == top
    &&& forall|k: u64| #[trigger]
        t@.contains_key(k) <==> ((old@.contains_key(k) || (n0 <= k < top)) && !p.freed().contains(k))
    &&& forall|i: int|
        0 <= i < p.stores().len() && #[trigger] t@.contains_key((n0 + i) as u64) ==> t@[(n0 + i) as u64] == p.stores()[i]
    &&& t.relation_count() == old.relation_count()
    &&& forall|i: int, x: u64|
        0 <= i < t.relation_count() ==> (#[trigger] t.freelist(i).contains(x) <==> (old.freelist(i).contains(x)
            || (p.freed().contains(x) && (old@.contains_key(x) || (n0 <= x < top)))))
}

impl<A> TablePlan<A> {
    /// The number of items the plan stores.
    pub open spec fn store_count(&self) -> nat {
        self.stores().len() + self.stores_then().len()
    }

    /// The slot numbers the plan frees.
    pub open spec fn freed(&self) -> Set<u64> {
        slots_of(self.frees())
    }

    /// Whether a table whose next slot number is `next` has room for the
    /// plan's stores.
    pub(crate) fn fits(&self, next: u64) -> (b: bool)
        ensures
            b == (next + self.store_count() < u64::MAX),
    {
        let total: u128 = next as u128 + self.store.len() as u128 + self.store_and.len() as u128;
        proof {
            assert(self.stores_then().len() == self.store_and@.len());
        }
        total < u64::MAX as u128
    }

    /// Carries out the plan's stores and plain frees on `table` and empties
    /// them. A store with a callback runs it on the stored item. Frees with
    /// a callback are neither carried out nor taken from the plan.
    pub(crate) fn execute_and_clear(&mut self, table: &mut Table<A>)
        requires
            old(table).wf(),
            old(table).next_index() + old(self).store_count() < u64::MAX,
        ensures
            final(self).stores().len() == 0,
            final(self).store_entries().len() == 0,
            final(self).frees().len() == 0,
            final(self).free_entries() == old(self).free_entries(),
            final(table).wf(),
            carried_out(*old(table), *old(self), *final(table)),
            keeps_old_values(old(table)@, final(table)@),
            keeps_layout(*old(table), *final(table)),
            final(table).refreshed(&*old(table), Set::empty()),
            forall|i: int|
                0 <= i < old(self).store_entries().len() && #[trigger] final(table)@.contains_key(
                    (old(table).next_index() + old(self).stores().len() + i) as u64,
                ) ==> exists|x: &mut A|
                    #![trigger old(self).store_entries()[i].callback.post(Handle::<A>::spec_at((old(table).next_index() + old(self).stores().len() + i) as u64), x)]
                    *x == old(self).store_entries()[i].item && *final(x) == final(table)@[(old(table).next_index() + old(self).stores().len() + i) as u64]
                        && old(self).store_entries()[i].callback.post(Handle::<A>::spec_at((old(table).next_index() + old(self).stores().len() + i) as u64), x),
    {
        proof {
            use_type_invariant(&*self);
        }
        let ghost t0 = *table;
        let ghost n0 = t0.next_index();
        let ghost p0 = *self;
        let ghost n1 = p0.stores().len();
        let ghost n2 = p0.stores_then().len();
        let ghost top = n0 + n1 + n2;
        let mut store: Vec<A> = Vec::new();
        std::mem::swap(&mut store, &mut self.store);
        let mut store_and: Vec<StoreAnd<A>> = Vec::new();
        std::mem::swap(&mut store_and, &mut self.store_and);
        let mut free: Vec<Handle<A>> = Vec::new();
        std::mem::swap(&mut free, &mut self.free);
        proof {
            assert(store@ == p0.stores());
            assert(store_and@.len() == n2);
            t0.lemma_stored_below_next();
            t0.lemma_refreshed_none();
        }
        for item in it: store.into_iter()
            invariant
                it.seq() == p0.stores(),
                top < u64::MAX,
                n1 == p0.stores().len(),
                top == n0 + n1 + n2,
                table.wf(),
                table.next_index() == n0 + it.index(),
                forall|k: u64| #[trigger] t0@.contains_key(k) ==> k < n0,
                forall|k: u64| #[trigger] table@.contains_key(k) <==> (t0@.contains_key(k) || (n0 <= k < n0 + it.index())),
                keeps_old_values(t0@, table@),
                forall|i: int| 0 <= i < it.index() ==> #[trigger] table@[(n0 + i) as u64] == p0.stores()[i],
                keeps_layout(t0, *table),
                table.refreshed(&t0, Set::empty()),
                forall|i: int| 0 <= i < table.relation_count() ==> #[trigger] table.freelist(i) == t0.freelist(i),
        {
            let ghost tb = *table;
            let h = table.store(item);
            proof {
                table.lemma_refreshed_then(&tb, &t0, Set::empty());
            }
            proof {
                assert forall|i: int, k: u64|
                    0 <= i < table.index_count() && t0@.contains_key(k) && table@.contains_key(k) implies #[trigger] table.position(i, k)
                    == t0.position(i, k) by {
                    assert(tb@.contains_key(k));
                }
                assert forall|i: int| 0 <= i < it.index() + 1 implies #[trigger] table@[(n0 + i) as u64] == p0.stores()[i] by {
                    if i < it.index() {
                        assert(tb@.contains_key((n0 + i) as u64));
                    }
                }
            }
        }
        let ghost mut done: int = 0;
        while store_and.len() > 0
            invariant
                store_and@ == p0.store_and@.subrange(done, n2 as int),
                0 <= done <= n2,
                p0.store_entries() == p0.store_and@,
                n2 == p0.store_and@.len(),
                forall|j: int| 0 <= j < n2 ==> #[trigger] p0.store_and@[j].callback.ready(),
                top < u64::MAX,
                top == n0 + n1 + n2,
                n1 == p0.stores().len(),
                table.wf(),
                table.next_index() == n0 + n1 + done,
                forall|k: u64| #[trigger] t0@.contains_key(k) ==> k < n0,
                forall|k: u64| #[trigger] table@.contains_key(k) <==> (t0@.contains_key(k) || (n0 <= k < n0 + n1 + done)),
                keeps_old_values(t0@, table@),
                forall|i: int| 0 <= i < n1 ==> #[trigger] table@[(n0 + i) as u64] == p0.stores()[i],
                keeps_layout(t0, *table),
                table.refreshed(&t0, Set::empty()),
                forall|i: int| 0 <= i < table.relation_count() ==> #[trigger] table.freelist(i) == t0.freelist(i),
                forall|i: int|
                    0 <= i < done && #[trigger] table@.contains_key((n0 + n1 + i) as u64) ==> exists|x: &mut A|
                        #![trigger p0.store_entries()[i].callback.post(Handle::<A>::spec_at((n0 + n1 + i) as u64), x)]
                        *x == p0.store_entries()[i].item && *final(x) == table@[(n0 + n1 + i) as u64]
                            && p0.store_entries()[i].callback.post(Handle::<A>::spec_at((n0 + n1 + i) as u64), x),
            decreases store_and@.len(),
        {
            let ghost idx = done;
            let ghost e = p0.store_and@[idx];
            proof {
                assert(store_and@[0] == e);
            }
            let entry = store_and.remove(0);
            let StoreAnd { item, callback } = entry;
            let ghost tb = *table;
            let h = table.store(item);
            let ghost before = table@;
            let ghost tc = *table;
            let mut v = table.take_item(h.ix());
            callback.call(h, &mut v);
            table.put_back(h.ix(), v, Ghost(before));
            proof {
                assert forall|i: int, k2: u64|
                    0 <= i < table.index_count() && #[trigger] table.indexed(i).contains_key(k2) implies table.indexed(i)[k2]
                    == if tb@.contains_key(k2) && !Set::<u64>::empty().contains(k2) {
                    tb.indexed(i)[k2]
                } else {
                    table@[k2]
                } by {
                    assert(table.indexed(i) == tc.indexed(i).insert(h.index(), v));
                    if k2 != h.index() {
                        assert(tc.indexed(i).contains_key(k2));
                    }
                }
                table.lemma_refreshed_then(&tb, &t0, Set::empty());
                let k = (n0 + n1 + idx) as u64;
                assert(h == Handle::<A>::spec_at(k));
                done = done + 1;
                assert forall|i: int|
                    0 <= i < done && #[trigger] table@.contains_key((n0 + n1 + i) as u64) implies exists|x: &mut A|
                        #![trigger p0.store_entries()[i].callback.post(Handle::<A>::spec_at((n0 + n1 + i) as u64), x)]
                        *x == p0.store_entries()[i].item && *final(x) == table@[(n0 + n1 + i) as u64]
                            && p0.store_entries()[i].callback.post(Handle::<A>::spec_at((n0 + n1 + i) as u64), x) by {
                    if i < idx {
                        assert(tb@.contains_key((n0 + n1 + i) as u64));
                    } else {
                        assert(p0.store_entries()[i] == e);
                    }
                }
                assert forall|i: int, k2: u64|
                    0 <= i < table.index_count() && t0@.contains_key(k2) && table@.contains_key(k2) implies #[trigger] table.position(i, k2)
                    == t0.position(i, k2) by {
                    assert(tb@.contains_key(k2));
                    assert(tc.position(i, k2) == tb.position(i, k2));
                }
                assert forall|i: int| 0 <= i < n1 implies #[trigger] table@[(n0 + i) as u64] == p0.stores()[i] by {
                    assert(tb@.contains_key((n0 + i) as u64));
                }
                assert(store_and@ =~= p0.store_and@.subrange(idx + 1, n2 as int));
            }
        }
        let ghost mid = *table;
        proof {
            assert(store_and@.len() == 0);
            assert(done == n2);
            assert forall|i: int|
                0 <= i < n2 && #[trigger] mid@.contains_key((n0 + n1 + i) as u64) implies exists|x: &mut A|
                    #![trigger p0.store_entries()[i].callback.post(Handle::<A>::spec_at((n0 + n1 + i) as u64), x)]
                    *x == p0.store_entries()[i].item && *final(x) == mid@[(n0 + n1 + i) as u64]
                        && p0.store_entries()[i].callback.post(Handle::<A>::spec_at((n0 + n1 + i) as u64), x) by {
                assert(table@.contains_key((n0 + n1 + i) as u64));
            }
        }
        let ghost mut gone = Set::<u64>::empty();
        for h in it: free.into_iter()
            invariant
                it.seq() == p0.frees(),
                forall|x: u64| #[trigger] slots_of(p0.frees()).contains(x) ==> exists|j: int| 0 <= j < it.seq().len() && it.seq()[j].index() == x,
                top < u64::MAX,
                top == n0 + n1 + n2,
                table.wf(),
                table.next_index() == top,
                forall|x: u64| #[trigger] gone.contains(x) ==> exists|j: int| 0 <= j < it.index() && it.seq()[j].index() == x,
                forall|j: int| 0 <= j < it.index() ==> #[trigger] gone.contains(it.seq()[j].index()),
                forall|k: u64| #[trigger] table@.contains_key(k) <==> ((t0@.contains_key(k) || (n0 <= k < top)) && !gone.contains(k)),
                keeps_old_values(t0@, table@),
                forall|i: int| 0 <= i < n1 && #[trigger] table@.contains_key((n0 + i) as u64) ==> table@[(n0 + i) as u64] == p0.stores()[i],
                keeps_layout(t0, *table),
                table.refreshed(&t0, Set::empty()),
                forall|i: int, x: u64| 0 <= i < table.relation_count() ==> (#[trigger] table.freelist(i).contains(x)
                    <==> (t0.freelist(i).contains(x) || (gone.contains(x) && (t0@.contains_key(x) || (n0 <= x < top))))),
                forall|k: u64| #[trigger] table@.contains_key(k) ==> mid@.contains_key(k) && table@[k] == mid@[k],
                forall|i: int|
                    0 <= i < n2 && #[trigger] mid@.contains_key((n0 + n1 + i) as u64) ==> exists|x: &mut A|
                        #![trigger p0.store_entries()[i].callback.post(Handle::<A>::spec_at((n0 + n1 + i) as u64), x)]
                        *x == p0.store_entries()[i].item && *final(x) == mid@[(n0 + n1 + i) as u64]
                            && p0.store_entries()[i].callback.post(Handle::<A>::spec_at((n0 + n1 + i) as u64), x),
                n1 == p0.stores().len(),
                n2 == p0.store_entries().len(),
                p0.store_entries() == p0.store_and@,
        {
            let ghost tb = *table;
            let ghost gprev = gone;
            let r = table.free(h);
            proof {
                table.lemma_refreshed_then(&tb, &t0, Set::empty());
                gone = gone.insert(h.index());
                assert forall|i: int, k: u64|
                    0 <= i < table.index_count() && t0@.contains_key(k) && table@.contains_key(k) implies #[trigger] table.position(i, k)
                    == t0.position(i, k) by {
                    assert(tb@.contains_key(k));
                }
                assert forall|i: int, x: u64| 0 <= i < table.relation_count() implies (#[trigger] table.freelist(i).contains(x)
                    <==> (t0.freelist(i).contains(x) || (gone.contains(x) && (t0@.contains_key(x) || (n0 <= x < top))))) by {
                    assert(tb.freelist(i).contains(x) <==> (t0.freelist(i).contains(x) || (gprev.contains(x) && (t0@.contains_key(x) || (n0 <= x < top)))));
                }
            }
        }
        proof {
            let fs = p0.frees();
            assert forall|x: u64| gone.contains(x) implies slots_of(fs).contains(x) by {
                let j = choose|j: int| 0 <= j < fs.len() && fs[j].index() == x;
                assert(fs.map_values(|h: Handle<A>| h.index())[j] == x);
            }
            assert forall|x: u64| slots_of(fs).contains(x) implies gone.contains(x) by {
                let j = choose|j: int| 0 <= j < fs.len() && fs[j].index() == x;
                assert(gone.contains(fs[j].index()));
            }
            assert(gone =~= slots_of(p0.frees()));
        }
        proof {
            assert(gone =~= p0.freed());
            assert forall|i: int|
                0 <= i < old(self).store_entries().len() && #[trigger] table@.contains_key(
                    (old(table).next_index() + old(self).stores().len() + i) as u64,
                ) implies exists|x: &mut A|
                    #![trigger old(self).store_entries()[i].callback.post(Handle::<A>::spec_at((old(table).next_index() + old(self).stores().len() + i) as u64), x)]
                    *x == old(self).store_entries()[i].item && *final(x) == table@[(old(table).next_index() + old(self).stores().len() + i) as u64]
                        && old(self).store_entries()[i].callback.post(Handle::<A>::spec_at((old(table).next_index() + old(self).stores().len() + i) as u64), x) by {
                let k = (n0 + n1 + i) as u64;
                assert(mid@.contains_key(k));
                assert(table@[k] == mid@[k]);
            }
        }
    }
}

/// `mutate` carries into the indices the change of every item it visited,
/// save only the last one where its call asked to stop, and of no item it
/// did not visit.
pub proof fn lemma_reindexed_visited(hs: Seq<u64>, n: int, stop: bool)
    requires
        0 <= n <= hs.len(),
        hs.no_duplicates(),
        stop ==> n > 0,
    ensures
        forall|j: int| 0 <= j < n && !(stop && j == n - 1) ==> reindexed(hs, n, stop).contains(#[trigger] hs[j]),
        forall|k: u64| #[trigger] reindexed(hs, n, stop).contains(k) ==> exists|j: int| 0 <= j < n && hs[j] == k,
        stop ==> !reindexed(hs, n, stop).contains(hs[n - 1]),
        !stop ==> reindexed(hs, n, stop) == hs.take(n).to_set(),
{
    let m = if stop { n - 1 } else { n };
    let tk = hs.take(m);
    assert forall|j: int| 0 <= j < n && !(stop && j == n - 1) implies reindexed(hs, n, stop).contains(#[trigger] hs[j]) by {
        assert(tk[j] == hs[j]);
    }
    assert forall|k: u64| #[trigger] reindexed(hs, n, stop).contains(k) implies exists|j: int| 0 <= j < n && hs[j] == k by {
        let j = choose|j: int| 0 <= j < tk.len() && tk[j] == k;
        assert(hs[j] == k);
    }
    if stop {
        if tk.contains(hs[n - 1]) {
            let j = choose|j: int| 0 <= j < tk.len() && tk[j] == hs[n - 1];
            assert(hs[j] == hs[n - 1]);
        }
    }
}

/// The slots whose changes `mutate` carries into the indices: the first
/// `n` of `hs`, but for the last of them where its call asked to stop.
pub open spec fn reindexed(hs: Seq<u64>, n: int, stop: bool) -> Set<u64> {
    hs.take(if stop { n - 1 } else { n }).to_set()
}

impl<A> Table<A> {
    /// Runs `cb` on the items in the order that `base` asks for, letting it
    /// change each item and ask for stores and frees through a plan, until
    /// it asks to stop; then brings the indices up to date and carries out
    /// the plan, as long as the handle numbers suffice for its stores.
    ///
    /// In the `ensures`: `hs` is the order of `base`, the first `n` of them
    /// were visited, `stop` tells whether the last call asked to stop,
    /// `plans[j]` is the plan as the `j`-th call found it, and `m1` holds the
    /// items as the calls left them, before the plan is carried out. The
    /// indices see the changes of every visited item but the one whose call
    /// asked to stop: they go on seeing that one as it was.
    pub fn mutate<F, E>(&mut self, base: Query<A>, cb: F) where
        F: Fn(Handle<A>, &mut A, &mut TablePlan<A>) -> E,
        E: End,

        requires
            old(self).wf(),
            base.index_number() < old(self).index_count(),
            forall|h: Handle<A>, x: &mut A, p: &mut TablePlan<A>| #[trigger] cb.requires((h, x, p)),
        ensures
            final(self).wf(),
            final(self).index_count() == old(self).index_count(),
            forall|i: int|
                0 <= i < final(self).index_count() ==> #[trigger] final(self).order(i) == old(self).order(i),
            forall|i: int, k: u64|
                0 <= i < final(self).index_count() && old(self)@.contains_key(k) && final(self)@.contains_key(k) ==> #[trigger] final(self).position(i, k) == old(self).position(i, k),
            exists|hs: Seq<u64>, n: int, stop: bool, plans: Seq<TablePlan<A>>, m1: Map<u64, A>|
                #![trigger old(self).answers(base, hs), plans[n], m1.dom(), reindexed(hs, n, stop)]
                {
                    &&& old(self).answers(base, hs)
                    &&& 0 <= n <= hs.len()
                    &&& n < hs.len() ==> stop
                    &&& stop ==> n > 0
                    &&& final(self).refreshed(old(self), reindexed(hs, n, stop))
                    &&& plans.len() == n + 1
                    &&& plans[0].is_empty()
                    &&& m1.dom() == old(self)@.dom()
                    &&& forall|k: u64|
                        #[trigger] old(self)@.contains_key(k) && !hs.take(n).contains(k) ==> m1[k] == old(self)@[k]
                    &&& forall|j: int|
                        #![trigger hs[j]]
                        0 <= j < n ==> exists|x: &mut A, p: &mut TablePlan<A>, e: E|
                            #![trigger cb.ensures((Handle::<A>::spec_at(hs[j]), x, p), e)]
                            {
                                &&& *x == old(self)@[hs[j]]
                                &&& *final(x) == m1[hs[j]]
                                &&& *p == plans[j]
                                &&& *final(p) == plans[j + 1]
                                &&& cb.ensures((Handle::<A>::spec_at(hs[j]), x, p), e)
                                &&& j + 1 < n ==> !e.stops()
                                &&& j + 1 == n ==> e.stops() == stop
                            }
                    &&& if old(self).next_index() + plans[n].store_count() < u64::MAX {
                        &&& carried_out(*old(self), plans[n], *final(self))
                        &&& forall|k: u64|
                            #[trigger] final(self)@.contains_key(k) && old(self)@.contains_key(k) ==> final(self)@[k] == m1[k]
                        &&& forall|i: int|
                            0 <= i < plans[n].store_entries().len() && #[trigger] final(self)@.contains_key(
                                (old(self).next_index() + plans[n].stores().len() + i) as u64,
                            ) ==> exists|x: &mut A|
                                #![trigger plans[n].store_entries()[i].callback.post(Handle::<A>::spec_at((old(self).next_index() + plans[n].stores().len() + i) as u64), x)]
                                *x == plans[n].store_entries()[i].item
                                    && *final(x) == final(self)@[(old(self).next_index() + plans[n].stores().len() + i) as u64]
                                    && plans[n].store_entries()[i].callback.post(Handle::<A>::spec_at((old(self).next_index() + plans[n].stores().len() + i) as u64), x)
                    } else {
                        &&& final(self)@ == m1
                        &&& final(self).next_index() == old(self).next_index()
                        &&& final(self).keeps_freelists(old(self))
                    }
                },
    {
        let ghost t0 = *self;
        let hs = self.query_order(&base);
        proof {
            t0.lemma_refreshed_none();
            assert(reindexed(hs@, 0, false) =~= Set::<u64>::empty());
        }
        let mut plan: TablePlan<A> = TablePlan::new();
        let ghost mut plans: Seq<TablePlan<A>> = seq![plan];
        let mut i: usize = 0;
        let mut stopped = false;
        while i < hs.len() && !stopped
            invariant
                i <= hs@.len(),
                stopped ==> i > 0,
                t0.answers(base, hs@),
                hs@.no_duplicates(),
                forall|j: int| 0 <= j < hs@.len() ==> t0@.contains_key(#[trigger] hs@[j]),
                forall|h: Handle<A>, x: &mut A, p: &mut TablePlan<A>| #[trigger] cb.requires((h, x, p)),
                plans.len() == i + 1,
                plans[0].is_empty(),
                plans[i as int] == plan,
                self.wf(),
                self@.dom() == t0@.dom(),
                self.next_index() == t0.next_index(),
                self.index_count() == t0.index_count(),
                forall|j: int| 0 <= j < self.index_count() ==> #[trigger] self.order(j) == t0.order(j),
                forall|j: int, k: u64|
                    0 <= j < self.index_count() && t0@.contains_key(k) ==> #[trigger] self.position(j, k) == t0.position(j, k),
                self.keeps_freelists(&t0),
                self.refreshed(&t0, reindexed(hs@, i as int, stopped)),
                forall|k: u64| #[trigger] t0@.contains_key(k) && !hs@.take(i as int).contains(k) ==> self@[k] == t0@[k],
                forall|j: int| 0 <= j < i ==> exists|x: &mut A, p: &mut TablePlan<A>, e: E|
                    #![trigger cb.ensures((Handle::<A>::spec_at(hs@[j]), x, p), e)]
                    {
                        &&& *x == t0@[hs@[j]]
                        &&& *final(x) == self@[#[trigger] hs@[j]]
                        &&& *p == plans[j]
                        &&& *final(p) == plans[j + 1]
                        &&& cb.ensures((Handle::<A>::spec_at(hs@[j]), x, p), e)
                        &&& (j + 1 < i || !stopped) ==> !e.stops()
                        &&& (j + 1 == i && stopped) ==> e.stops()
                    },
            decreases hs@.len() - i,
        {
            let h = hs[i];
            let ghost before = self@;
            let ghost tb = *self;
            let ghost plan_before = plan;
            let ghost plans_before = plans;
            let mut value = self.take_item(h);
            let ghost v0 = value;
            let result = cb(Handle::at(h), &mut value, &mut plan);
            let stops = result.breaks_loop();
            assert(exists|x: &mut A, p: &mut TablePlan<A>, e: E|
                #![trigger cb.ensures((Handle::<A>::spec_at(h), x, p), e)]
                *x == v0 && *final(x) == value && *p == plan_before && *final(p) == plan
                    && cb.ensures((Handle::<A>::spec_at(h), x, p), e) && e.stops() == stops);
            if stops {
                self.put_back_stale(h, value, Ghost(before));
            } else {
                self.put_back(h, value, Ghost(before));
            }
            proof {
                assert(!hs@.take(i as int).contains(h)) by {
                    if hs@.take(i as int).contains(h) {
                        let j = choose|j: int| 0 <= j < i && hs@.take(i as int)[j] == h;
                        assert(hs@[j] == hs@[i as int]);
                    }
                }
                assert(reindexed(hs@, i as int, false) == hs@.take(i as int).to_set());
                assert(hs@.take(i + 1) =~= hs@.take(i as int).push(h));
                assert forall|j: int, k: u64|
                    0 <= j < self.index_count() && #[trigger] self.indexed(j).contains_key(k) implies self.indexed(j)[k]
                    == if t0@.contains_key(k) && !reindexed(hs@, i + 1, stops).contains(k) {
                    t0.indexed(j)[k]
                } else {
                    self@[k]
                } by {
                    if k != h {
                        assert(tb.indexed(j).contains_key(k));
                        let ti1 = hs@.take(i + 1);
                        let ti = hs@.take(i as int);
                        assert(ti1.contains(k) == ti.contains(k)) by {
                            if ti1.contains(k) {
                                let m = choose|m: int| 0 <= m < ti1.len() && ti1[m] == k;
                                assert(m != i);
                                assert(ti[m] == k);
                            }
                            if ti.contains(k) {
                                let m = choose|m: int| 0 <= m < ti.len() && ti[m] == k;
                                assert(ti1[m] == k);
                            }
                        }
                    } else if stops {
                        assert(tb.indexed(j).contains_key(k));
                    } else {
                        assert(hs@.take(i + 1)[i as int] == h);
                    }
                }
                plans = plans.push(plan);
                assert(hs@.take(i + 1) =~= hs@.take(i as int).push(h));
                assert forall|k: u64| #[trigger] t0@.contains_key(k) && !hs@.take(i + 1).contains(k) implies self@[k] == t0@[k] by {
                    assert(hs@.take(i + 1)[i as int] == h);
                    if hs@.take(i as int).contains(k) {
                        let j = choose|j: int| 0 <= j < i && hs@.take(i as int)[j] == k;
                        assert(hs@.take(i + 1)[j] == k);
                    }
                    assert(k != h);
                }
                assert(self@.dom() =~= t0@.dom());
                assert(!hs@.take(i as int).contains(h)) by {
                    if hs@.take(i as int).contains(h) {
                        let j = choose|j: int| 0 <= j < i && hs@.take(i as int)[j] == h;
                        assert(hs@[j] == hs@[i as int]);
                    }
                }
                assert forall|j: int| 0 <= j < i + 1 implies exists|x: &mut A, p: &mut TablePlan<A>, e: E|
                    #![trigger cb.ensures((Handle::<A>::spec_at(hs@[j]), x, p), e)]
                    {
                        &&& *x == t0@[hs@[j]]
                        &&& *final(x) == self@[#[trigger] hs@[j]]
                        &&& *p == plans[j]
                        &&& *final(p) == plans[j + 1]
                        &&& cb.ensures((Handle::<A>::spec_at(hs@[j]), x, p), e)
                        &&& (j + 1 < i + 1 || !stops) ==> !e.stops()
                        &&& (j + 1 == i + 1 && stops) ==> e.stops()
                    } by {
                    if j < i {
                        assert(hs@[j] != h);
                        assert(plans[j] == plans_before[j]);
                        assert(plans[j + 1] == plans_before[j + 1]);
                    } else {
                        assert(plans[j] == plan_before);
                        assert(plans[j + 1] == plan);
                    }
                }
            }
            i = i + 1;
            stopped = stops;
        }
        let ghost visited = i as int;
        let ghost t1 = *self;
        let ghost m1 = t1@;
        proof {
            t0.lemma_stored_below_next();
            assert forall|k: u64|
                #[trigger] t0@.contains_key(k) && !hs@.take(visited).contains(k) implies m1[k] == t0@[k] by {
            }
            assert forall|j: int| #![trigger hs@[j]] 0 <= j < visited implies exists|x: &mut A, p: &mut TablePlan<A>, e: E|
                #![trigger cb.ensures((Handle::<A>::spec_at(hs@[j]), x, p), e)]
                {
                    &&& *x == t0@[hs@[j]]
                    &&& *final(x) == m1[hs@[j]]
                    &&& *p == plans[j]
                    &&& *final(p) == plans[j + 1]
                    &&& cb.ensures((Handle::<A>::spec_at(hs@[j]), x, p), e)
                    &&& j + 1 < visited ==> !e.stops()
                    &&& j + 1 == visited && visited < hs@.len() ==> e.stops()
                } by {
                assert(t1@.contains_key(hs@[j]));
            }
        }
        if plan.fits(self.next_index_exec()) {
            let ghost p1 = plan;
            plan.execute_and_clear(self);
            proof {
                self.lemma_refreshed_then(&t1, &t0, reindexed(hs@, visited, stopped));
                assert forall|k: u64|
                    #[trigger] self@.contains_key(k) && t0@.contains_key(k) implies self@[k] == m1[k] by {
                    assert(t1@.contains_key(k));
                }
                assert forall|j: int, k: u64|
                    0 <= j < self.index_count() && t0@.contains_key(k) && self@.contains_key(k) implies #[trigger] self.position(j, k) == t0.position(j, k) by {
                    assert(t1@.contains_key(k));
                }
                assert forall|k: u64| #[trigger] t1@.contains_key(k) == t0@.contains_key(k) by {
                    assert(t1@.dom().contains(k) == t0@.dom().contains(k));
                }
                assert forall|j: int, x: u64| 0 <= j < t1.relation_count() implies #[trigger] t1.freelist(j).contains(x) == t0.freelist(j).contains(x) by {
                    assert(t1.freelist(j) == t0.freelist(j));
                }
                assert(carried_out(t0, p1, *self));
                assert forall|i: int|
                    0 <= i < p1.store_entries().len() && #[trigger] self@.contains_key(
                        (t0.next_index() + p1.stores().len() + i) as u64,
                    ) implies exists|x: &mut A|
                        #![trigger p1.store_entries()[i].callback.post(Handle::<A>::spec_at((t0.next_index() + p1.stores().len() + i) as u64), x)]
                        *x == p1.store_entries()[i].item
                            && *final(x) == self@[(t0.next_index() + p1.stores().len() + i) as u64]
                            && p1.store_entries()[i].callback.post(Handle::<A>::spec_at((t0.next_index() + p1.stores().len() + i) as u64), x) by {
                    assert(t1.next_index() == t0.next_index());
                }
            }
        }
        proof {
            assert(t0.answers(base, hs@));
            assert(plans[visited] == plans[visited]);
            assert(m1.dom() == t0@.dom());
            assert(self.refreshed(&t0, reindexed(hs@, visited, stopped)));
        }
    }
}


/// A plan frees every handle that `free` put into it, and no other: each
/// handle listed among its frees is in `freed()`, and once the plan is
/// carried out no item remains under any of them.
pub proof fn lemma_plan_frees_every_listed_handle<A>(old: Table<A>, p: TablePlan<A>, t: Table<A>)
    ensures
        forall|j: int| 0 <= j < p.frees().len() ==> p.freed().contains(#[trigger] p.frees()[j].index()),
        forall|x: u64| #[trigger] p.freed().contains(x) ==> exists|j: int| 0 <= j < p.frees().len() && p.frees()[j].index() == x,
        carried_out(old, p, t) ==> forall|j: int|
            0 <= j < p.frees().len() ==> !t@.contains_key(#[trigger] p.frees()[j].index()),
{
    let fs = p.frees();
    let ix = fs.map_values(|h: Handle<A>| h.index());
    assert forall|j: int| 0 <= j < fs.len() implies p.freed().contains(#[trigger] fs[j].index()) by {
        assert(ix[j] == fs[j].index());
    }
    assert forall|x: u64| #[trigger] p.freed().contains(x) implies exists|j: int| 0 <= j < fs.len() && fs[j].index() == x by {
        let j = choose|j: int| 0 <= j < ix.len() && ix[j] == x;
        assert(fs[j].index() == x);
    }
}
} // verus!
