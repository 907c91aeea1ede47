//! One-to-one relations between the items of two tables, or of one table
//! and itself.
use crate::handle::Handle;
use crate::loops::End;
use crate::source::{collected, join_collected, join_do_frees, keep_pairs, paired, self_collected, self_join_do_frees};
use crate::table::Table;
use std::collections::HashMap;
use std::collections::HashSet;
use std::marker::PhantomData;
use vstd::prelude::*;
use vstd::view::View as _;

verus! {

broadcast use {vstd::std_specs::hash::group_hash_axioms, crate::handle::group_handle};

/// What a reading of a relation sees: the pairs from each side, and the
/// handles on each side freed since the relation last collected them.
pub struct RelationState {
    pub forward: Map<u64, u64>,
    pub backward: Map<u64, u64>,
    pub from_freed: Set<u64>,
    pub to_freed: Set<u64>,
}

impl RelationState {
    /// Whether `f` is related to `t`, neither of them freed.
    pub open spec fn related(self, f: u64, t: u64) -> bool {
        &&& self.forward.contains_key(f)
        &&& self.forward[f] == t
        &&& !self.from_freed.contains(f)
        &&& !self.to_freed.contains(t)
    }

    /// What `f` is related to, unless that was freed.
    pub open spec fn image(self, f: u64) -> Option<u64> {
        if self.forward.contains_key(f) && !self.to_freed.contains(self.forward[f]) {
            Some(self.forward[f])
        } else {
            None
        }
    }

    /// What is related to `t`, unless that was freed.
    pub open spec fn preimage(self, t: u64) -> Option<u64> {
        if self.backward.contains_key(t) && !self.from_freed.contains(self.backward[t]) {
            Some(self.backward[t])
        } else {
            None
        }
    }
}

/// The slot numbers of an optional handle.
pub open spec fn opt_index<A>(h: Option<Handle<A>>) -> Option<u64> {
    match h {
        Some(x) => Some(x.index()),
        None => None,
    }
}

/// The slot numbers of a sequence of handles.
pub open spec fn indices_of<A>(hs: Seq<Handle<A>>) -> Seq<u64> {
    hs.map_values(|h: Handle<A>| h.index())
}

/// The slot numbers in an optional slot number, as a sequence.
pub open spec fn opt_seq(o: Option<u64>) -> Seq<u64> {
    match o {
        Some(x) => seq![x],
        None => Seq::empty(),
    }
}

/// The pairs of a one-to-one relation, held from both sides, and which
/// relation freelist of each table tells it of freed handles.
pub struct Abs<TFrom, TTo> {
    ix_from: usize,
    ix_to: usize,
    from_2_to: HashMap<u64, u64>,
    to_2_from: HashMap<u64, u64>,
    phantom: PhantomData<(TFrom, TTo)>,
}

impl<TFrom, TTo> Abs<TFrom, TTo> {
    /// The pairs, by their `from` side.
    pub closed spec fn forward(&self) -> Map<u64, u64> {
        self.from_2_to@
    }

    /// The pairs, by their `to` side.
    pub closed spec fn backward(&self) -> Map<u64, u64> {
        self.to_2_from@
    }

    /// The relation freelist of the `from` table.
    pub closed spec fn from_slot(&self) -> int {
        self.ix_from as int
    }

    /// The relation freelist of the `to` table.
    pub closed spec fn to_slot(&self) -> int {
        self.ix_to as int
    }

    fn new(ix_from: usize, ix_to: usize) -> (a: Self)
        ensures
            a.forward() == Map::<u64, u64>::empty(),
            a.backward() == Map::<u64, u64>::empty(),
            a.from_slot() == ix_from,
            a.to_slot() == ix_to,
    {
        Abs {
            ix_from,
            ix_to,
            from_2_to: HashMap::new(),
            to_2_from: HashMap::new(),
            phantom: PhantomData,
        }
    }
}

/// A one-to-one relation from the items of one table to those of another.
pub struct Rel<TFrom, TTo> {
    inner: Abs<TFrom, TTo>,
}

/// A one-to-one relation between the items of one table.
pub struct RelSelf<TSelf> {
    inner: Abs<TSelf, TSelf>,
}

impl<TFrom, TTo> Rel<TFrom, TTo> {
    /// The relation's pairs and freelist numbers.
    pub closed spec fn abs(&self) -> Abs<TFrom, TTo> {
        self.inner
    }

    /// The pairs and freed handles that a reading against `from` and `to`
    /// sees.
    pub open spec fn reading(&self, from: &Table<TFrom>, to: &Table<TTo>) -> RelationState {
        state_of(self.abs(), from.freelist(self.abs().from_slot()), to.freelist(self.abs().to_slot()))
    }

    /// The pairs and freed handles that `reify_mut` and the mutations see:
    /// both freelists taken at the `from` slot.
    pub open spec fn reading_mut(&self, from: &Table<TFrom>, to: &Table<TTo>) -> RelationState {
        state_of(self.abs(), from.freelist(self.abs().from_slot()), to.freelist(self.abs().from_slot()))
    }
}

impl<TSelf> RelSelf<TSelf> {
    /// The relation's pairs and freelist number.
    pub closed spec fn abs(&self) -> Abs<TSelf, TSelf> {
        self.inner
    }

    /// The pairs and freed handles that a reading against `tself` sees.
    pub open spec fn reading(&self, tself: &Table<TSelf>) -> RelationState {
        state_of(self.abs(), tself.freelist(self.abs().from_slot()), tself.freelist(self.abs().from_slot()))
    }

    /// A relation of a table with itself reads one freelist for both sides.
    pub open spec fn wf(&self) -> bool {
        self.abs().from_slot() == self.abs().to_slot()
    }
}

/// A reading of a relation against the tables it relates.
pub struct View<'q, TFrom, TTo> {
    abs: &'q Abs<TFrom, TTo>,
    l_freelist: &'q HashSet<u64>,
    r_freelist: &'q HashSet<u64>,
}

/// Read and write access to a relation against the tables it relates.
/// `r_freelist` is `None` where the relation joins a table to itself, and
/// `l_freelist` serves both sides.
pub struct Mut<'q, TFrom, TTo> {
    pub abs: &'q mut Abs<TFrom, TTo>,
    pub l_freelist: &'q mut HashSet<u64>,
    pub r_freelist: Option<&'q mut HashSet<u64>>,
    pub l_store: &'q HashMap<u64, TFrom>,
    pub r_store: &'q HashMap<u64, TTo>,
}

/// Reading a relation: which pairs hold, seen through the freelists.
pub trait CanView<TFrom, TTo> {
    /// The pairs and the freed handles that the reading sees.
    spec fn state(&self) -> RelationState;

    /// Whether `f` and `t` are related, neither of them freed.
    fn has(&self, f: Handle<TFrom>, t: Handle<TTo>) -> (r: bool)
        ensures
            r == self.state().related(f.index(), t.index()),
    ;

    /// Whether `f` is related to an item that was not freed.
    fn has_from(&self, f: Handle<TFrom>) -> (r: bool)
        ensures
            r == self.state().image(f.index()) is Some,
    ;

    /// Whether an item that was not freed is related to `t`.
    fn has_to(&self, t: Handle<TTo>) -> (r: bool)
        ensures
            r == self.state().preimage(t.index()) is Some,
    ;

    /// The item `f` is related to, unless it was freed.
    fn from(&self, f: Handle<TFrom>) -> (r: Option<Handle<TTo>>)
        ensures
            opt_index(r) == self.state().image(f.index()),
    ;

    /// The items `f` is related to and that were not freed (one at most).
    fn froms(&self, f: Handle<TFrom>) -> (r: Vec<Handle<TTo>>)
        ensures
            indices_of(r@) == opt_seq(self.state().image(f.index())),
    ;

    /// The item related to `t`, unless it was freed.
    fn to(&self, t: Handle<TTo>) -> (r: Option<Handle<TFrom>>)
        ensures
            opt_index(r) == self.state().preimage(t.index()),
    ;

    /// The items related to `t` and that were not freed (one at most).
    fn tos(&self, t: Handle<TTo>) -> (r: Vec<Handle<TFrom>>)
        ensures
            indices_of(r@) == opt_seq(self.state().preimage(t.index())),
    ;
}

/// The reading of `abs` through the given freelists.
pub open spec fn state_of<TFrom, TTo>(abs: Abs<TFrom, TTo>, from_freed: Set<u64>, to_freed: Set<u64>) -> RelationState {
    RelationState { forward: abs.forward(), backward: abs.backward(), from_freed, to_freed }
}

/// Whether `f` is related to `t` by the maps of `abs`, neither of them in
/// its freelist.
fn abs_has<TFrom, TTo>(abs: &Abs<TFrom, TTo>, l: &HashSet<u64>, r: &HashSet<u64>, f: u64, t: u64) -> (b: bool)
    ensures
        b == state_of(*abs, l@, r@).related(f, t),
{
    match abs.from_2_to.get(&f) {
        None => false,
        Some(existing) => {
            if *existing != t {
                return false;
            }
            // only the freelists are consulted: a handle that names no stored
            // item but is in no freelist still reads as related
            if l.contains(&f) {
                return false;
            }
            if r.contains(&t) {
                return false;
            }
            true
        },
    }
}

/// What `f` is related to by the maps of `abs`, unless that is in `r`.
fn abs_from<TFrom, TTo>(abs: &Abs<TFrom, TTo>, l: &HashSet<u64>, r: &HashSet<u64>, f: u64) -> (o: Option<u64>)
    ensures
        o == state_of(*abs, l@, r@).image(f),
{
    match abs.from_2_to.get(&f) {
        None => None,
        Some(existing) => {
            if r.contains(existing) {
                return None;
            }
            Some(*existing)
        },
    }
}

/// What is related to `t` by the maps of `abs`, unless that is in `l`.
fn abs_to<TFrom, TTo>(abs: &Abs<TFrom, TTo>, l: &HashSet<u64>, r: &HashSet<u64>, t: u64) -> (o: Option<u64>)
    ensures
        o == state_of(*abs, l@, r@).preimage(t),
{
    match abs.to_2_from.get(&t) {
        None => None,
        Some(existing) => {
            if l.contains(existing) {
                return None;
            }
            Some(*existing)
        },
    }
}

fn handle_opt<A>(o: Option<u64>) -> (r: Option<Handle<A>>)
    ensures
        opt_index(r) == o,
{
    match o {
        None => None,
        Some(x) => Some(Handle::at(x)),
    }
}

fn handle_vec<A>(o: Option<u64>) -> (r: Vec<Handle<A>>)
    ensures
        indices_of(r@) == opt_seq(o),
{
    let mut v: Vec<Handle<A>> = Vec::new();
    match o {
        None => {},
        Some(x) => {
            v.push(Handle::at(x));
        },
    }
    proof {
        assert(indices_of(v@) =~= opt_seq(o));
    }
    v
}

impl<'q, TFrom, TTo> CanView<TFrom, TTo> for View<'q, TFrom, TTo> {
    closed spec fn state(&self) -> RelationState {
        state_of(*self.abs, self.l_freelist@, self.r_freelist@)
    }

    fn has(&self, f: Handle<TFrom>, t: Handle<TTo>) -> (r: bool) {
        abs_has(self.abs, self.l_freelist, self.r_freelist, f.ix(), t.ix())
    }

    fn has_from(&self, f: Handle<TFrom>) -> (r: bool) {
        self.from(f).is_some()
    }

    fn has_to(&self, t: Handle<TTo>) -> (r: bool) {
        self.to(t).is_some()
    }

    fn from(&self, f: Handle<TFrom>) -> (r: Option<Handle<TTo>>) {
        handle_opt(abs_from(self.abs, self.l_freelist, self.r_freelist, f.ix()))
    }

    fn froms(&self, f: Handle<TFrom>) -> (r: Vec<Handle<TTo>>) {
        handle_vec(abs_from(self.abs, self.l_freelist, self.r_freelist, f.ix()))
    }

    fn to(&self, t: Handle<TTo>) -> (r: Option<Handle<TFrom>>) {
        handle_opt(abs_to(self.abs, self.l_freelist, self.r_freelist, t.ix()))
    }

    fn tos(&self, t: Handle<TTo>) -> (r: Vec<Handle<TFrom>>) {
        handle_vec(abs_to(self.abs, self.l_freelist, self.r_freelist, t.ix()))
    }
}


impl<'q, TFrom, TTo> Mut<'q, TFrom, TTo> {
    /// The handles freed on the `to` side since the last collection.
    pub open spec fn to_freed(&self) -> Set<u64> {
        match self.r_freelist {
            Some(r) => r@,
            None => self.l_freelist@,
        }
    }

    /// Whether no freed handle that the reading sees names an item of the
    /// stores.
    pub open spec fn fresh(&self) -> bool {
        &&& forall|x: u64| #[trigger] self.state().from_freed.contains(x) ==> !self.l_store@.contains_key(x)
        &&& forall|x: u64| #[trigger] self.state().to_freed.contains(x) ==> !self.r_store@.contains_key(x)
    }

    fn r_set(&self) -> (r: &HashSet<u64>)
        ensures
            r@ == self.to_freed(),
    {
        match &self.r_freelist {
            Some(r) => &**r,
            None => &*self.l_freelist,
        }
    }

    /// Drops the pairs of every handle freed since the last collection, and
    /// empties the freelists.
    pub fn gc(&mut self)
        ensures
            final(self).fresh(),
            final(self).state().from_freed == Set::<u64>::empty(),
            final(self).state().to_freed == Set::<u64>::empty(),
            collected(
                old(self).state().forward,
                old(self).state().backward,
                old(self).state().from_freed,
                old(self).state().to_freed,
                final(self).state().forward,
                final(self).state().backward,
            ),
            old(self).r_freelist is Some ==> (final(self).state().forward, final(self).state().backward)
                == join_collected(
                old(self).state().forward,
                old(self).state().backward,
                old(self).state().from_freed,
                old(self).state().to_freed,
            ),
            old(self).r_freelist is None ==> exists|order: Seq<u64>|
                #![trigger self_collected(old(self).state().forward, old(self).state().backward, order)]
                order.no_duplicates() && order.to_set() == old(self).state().from_freed && (
                final(self).state().forward,
                final(self).state().backward,
            ) == self_collected(old(self).state().forward, old(self).state().backward, order),
            final(self).abs.from_slot() == old(self).abs.from_slot(),
            final(self).abs.to_slot() == old(self).abs.to_slot(),
            *final(final(self).abs) == *final(old(self).abs),
            *final(final(self).l_freelist) == *final(old(self).l_freelist),
            match (old(self).r_freelist, final(self).r_freelist) {
                (Some(a), Some(b)) => *final(b) == *final(a),
                (None, None) => true,
                _ => false,
            },
            final(self).l_store == old(self).l_store,
            final(self).r_store == old(self).r_store,
    {
        match &mut self.r_freelist {
            Some(r) => {
                join_do_frees(self.l_freelist, *r, &mut self.abs.from_2_to, &mut self.abs.to_2_from);
            },
            None => {
                self_join_do_frees(self.l_freelist, &mut self.abs.from_2_to, &mut self.abs.to_2_from);
            },
        }
    }

    /// Relates `tfrom` to `tto`; both must be stored in their tables.
    pub fn map(&mut self, tfrom: Handle<TFrom>, tto: Handle<TTo>)
        requires
            old(self).l_store@.contains_key(tfrom.index()),
            old(self).r_store@.contains_key(tto.index()),
        ensures
            old(self).fresh() ==> final(self).fresh() && final(self).state().related(tfrom.index(), tto.index()),
            final(self).state() == (RelationState {
                forward: old(self).state().forward.insert(tfrom.index(), tto.index()),
                backward: old(self).state().backward.insert(tto.index(), tfrom.index()),
                ..old(self).state()
            }),
            final(self).abs.from_slot() == old(self).abs.from_slot(),
            final(self).abs.to_slot() == old(self).abs.to_slot(),
            *final(final(self).abs) == *final(old(self).abs),
            *final(final(self).l_freelist) == *final(old(self).l_freelist),
            match (old(self).r_freelist, final(self).r_freelist) {
                (Some(a), Some(b)) => *final(b) == *final(a),
                (None, None) => true,
                _ => false,
            },
            final(self).l_store == old(self).l_store,
            final(self).r_store == old(self).r_store,
    {
        proof {
            if self.fresh() {
                assert(!self.state().from_freed.contains(tfrom.index()));
                assert(!self.state().to_freed.contains(tto.index()));
            }
        }
        self.abs.from_2_to.insert(tfrom.ix(), tto.ix());
        self.abs.to_2_from.insert(tto.ix(), tfrom.ix());
    }

    /// Does what `map` does: relates `tfrom` to `tto`; both must be stored
    /// in their tables.
    pub fn unmap(&mut self, tfrom: Handle<TFrom>, tto: Handle<TTo>)
        requires
            old(self).l_store@.contains_key(tfrom.index()),
            old(self).r_store@.contains_key(tto.index()),
        ensures
            old(self).fresh() ==> final(self).fresh() && final(self).state().related(tfrom.index(), tto.index()),
            final(self).state() == (RelationState {
                forward: old(self).state().forward.insert(tfrom.index(), tto.index()),
                backward: old(self).state().backward.insert(tto.index(), tfrom.index()),
                ..old(self).state()
            }),
            final(self).abs.from_slot() == old(self).abs.from_slot(),
            final(self).abs.to_slot() == old(self).abs.to_slot(),
            *final(final(self).abs) == *final(old(self).abs),
            *final(final(self).l_freelist) == *final(old(self).l_freelist),
            match (old(self).r_freelist, final(self).r_freelist) {
                (Some(a), Some(b)) => *final(b) == *final(a),
                (None, None) => true,
                _ => false,
            },
            final(self).l_store == old(self).l_store,
            final(self).r_store == old(self).r_store,
    {
        self.map(tfrom, tto)
    }

    /// Undoes the pair of `tfrom`, if it has one that was not freed.
    pub fn unmap_from(&mut self, tfrom: Handle<TFrom>)
        ensures
            old(self).fresh() ==> final(self).fresh(),
            final(self).state() == match old(self).state().image(tfrom.index()) {
                Some(t) => RelationState {
                    forward: old(self).state().forward.remove(tfrom.index()),
                    backward: old(self).state().backward.remove(t),
                    ..old(self).state()
                },
                None => old(self).state(),
            },
            final(self).abs.from_slot() == old(self).abs.from_slot(),
            final(self).abs.to_slot() == old(self).abs.to_slot(),
            *final(final(self).abs) == *final(old(self).abs),
            *final(final(self).l_freelist) == *final(old(self).l_freelist),
            match (old(self).r_freelist, final(self).r_freelist) {
                (Some(a), Some(b)) => *final(b) == *final(a),
                (None, None) => true,
                _ => false,
            },
            final(self).l_store == old(self).l_store,
            final(self).r_store == old(self).r_store,
    {
        match self.from(tfrom) {
            None => {},
            Some(to) => {
                self.abs.from_2_to.remove(&tfrom.ix());
                self.abs.to_2_from.remove(&to.ix());
            },
        }
    }

    /// Undoes the pair of `tto`, if it has one that was not freed.
    pub fn unmap_to(&mut self, tto: Handle<TTo>)
        ensures
            old(self).fresh() ==> final(self).fresh(),
            final(self).state() == match old(self).state().preimage(tto.index()) {
                Some(f) => RelationState {
                    forward: old(self).state().forward.remove(f),
                    backward: old(self).state().backward.remove(tto.index()),
                    ..old(self).state()
                },
                None => old(self).state(),
            },
            final(self).abs.from_slot() == old(self).abs.from_slot(),
            final(self).abs.to_slot() == old(self).abs.to_slot(),
            *final(final(self).abs) == *final(old(self).abs),
            *final(final(self).l_freelist) == *final(old(self).l_freelist),
            match (old(self).r_freelist, final(self).r_freelist) {
                (Some(a), Some(b)) => *final(b) == *final(a),
                (None, None) => true,
                _ => false,
            },
            final(self).l_store == old(self).l_store,
            final(self).r_store == old(self).r_store,
    {
        match self.to(tto) {
            None => {},
            Some(from) => {
                self.abs.from_2_to.remove(&from.ix());
                self.abs.to_2_from.remove(&tto.ix());
            },
        }
    }
}

impl<'q, TFrom, TTo> CanView<TFrom, TTo> for Mut<'q, TFrom, TTo> {
    open spec fn state(&self) -> RelationState {
        state_of(*self.abs, self.l_freelist@, self.to_freed())
    }

    fn has(&self, f: Handle<TFrom>, t: Handle<TTo>) -> (r: bool) {
        abs_has(self.abs, self.l_freelist, self.r_set(), f.ix(), t.ix())
    }

    fn has_from(&self, f: Handle<TFrom>) -> (r: bool) {
        self.from(f).is_some()
    }

    fn has_to(&self, t: Handle<TTo>) -> (r: bool) {
        self.to(t).is_some()
    }

    fn from(&self, f: Handle<TFrom>) -> (r: Option<Handle<TTo>>) {
        handle_opt(abs_from(self.abs, self.l_freelist, self.r_set(), f.ix()))
    }

    fn froms(&self, f: Handle<TFrom>) -> (r: Vec<Handle<TTo>>) {
        handle_vec(abs_from(self.abs, self.l_freelist, self.r_set(), f.ix()))
    }

    fn to(&self, t: Handle<TTo>) -> (r: Option<Handle<TFrom>>) {
        handle_opt(abs_to(self.abs, self.l_freelist, self.r_set(), t.ix()))
    }

    fn tos(&self, t: Handle<TTo>) -> (r: Vec<Handle<TFrom>>) {
        handle_vec(abs_to(self.abs, self.l_freelist, self.r_set(), t.ix()))
    }
}


impl<TFrom, TTo> Rel<TFrom, TTo> {
    /// A reading of the relation against its two tables.
    pub fn reify<'q>(&'q self, from: &'q Table<TFrom>, to: &'q Table<TTo>) -> (v: View<'q, TFrom, TTo>)
        requires
            self.abs().from_slot() < from.relation_count(),
            self.abs().to_slot() < to.relation_count(),
        ensures
            v.state() == state_of(
                self.abs(),
                from.freelist(self.abs().from_slot()),
                to.freelist(self.abs().to_slot()),
            ),
    {
        View {
            abs: &self.inner,
            l_freelist: from.freelist_ref(self.inner.ix_from),
            r_freelist: to.freelist_ref(self.inner.ix_to),
        }
    }

    /// Read and write access to the relation against its two tables. Both
    /// freelists are taken at the relation's `from` slot: the `to` table's
    /// freelist is the one numbered like the `from` table's.
    pub fn reify_mut<'q>(&'q mut self, from: &'q mut Table<TFrom>, to: &'q mut Table<TTo>) -> (m: Mut<
        'q,
        TFrom,
        TTo,
    >)
        requires
            old(self).abs().from_slot() < old(from).relation_count(),
            old(self).abs().from_slot() < old(to).relation_count(),
        ensures
            m.state() == state_of(
                old(self).abs(),
                old(from).freelist(old(self).abs().from_slot()),
                old(to).freelist(old(self).abs().from_slot()),
            ),
            *m.abs == old(self).abs(),
            m.l_store@ == old(from)@,
            m.r_store@ == old(to)@,
            final(self).abs() == *final(m.abs),
            final(from).same_but_freelists(&*old(from)),
            final(from).relation_count() == old(from).relation_count(),
            final(from).freelist(old(self).abs().from_slot()) == final(m.l_freelist)@,
            forall|i: int|
                0 <= i < old(from).relation_count() && i != old(self).abs().from_slot()
                    ==> #[trigger] final(from).freelist(i) == old(from).freelist(i),
            final(to).same_but_freelists(&*old(to)),
            final(to).relation_count() == old(to).relation_count(),
            match m.r_freelist {
                Some(r) => final(to).freelist(old(self).abs().from_slot()) == final(r)@
                    && (old(to).wf() && final(r)@.subset_of(old(to).freelist(old(self).abs().from_slot())) ==> final(to).wf()),
                None => false,
            },
            old(from).wf() && old(to).wf() ==> m.fresh(),
            old(from).wf() && final(m.l_freelist)@.subset_of(old(from).freelist(old(self).abs().from_slot())) ==> final(from).wf(),
            forall|i: int|
                0 <= i < old(to).relation_count() && i != old(self).abs().from_slot()
                    ==> #[trigger] final(to).freelist(i) == old(to).freelist(i),
    {
        let ix_from = self.inner.ix_from;
        let ix_to = self.inner.ix_from;
        proof {
            if from.wf() {
                from.lemma_freelists_hold_freed();
            }
            if to.wf() {
                to.lemma_freelists_hold_freed();
            }
        }
        let (l_freelist, l_store) = from.relation_parts(ix_from);
        let (r_freelist, r_store) = to.relation_parts(ix_to);
        Mut { abs: &mut self.inner, l_freelist, r_freelist: Some(r_freelist), l_store, r_store }
    }
}

impl<TSelf> RelSelf<TSelf> {
    /// A reading of the relation against its table.
    pub fn reify<'q>(&'q self, tself: &'q Table<TSelf>) -> (v: View<'q, TSelf, TSelf>)
        requires
            self.wf(),
            self.abs().from_slot() < tself.relation_count(),
        ensures
            v.state() == state_of(
                self.abs(),
                tself.freelist(self.abs().from_slot()),
                tself.freelist(self.abs().from_slot()),
            ),
    {
        let fl = tself.freelist_ref(self.inner.ix_from);
        View { abs: &self.inner, l_freelist: fl, r_freelist: fl }
    }

    /// Read and write access to the relation against its table.
    pub fn reify_mut<'q>(&'q mut self, tself: &'q mut Table<TSelf>) -> (m: Mut<'q, TSelf, TSelf>)
        requires
            old(self).wf(),
            old(self).abs().from_slot() < old(tself).relation_count(),
        ensures
            m.state() == state_of(
                old(self).abs(),
                old(tself).freelist(old(self).abs().from_slot()),
                old(tself).freelist(old(self).abs().from_slot()),
            ),
            *m.abs == old(self).abs(),
            m.l_store@ == old(tself)@,
            m.r_store@ == old(tself)@,
            m.r_freelist is None,
            final(self).abs() == *final(m.abs),
            final(tself).same_but_freelists(&*old(tself)),
            final(tself).relation_count() == old(tself).relation_count(),
            final(tself).freelist(old(self).abs().from_slot()) == final(m.l_freelist)@,
            forall|i: int|
                0 <= i < old(tself).relation_count() && i != old(self).abs().from_slot()
                    ==> #[trigger] final(tself).freelist(i) == old(tself).freelist(i),
            old(tself).wf() ==> m.fresh(),
            old(tself).wf() && final(m.l_freelist)@.subset_of(old(tself).freelist(old(self).abs().from_slot())) ==> final(tself).wf(),
    {
        proof {
            if tself.wf() {
                tself.lemma_freelists_hold_freed();
            }
        }
        let ix_from = self.inner.ix_from;
        let (l_freelist, l_store) = tself.relation_parts(ix_from);
        Mut { abs: &mut self.inner, l_freelist, r_freelist: None, l_store, r_store: l_store }
    }
}

impl<A> Table<A> {
    /// A new, empty relation between this table's items; the table opens a
    /// freelist for it.
    pub fn one_to_one_self(&mut self) -> (r: RelSelf<A>)
        ensures
            r.wf(),
            r.abs().forward() == Map::<u64, u64>::empty(),
            r.abs().backward() == Map::<u64, u64>::empty(),
            r.abs().from_slot() == old(self).relation_count(),
            final(self).relation_count() == old(self).relation_count() + 1,
            final(self).freelist(old(self).relation_count() as int) == Set::<u64>::empty(),
            forall|i: int|
                0 <= i < old(self).relation_count() ==> #[trigger] final(self).freelist(i)
                    == old(self).freelist(i),
            final(self).same_but_freelists(&*old(self)),
            final(self).wf() == old(self).wf(),
    {
        let new_ix = self.add_freelist();
        RelSelf { inner: Abs::new(new_ix, new_ix) }
    }

    /// A new, empty relation from this table's items to `target`'s; each
    /// table opens a freelist for it.
    pub fn one_to_one<B>(&mut self, target: &mut Table<B>) -> (r: Rel<A, B>)
        ensures
            r.abs().forward() == Map::<u64, u64>::empty(),
            r.abs().backward() == Map::<u64, u64>::empty(),
            r.abs().from_slot() == old(self).relation_count(),
            r.abs().to_slot() == old(target).relation_count(),
            final(self).relation_count() == old(self).relation_count() + 1,
            final(target).relation_count() == old(target).relation_count() + 1,
            final(self).freelist(old(self).relation_count() as int) == Set::<u64>::empty(),
            final(target).freelist(old(target).relation_count() as int) == Set::<u64>::empty(),
            forall|i: int|
                0 <= i < old(self).relation_count() ==> #[trigger] final(self).freelist(i)
                    == old(self).freelist(i),
            forall|i: int|
                0 <= i < old(target).relation_count() ==> #[trigger] final(target).freelist(i)
                    == old(target).freelist(i),
            final(self).same_but_freelists(&*old(self)),
            final(target).same_but_freelists(&*old(target)),
            final(self).wf() == old(self).wf(),
            final(target).wf() == old(target).wf(),
    {
        let new_ix_from = self.add_freelist();
        let new_ix_to = target.add_freelist();
        Rel { inner: Abs::new(new_ix_from, new_ix_to) }
    }
}


/// Whether `k` is one of the slots that `targets` lists.
pub open spec fn lists_slot(targets: Seq<Option<u64>>, k: u64) -> bool {
    exists|i: int| 0 <= i < targets.len() && targets[i] == Some(k)
}

/// The slots that `targets` lists.
pub open spec fn listed(targets: Seq<Option<u64>>) -> Set<u64> {
    Set::new(|k: u64| lists_slot(targets, k))
}

/// Appending an entry other than `k` does not change whether a list lists
/// `k`.
proof fn lemma_listed_push_other(pre: Seq<Option<u64>>, o: Option<u64>, k: u64)
    requires
        o != Some(k),
    ensures
        lists_slot(pre.push(o), k) == lists_slot(pre, k),
{
    let post = pre.push(o);
    if lists_slot(post, k) {
        let m = choose|m: int| 0 <= m < post.len() && post[m] == Some(k);
        assert(pre[m] == Some(k));
    }
    if lists_slot(pre, k) {
        let m = choose|m: int| 0 <= m < pre.len() && pre[m] == Some(k);
        assert(post[m] == Some(k));
    }
}

/// The partners that `state` gives the `to` handles `tos`.
pub open spec fn preimages<TTo>(state: RelationState, tos: Seq<Handle<TTo>>) -> Seq<Option<u64>> {
    tos.map_values(|t: Handle<TTo>| state.preimage(t.index()))
}

/// The partners that `state` gives the `from` handles `froms`.
pub open spec fn images<TFrom>(state: RelationState, froms: Seq<Handle<TFrom>>) -> Seq<Option<u64>> {
    froms.map_values(|f: Handle<TFrom>| state.image(f.index()))
}

/// A relation mutation visits one entry per listed handle, in the order of
/// the list: entry `i` is the partner of the `i`-th handle, or `None` where
/// it has none, and the walk goes on past such entries.
pub proof fn lemma_partner_lists_follow_handles<TFrom, TTo>(
    s: RelationState,
    froms: Seq<Handle<TFrom>>,
    tos: Seq<Handle<TTo>>,
)
    ensures
        preimages(s, tos).len() == tos.len(),
        forall|i: int| 0 <= i < tos.len() ==> #[trigger] preimages(s, tos)[i] == s.preimage(tos[i].index()),
        images(s, froms).len() == froms.len(),
        forall|i: int| 0 <= i < froms.len() ==> #[trigger] images(s, froms)[i] == s.image(froms[i].index()),
{
}

/// Runs `cb` on the item of `table` under each slot that `targets` lists,
/// in order, carrying each change into the indices. In the `ensures`,
/// `states[c]` holds the items as the first `c` calls left them.
#[verifier::spinoff_prover]
#[verifier::rlimit(50)]
fn apply_to_each<A, F, E>(table: &mut Table<A>, targets: &Vec<Option<u64>>, cb: &F) where
    F: Fn(Handle<A>, &mut A) -> E,
    E: End,

    requires
        old(table).wf(),
        forall|h: Handle<A>, x: &mut A| #[trigger] cb.requires((h, x)),
        forall|k: u64| #[trigger] lists_slot(targets@, k) ==> old(table)@.contains_key(k),
    ensures
        final(table).wf(),
        final(table)@.dom() == old(table)@.dom(),
        forall|k: u64| #[trigger] old(table)@.contains_key(k) && !lists_slot(targets@, k) ==> final(table)@[k] == old(table)@[k],
        exists|states: Seq<Map<u64, A>>|
            #![trigger states[0]]
            {
                &&& states.len() == targets@.len() + 1
                &&& states[0] == old(table)@
                &&& states.last() == final(table)@
                &&& forall|c: int|
                    #![trigger states[c]]
                    0 < c < states.len() ==> match targets@[c - 1] {
                        None => states[c] == states[c - 1],
                        Some(k) => exists|x: &mut A, e: E|
                            #![trigger cb.ensures((Handle::<A>::spec_at(k), x), e)]
                            *x == states[c - 1][k] && states[c] == states[c - 1].insert(k, *final(x))
                                && cb.ensures((Handle::<A>::spec_at(k), x), e),
                    }
            },
        final(table).next_index() == old(table).next_index(),
        final(table).index_count() == old(table).index_count(),
        forall|i: int| 0 <= i < final(table).index_count() ==> #[trigger] final(table).order(i) == old(table).order(i),
        forall|i: int, k: u64|
            0 <= i < final(table).index_count() && old(table)@.contains_key(k) ==> #[trigger] final(table).position(i, k) == old(table).position(i, k),
        final(table).refreshed(&*old(table), listed(targets@)),
        final(table).keeps_freelists(&*old(table)),
{
    let ghost t0 = *table;
    let ghost mut states: Seq<Map<u64, A>> = seq![t0@];
    proof {
        t0.lemma_refreshed_none();
        assert(listed(targets@.take(0)) =~= Set::<u64>::empty());
    }
    let mut i: usize = 0;
    while i < targets.len()
        invariant
            i <= targets@.len(),
            forall|h: Handle<A>, x: &mut A| #[trigger] cb.requires((h, x)),
            forall|k: u64| #[trigger] lists_slot(targets@, k) ==> t0@.contains_key(k),
            table.wf(),
            table@.dom() == t0@.dom(),
            forall|k: u64| #[trigger] t0@.contains_key(k) && !lists_slot(targets@.take(i as int), k) ==> table@[k] == t0@[k],
            states.len() == i + 1,
            states[0] == t0@,
            states[i as int] == table@,
            forall|c: int|
                #![trigger states[c]]
                0 < c < states.len() ==> match targets@[c - 1] {
                    None => states[c] == states[c - 1],
                    Some(k) => exists|x: &mut A, e: E|
                        #![trigger cb.ensures((Handle::<A>::spec_at(k), x), e)]
                        *x == states[c - 1][k] && states[c] == states[c - 1].insert(k, *final(x))
                            && cb.ensures((Handle::<A>::spec_at(k), x), e),
                },
            table.next_index() == t0.next_index(),
            table.index_count() == t0.index_count(),
            forall|j: int| 0 <= j < table.index_count() ==> #[trigger] table.order(j) == t0.order(j),
            forall|j: int, k: u64|
                0 <= j < table.index_count() && t0@.contains_key(k) ==> #[trigger] table.position(j, k) == t0.position(j, k),
            table.refreshed(&t0, listed(targets@.take(i as int))),
            table.keeps_freelists(&t0),
        decreases targets@.len() - i,
    {
        let ghost pre = targets@.take(i as int);
        let ghost tv = table@;
        let ghost tb = *table;
        let ghost states_before = states;
        proof {
            assert(targets@.take(i + 1) =~= pre.push(targets@[i as int]));
        }
        match targets[i] {
            None => {
                proof {
                    assert forall|k: u64| #[trigger] t0@.contains_key(k) && !lists_slot(targets@.take(i + 1), k) implies table@[k] == t0@[k] by {
                        lemma_listed_push_other(pre, None, k);
                    }
                    assert forall|k: u64| #[trigger] listed(targets@.take(i + 1)).contains(k) == listed(pre).contains(k) by {
                        lemma_listed_push_other(pre, None, k);
                    }
                    assert(listed(targets@.take(i + 1)) =~= listed(pre));
                    states = states.push(table@);
                    assert forall|c: int|
                        #![trigger states[c]]
                        0 < c < states.len() implies match targets@[c - 1] {
                            None => states[c] == states[c - 1],
                            Some(k) => exists|x: &mut A, e: E|
                                #![trigger cb.ensures((Handle::<A>::spec_at(k), x), e)]
                                *x == states[c - 1][k] && states[c] == states[c - 1].insert(k, *final(x))
                                    && cb.ensures((Handle::<A>::spec_at(k), x), e),
                        } by {
                        if c <= i {
                            assert(states[c] == states_before[c]);
                            assert(states[c - 1] == states_before[c - 1]);
                        }
                    }
                }
            },
            Some(f) => {
                assert(lists_slot(targets@, f));
                let ghost before = table@;
                let mut value = table.take_item(f);
                let ghost v0 = value;
                let result = cb(Handle::at(f), &mut value);
                let ghost v1 = value;
                assert(exists|x: &mut A, e: E|
                    #![trigger cb.ensures((Handle::<A>::spec_at(f), x), e)]
                    *x == v0 && *final(x) == v1 && cb.ensures((Handle::<A>::spec_at(f), x), e));
                table.put_back(f, value, Ghost(before));
                proof {
                    assert(table@.dom() =~= t0@.dom());
                    assert(targets@.take(i + 1)[i as int] == Some(f));
                    assert forall|k: u64| #[trigger] t0@.contains_key(k) && !lists_slot(targets@.take(i + 1), k) implies table@[k] == t0@[k] by {
                        if k != f {
                            lemma_listed_push_other(pre, Some(f), k);
                        }
                    }
                    assert forall|j: int, k: u64|
                        0 <= j < table.index_count() && #[trigger] table.indexed(j).contains_key(k) implies table.indexed(j)[k]
                        == if t0@.contains_key(k) && !listed(targets@.take(i + 1)).contains(k) {
                        t0.indexed(j)[k]
                    } else {
                        table@[k]
                    } by {
                        if k != f {
                            lemma_listed_push_other(pre, Some(f), k);
                            assert(tb.indexed(j).contains_key(k));
                        } else {
                            assert(lists_slot(targets@.take(i + 1), f));
                        }
                    }
                    states = states.push(table@);
                    assert(states[i + 1] == states[i as int].insert(f, v1));
                    assert forall|c: int|
                        #![trigger states[c]]
                        0 < c < states.len() implies match targets@[c - 1] {
                            None => states[c] == states[c - 1],
                            Some(k) => exists|x: &mut A, e: E|
                                #![trigger cb.ensures((Handle::<A>::spec_at(k), x), e)]
                                *x == states[c - 1][k] && states[c] == states[c - 1].insert(k, *final(x))
                                    && cb.ensures((Handle::<A>::spec_at(k), x), e),
                        } by {
                        if c <= i {
                            assert(states[c] == states_before[c]);
                            assert(states[c - 1] == states_before[c - 1]);
                        } else {
                            assert(c - 1 == i);
                            assert(states[c - 1] == tv);
                        }
                    }
                }
            },
        }
        i = i + 1;
    }
    proof {
        assert(targets@.take(targets@.len() as int) =~= targets@);
        assert(states[0] == t0@);
    }
}

/// The partners of `tos` in `v`, in order.
fn collect_preimages<TFrom, TTo>(v: &View<TFrom, TTo>, tos: &Vec<Handle<TTo>>) -> (r: Vec<Option<u64>>)
    ensures
        r@ == preimages(v.state(), tos@),
{
    let mut r: Vec<Option<u64>> = Vec::new();
    let mut i: usize = 0;
    while i < tos.len()
        invariant
            i <= tos@.len(),
            r@ =~= preimages(v.state(), tos@.take(i as int)),
        decreases tos@.len() - i,
    {
        let o = v.to(tos[i]);
        r.push(opt_index_exec(o));
        proof {
            assert(tos@.take(i + 1) =~= tos@.take(i as int).push(tos@[i as int]));
        }
        i = i + 1;
    }
    proof {
        assert(tos@.take(tos@.len() as int) =~= tos@);
    }
    r
}

/// The partners of `froms` in `v`, in order.
fn collect_images<TFrom, TTo>(v: &View<TFrom, TTo>, froms: &Vec<Handle<TFrom>>) -> (r: Vec<Option<u64>>)
    ensures
        r@ == images(v.state(), froms@),
{
    let mut r: Vec<Option<u64>> = Vec::new();
    let mut i: usize = 0;
    while i < froms.len()
        invariant
            i <= froms@.len(),
            r@ =~= images(v.state(), froms@.take(i as int)),
        decreases froms@.len() - i,
    {
        let o = v.from(froms[i]);
        r.push(opt_index_exec(o));
        proof {
            assert(froms@.take(i + 1) =~= froms@.take(i as int).push(froms@[i as int]));
        }
        i = i + 1;
    }
    proof {
        assert(froms@.take(froms@.len() as int) =~= froms@);
    }
    r
}

fn opt_index_exec<A>(o: Option<Handle<A>>) -> (r: Option<u64>)
    ensures
        r == opt_index(o),
{
    match o {
        None => None,
        Some(h) => Some(h.ix()),
    }
}


impl<TFrom, TTo> Rel<TFrom, TTo> {
    /// A reading of the relation with both freelists taken at its `from`
    /// slot, as `reify_mut` takes them.
    fn reify_at_from<'q>(&'q self, from: &'q Table<TFrom>, to: &'q Table<TTo>) -> (v: View<'q, TFrom, TTo>)
        requires
            self.abs().from_slot() < from.relation_count(),
            self.abs().from_slot() < to.relation_count(),
        ensures
            v.state() == self.reading_mut(from, to),
    {
        View {
            abs: &self.inner,
            l_freelist: from.freelist_ref(self.inner.ix_from),
            r_freelist: to.freelist_ref(self.inner.ix_from),
        }
    }

    /// Runs `cb` on each `from` item related to one of `tos`, in the order
    /// of `tos`, carrying each change into the indices of `from`. Partners are
    /// read as `reify_mut` reads them, both freelists at the `from` slot.
    /// In the `ensures`, `states[c]` holds the items as the first `c` calls
    /// left them.
    pub fn mutate_to<F, E>(&mut self, from: &mut Table<TFrom>, to: &mut Table<TTo>, tos: Vec<Handle<TTo>>, cb: F) where
        F: Fn(Handle<TFrom>, &mut TFrom) -> E,
        E: End,

        requires
            old(from).wf(),
            old(self).abs().from_slot() < old(from).relation_count(),
            old(self).abs().from_slot() < old(to).relation_count(),
            forall|h: Handle<TFrom>, x: &mut TFrom| #[trigger] cb.requires((h, x)),
            forall|k: u64| #[trigger] lists_slot(preimages(old(self).reading_mut(&*old(from), &*old(to)), tos@), k) ==> old(from)@.contains_key(k),
        ensures
            final(from).wf(),
            final(from)@.dom() == old(from)@.dom(),
            forall|k: u64| #[trigger] old(from)@.contains_key(k) && !lists_slot(preimages(old(self).reading_mut(&*old(from), &*old(to)), tos@), k) ==> final(from)@[k] == old(from)@[k],
            exists|states: Seq<Map<u64, TFrom>>|
                #![trigger states[0]]
                {
                    &&& states.len() == preimages(old(self).reading_mut(&*old(from), &*old(to)), tos@).len() + 1
                    &&& states[0] == old(from)@
                    &&& states.last() == final(from)@
                    &&& forall|c: int|
                        #![trigger states[c]]
                        0 < c < states.len() ==> match preimages(old(self).reading_mut(&*old(from), &*old(to)), tos@)[c - 1] {
                            None => states[c] == states[c - 1],
                            Some(k) => exists|x: &mut TFrom, e: E|
                                #![trigger cb.ensures((Handle::<TFrom>::spec_at(k), x), e)]
                                *x == states[c - 1][k] && states[c] == states[c - 1].insert(k, *final(x))
                                    && cb.ensures((Handle::<TFrom>::spec_at(k), x), e),
                        }
                },
            final(from).refreshed(&*old(from), listed(preimages(old(self).reading_mut(&*old(from), &*old(to)), tos@))),
            final(from).next_index() == old(from).next_index(),
            final(from).index_count() == old(from).index_count(),
            forall|i: int| 0 <= i < final(from).index_count() ==> #[trigger] final(from).order(i) == old(from).order(i),
            forall|i: int, k: u64|
                0 <= i < final(from).index_count() && old(from)@.contains_key(k) ==> #[trigger] final(from).position(i, k) == old(from).position(i, k),
            final(from).keeps_freelists(&*old(from)),
            *final(self) == *old(self),
            *final(to) == *old(to),
    {
        let targets = {
            let v = self.reify_at_from(from, to);
            collect_preimages(&v, &tos)
        };
        assert(targets@ == preimages(self.reading_mut(&*from, &*to), tos@));
        apply_to_each(from, &targets, &cb);
    }

    /// Runs `cb` on each `to` item related to one of `froms`, in the order
    /// of `froms`, carrying each change into the indices of `to`. Partners are
    /// read as `reify_mut` reads them, both freelists at the `from` slot.
    /// In the `ensures`, `states[c]` holds the items as the first `c` calls
    /// left them.
    pub fn mutate_from<F, E>(&mut self, from: &mut Table<TFrom>, to: &mut Table<TTo>, froms: Vec<Handle<TFrom>>, cb: F) where
        F: Fn(Handle<TTo>, &mut TTo) -> E,
        E: End,

        requires
            old(to).wf(),
            old(self).abs().from_slot() < old(from).relation_count(),
            old(self).abs().from_slot() < old(to).relation_count(),
            forall|h: Handle<TTo>, x: &mut TTo| #[trigger] cb.requires((h, x)),
            forall|k: u64| #[trigger] lists_slot(images(old(self).reading_mut(&*old(from), &*old(to)), froms@), k) ==> old(to)@.contains_key(k),
        ensures
            final(to).wf(),
            final(to)@.dom() == old(to)@.dom(),
            forall|k: u64| #[trigger] old(to)@.contains_key(k) && !lists_slot(images(old(self).reading_mut(&*old(from), &*old(to)), froms@), k) ==> final(to)@[k] == old(to)@[k],
            exists|states: Seq<Map<u64, TTo>>|
                #![trigger states[0]]
                {
                    &&& states.len() == images(old(self).reading_mut(&*old(from), &*old(to)), froms@).len() + 1
                    &&& states[0] == old(to)@
                    &&& states.last() == final(to)@
                    &&& forall|c: int|
                        #![trigger states[c]]
                        0 < c < states.len() ==> match images(old(self).reading_mut(&*old(from), &*old(to)), froms@)[c - 1] {
                            None => states[c] == states[c - 1],
                            Some(k) => exists|x: &mut TTo, e: E|
                                #![trigger cb.ensures((Handle::<TTo>::spec_at(k), x), e)]
                                *x == states[c - 1][k] && states[c] == states[c - 1].insert(k, *final(x))
                                    && cb.ensures((Handle::<TTo>::spec_at(k), x), e),
                        }
                },
            final(to).refreshed(&*old(to), listed(images(old(self).reading_mut(&*old(from), &*old(to)), froms@))),
            final(to).next_index() == old(to).next_index(),
            final(to).index_count() == old(to).index_count(),
            forall|i: int| 0 <= i < final(to).index_count() ==> #[trigger] final(to).order(i) == old(to).order(i),
            forall|i: int, k: u64|
                0 <= i < final(to).index_count() && old(to)@.contains_key(k) ==> #[trigger] final(to).position(i, k) == old(to).position(i, k),
            final(to).keeps_freelists(&*old(to)),
            *final(self) == *old(self),
            *final(from) == *old(from),
    {
        let targets = {
            let v = self.reify_at_from(from, to);
            collect_images(&v, &froms)
        };
        assert(targets@ == images(self.reading_mut(&*from, &*to), froms@));
        apply_to_each(to, &targets, &cb);
    }
}

impl<TSelf> RelSelf<TSelf> {
    /// Runs `cb` on each item related to one of `froms` as its `to` side,
    /// in the order of `froms`, carrying each change into the indices.
    /// In the `ensures`, `states[c]` holds the items as the first `c` calls
    /// left them.
    pub fn mutate_to<F, E>(&mut self, tself: &mut Table<TSelf>, froms: Vec<Handle<TSelf>>, cb: F) where
        F: Fn(Handle<TSelf>, &mut TSelf) -> E,
        E: End,

        requires
            old(self).wf(),
            old(tself).wf(),
            old(self).abs().from_slot() < old(tself).relation_count(),
            forall|h: Handle<TSelf>, x: &mut TSelf| #[trigger] cb.requires((h, x)),
            forall|k: u64| #[trigger] lists_slot(preimages(old(self).reading(&*old(tself)), froms@), k) ==> old(tself)@.contains_key(k),
        ensures
            final(tself).wf(),
            final(tself)@.dom() == old(tself)@.dom(),
            forall|k: u64| #[trigger] old(tself)@.contains_key(k) && !lists_slot(preimages(old(self).reading(&*old(tself)), froms@), k) ==> final(tself)@[k] == old(tself)@[k],
            exists|states: Seq<Map<u64, TSelf>>|
                #![trigger states[0]]
                {
                    &&& states.len() == preimages(old(self).reading(&*old(tself)), froms@).len() + 1
                    &&& states[0] == old(tself)@
                    &&& states.last() == final(tself)@
                    &&& forall|c: int|
                        #![trigger states[c]]
                        0 < c < states.len() ==> match preimages(old(self).reading(&*old(tself)), froms@)[c - 1] {
                            None => states[c] == states[c - 1],
                            Some(k) => exists|x: &mut TSelf, e: E|
                                #![trigger cb.ensures((Handle::<TSelf>::spec_at(k), x), e)]
                                *x == states[c - 1][k] && states[c] == states[c - 1].insert(k, *final(x))
                                    && cb.ensures((Handle::<TSelf>::spec_at(k), x), e),
                        }
                },
            final(tself).refreshed(&*old(tself), listed(preimages(old(self).reading(&*old(tself)), froms@))),
            final(tself).next_index() == old(tself).next_index(),
            final(tself).index_count() == old(tself).index_count(),
            forall|i: int| 0 <= i < final(tself).index_count() ==> #[trigger] final(tself).order(i) == old(tself).order(i),
            forall|i: int, k: u64|
                0 <= i < final(tself).index_count() && old(tself)@.contains_key(k) ==> #[trigger] final(tself).position(i, k) == old(tself).position(i, k),
            final(tself).keeps_freelists(&*old(tself)),
            *final(self) == *old(self),
    {
        let targets = {
            let v = self.reify(tself);
            collect_preimages(&v, &froms)
        };
        assert(targets@ == preimages(self.reading(&*tself), froms@));
        apply_to_each(tself, &targets, &cb);
    }

    /// Runs `cb` on each item related to one of `tos` as its `from` side,
    /// in the order of `tos`, carrying each change into the indices.
    /// In the `ensures`, `states[c]` holds the items as the first `c` calls
    /// left them.
    pub fn mutate_from<F, E>(&mut self, tself: &mut Table<TSelf>, tos: Vec<Handle<TSelf>>, cb: F) where
        F: Fn(Handle<TSelf>, &mut TSelf) -> E,
        E: End,

        requires
            old(self).wf(),
            old(tself).wf(),
            old(self).abs().from_slot() < old(tself).relation_count(),
            forall|h: Handle<TSelf>, x: &mut TSelf| #[trigger] cb.requires((h, x)),
            forall|k: u64| #[trigger] lists_slot(images(old(self).reading(&*old(tself)), tos@), k) ==> old(tself)@.contains_key(k),
        ensures
            final(tself).wf(),
            final(tself)@.dom() == old(tself)@.dom(),
            forall|k: u64| #[trigger] old(tself)@.contains_key(k) && !lists_slot(images(old(self).reading(&*old(tself)), tos@), k) ==> final(tself)@[k] == old(tself)@[k],
            exists|states: Seq<Map<u64, TSelf>>|
                #![trigger states[0]]
                {
                    &&& states.len() == images(old(self).reading(&*old(tself)), tos@).len() + 1
                    &&& states[0] == old(tself)@
                    &&& states.last() == final(tself)@
                    &&& forall|c: int|
                        #![trigger states[c]]
                        0 < c < states.len() ==> match images(old(self).reading(&*old(tself)), tos@)[c - 1] {
                            None => states[c] == states[c - 1],
                            Some(k) => exists|x: &mut TSelf, e: E|
                                #![trigger cb.ensures((Handle::<TSelf>::spec_at(k), x), e)]
                                *x == states[c - 1][k] && states[c] == states[c - 1].insert(k, *final(x))
                                    && cb.ensures((Handle::<TSelf>::spec_at(k), x), e),
                        }
                },
            final(tself).refreshed(&*old(tself), listed(images(old(self).reading(&*old(tself)), tos@))),
            final(tself).next_index() == old(tself).next_index(),
            final(tself).index_count() == old(tself).index_count(),
            forall|i: int| 0 <= i < final(tself).index_count() ==> #[trigger] final(tself).order(i) == old(tself).order(i),
            forall|i: int, k: u64|
                0 <= i < final(tself).index_count() && old(tself)@.contains_key(k) ==> #[trigger] final(tself).position(i, k) == old(tself).position(i, k),
            final(tself).keeps_freelists(&*old(tself)),
            *final(self) == *old(self),
    {
        let targets = {
            let v = self.reify(tself);
            collect_images(&v, &tos)
        };
        assert(targets@ == images(self.reading(&*tself), tos@));
        apply_to_each(tself, &targets, &cb);
    }
}


/// A reading never gives out a freed handle: what `f` is related to was not
/// freed, nor was what is related to `t`; and `has(f, t)` is false as soon
/// as either `f` or `t` is in its side's freelist.
pub proof fn lemma_reads_skip_freed(s: RelationState, f: u64, t: u64)
    ensures
        s.image(f) matches Some(x) ==> !s.to_freed.contains(x),
        s.preimage(t) matches Some(x) ==> !s.from_freed.contains(x),
        s.from_freed.contains(f) ==> !s.related(f, t),
        s.to_freed.contains(t) ==> !s.related(f, t),
        s.related(f, t) ==> s.image(f) == Some(t),
{
}

/// After `map(f, t)` on handles that were not freed, `f` and `t` are
/// related: `from(f)` gives `t` and `to(t)` gives `f`.
pub proof fn lemma_map_then_read(s: RelationState, f: u64, t: u64)
    requires
        !s.from_freed.contains(f),
        !s.to_freed.contains(t),
    ensures
        ({
            let s2 = RelationState {
                forward: s.forward.insert(f, t),
                backward: s.backward.insert(t, f),
                ..s
            };
            &&& s2.related(f, t)
            &&& s2.image(f) == Some(t)
            &&& s2.preimage(t) == Some(f)
        }),
{
}

/// Mapping two handles that are related to nothing keeps the two sides of
/// a relation holding the same pairs.
pub proof fn lemma_map_keeps_paired(s: RelationState, f: u64, t: u64)
    requires
        paired(s.forward, s.backward),
        !s.forward.contains_key(f),
        !s.backward.contains_key(t),
    ensures
        paired(s.forward.insert(f, t), s.backward.insert(t, f)),
{
    let fw = s.forward.insert(f, t);
    let bw = s.backward.insert(t, f);
    assert forall|x: u64| #[trigger] fw.contains_key(x) implies bw.contains_key(fw[x]) && bw[fw[x]] == x by {
        if x != f {
            assert(s.forward.contains_key(x));
            assert(s.backward.contains_key(s.forward[x]));
        }
    }
    assert forall|y: u64| #[trigger] bw.contains_key(y) implies fw.contains_key(bw[y]) && fw[bw[y]] == y by {
        if y != t {
            assert(s.backward.contains_key(y));
            assert(s.forward.contains_key(s.backward[y]));
        }
    }
}

/// Undoing a pair of `f` and `t` that the two sides hold keeps them holding
/// the same pairs.
pub proof fn lemma_unmap_keeps_paired(s: RelationState, f: u64, t: u64)
    requires
        paired(s.forward, s.backward),
        s.forward.contains_key(f),
        s.forward[f] == t,
    ensures
        paired(s.forward.remove(f), s.backward.remove(t)),
{
    let fw = s.forward.remove(f);
    let bw = s.backward.remove(t);
    assert(s.backward.contains_key(t) && s.backward[t] == f);
    assert forall|x: u64| #[trigger] fw.contains_key(x) implies bw.contains_key(fw[x]) && bw[fw[x]] == x by {
        assert(s.forward.contains_key(x));
    }
    assert forall|y: u64| #[trigger] bw.contains_key(y) implies fw.contains_key(bw[y]) && fw[bw[y]] == y by {
        assert(s.backward.contains_key(y));
    }
}

/// After `unmap_from(f)`, `f` is related to nothing; after `unmap_to(t)`,
/// nothing is related to `t`.
pub proof fn lemma_unmap_then_read(s: RelationState, f: u64, t: u64)
    ensures
        (match s.image(f) {
            Some(x) => RelationState {
                forward: s.forward.remove(f),
                backward: s.backward.remove(x),
                ..s
            },
            None => s,
        }).image(f) is None,
        (match s.preimage(t) {
            Some(x) => RelationState {
                forward: s.forward.remove(x),
                backward: s.backward.remove(t),
                ..s
            },
            None => s,
        }).preimage(t) is None,
{
}

/// Once `from.free(h)` has taken out a stored item, a reading of a relation
/// from that table no longer gives `h` as the partner of any `to` handle,
/// and `has(h, t)` is false for every `t`, whether read by `reify` or by
/// `reify_mut`.
pub proof fn lemma_free_then_read_from<TFrom, TTo>(
    r: Rel<TFrom, TTo>,
    before: Table<TFrom>,
    after: Table<TFrom>,
    to: Table<TTo>,
    h: Handle<TFrom>,
)
    requires
        before@.contains_key(h.index()),
        r.abs().from_slot() < after.relation_count(),
        forall|i: int|
            0 <= i < after.relation_count() ==> #[trigger] after.freelist(i) == before.freelist(i).insert(
                h.index(),
            ),
    ensures
        forall|t: u64|
            #[trigger] state_of(r.abs(), after.freelist(r.abs().from_slot()), to.freelist(r.abs().to_slot())).preimage(t)
                != Some(h.index()),
        forall|t: u64| !#[trigger] r.reading(&after, &to).related(h.index(), t),
        forall|t: u64| !#[trigger] r.reading_mut(&after, &to).related(h.index(), t),
{
    assert(after.freelist(r.abs().from_slot()).contains(h.index()));
}

/// Once `to.free(h)` has taken out a stored item, a reading of a relation
/// into that table no longer gives `h` as the partner of any `from` handle,
/// and `has(f, h)` is false for every `f`.
pub proof fn lemma_free_then_read_to<TFrom, TTo>(
    r: Rel<TFrom, TTo>,
    from: Table<TFrom>,
    before: Table<TTo>,
    after: Table<TTo>,
    h: Handle<TTo>,
)
    requires
        before@.contains_key(h.index()),
        r.abs().to_slot() < after.relation_count(),
        forall|i: int|
            0 <= i < after.relation_count() ==> #[trigger] after.freelist(i) == before.freelist(i).insert(
                h.index(),
            ),
    ensures
        forall|f: u64|
            #[trigger] state_of(r.abs(), from.freelist(r.abs().from_slot()), after.freelist(r.abs().to_slot())).image(f)
                != Some(h.index()),
        forall|f: u64| !#[trigger] r.reading(&from, &after).related(f, h.index()),
{
    assert(after.freelist(r.abs().to_slot()).contains(h.index()));
}

/// Once `t.free(h)` has taken out a stored item, a reading of a relation of
/// `t` with itself gives `h` as the partner of no handle, on either side,
/// and `has` is false for every pair that holds `h`.
pub proof fn lemma_free_then_read_self<A>(r: RelSelf<A>, before: Table<A>, after: Table<A>, h: Handle<A>)
    requires
        before@.contains_key(h.index()),
        r.abs().from_slot() < after.relation_count(),
        forall|i: int|
            0 <= i < after.relation_count() ==> #[trigger] after.freelist(i) == before.freelist(i).insert(
                h.index(),
            ),
    ensures
        forall|x: u64|
            #[trigger] state_of(r.abs(), after.freelist(r.abs().from_slot()), after.freelist(r.abs().from_slot())).image(x)
                != Some(h.index()),
        forall|x: u64|
            #[trigger] state_of(r.abs(), after.freelist(r.abs().from_slot()), after.freelist(r.abs().from_slot())).preimage(x)
                != Some(h.index()),
        forall|x: u64| !#[trigger] r.reading(&after).related(h.index(), x),
        forall|x: u64| !#[trigger] r.reading(&after).related(x, h.index()),
{
    assert(after.freelist(r.abs().from_slot()).contains(h.index()));
}

/// Whether every handle in a pair of `s` names a stored item or is in its
/// side's freelist: a handle that a pair holds and whose item was freed is
/// in the freelist. `from_items` and `to_items` are the slots of the stored
/// items of the two sides.
pub open spec fn freed_listed(s: RelationState, from_items: Set<u64>, to_items: Set<u64>) -> bool {
    &&& forall|f: u64| #[trigger] s.forward.contains_key(f) ==> (from_items.contains(f) || s.from_freed.contains(f))
        && (to_items.contains(s.forward[f]) || s.to_freed.contains(s.forward[f]))
    &&& forall|t: u64| #[trigger] s.backward.contains_key(t) ==> (to_items.contains(t) || s.to_freed.contains(t))
        && (from_items.contains(s.backward[t]) || s.from_freed.contains(s.backward[t]))
}

/// Mapping two stored items keeps every paired handle stored or listed.
pub proof fn lemma_map_keeps_freed_listed(s: RelationState, from_items: Set<u64>, to_items: Set<u64>, f: u64, t: u64)
    requires
        freed_listed(s, from_items, to_items),
        from_items.contains(f),
        to_items.contains(t),
    ensures
        freed_listed(
            RelationState { forward: s.forward.insert(f, t), backward: s.backward.insert(t, f), ..s },
            from_items,
            to_items,
        ),
{
}

/// Freeing the item under `h` on the `from` side, which puts `h` in the
/// freelist, keeps every paired handle stored or listed.
pub proof fn lemma_free_from_keeps_freed_listed(s: RelationState, from_items: Set<u64>, to_items: Set<u64>, h: u64)
    requires
        freed_listed(s, from_items, to_items),
    ensures
        freed_listed(RelationState { from_freed: s.from_freed.insert(h), ..s }, from_items.remove(h), to_items),
{
}

/// Freeing the item under `h` on the `to` side, which puts `h` in the
/// freelist, keeps every paired handle stored or listed.
pub proof fn lemma_free_to_keeps_freed_listed(s: RelationState, from_items: Set<u64>, to_items: Set<u64>, h: u64)
    requires
        freed_listed(s, from_items, to_items),
    ensures
        freed_listed(RelationState { to_freed: s.to_freed.insert(h), ..s }, from_items, to_items.remove(h)),
{
}

/// Storing items, or dropping pairs as `unmap_from` and `unmap_to` do, keeps
/// every paired handle stored or listed.
pub proof fn lemma_fewer_pairs_keep_freed_listed(
    s: RelationState,
    s2: RelationState,
    from_items: Set<u64>,
    to_items: Set<u64>,
    from_items2: Set<u64>,
    to_items2: Set<u64>,
)
    requires
        freed_listed(s, from_items, to_items),
        s2.forward.submap_of(s.forward),
        s2.backward.submap_of(s.backward),
        s2.from_freed == s.from_freed,
        s2.to_freed == s.to_freed,
        from_items.subset_of(from_items2),
        to_items.subset_of(to_items2),
    ensures
        freed_listed(s2, from_items2, to_items2),
{
    assert forall|f: u64| #[trigger] s2.forward.contains_key(f) implies (from_items2.contains(f) || s2.from_freed.contains(f))
        && (to_items2.contains(s2.forward[f]) || s2.to_freed.contains(s2.forward[f])) by {
        assert(s.forward.contains_key(f));
    }
    assert forall|t: u64| #[trigger] s2.backward.contains_key(t) implies (to_items2.contains(t) || s2.to_freed.contains(t))
        && (from_items2.contains(s2.backward[t]) || s2.from_freed.contains(s2.backward[t])) by {
        assert(s.backward.contains_key(t));
    }
}

/// Collecting the freed handles of a relation whose two sides hold the same
/// pairs leaves every paired handle stored, with the freelists empty.
pub proof fn lemma_gc_keeps_freed_listed(s: RelationState, s2: RelationState, from_items: Set<u64>, to_items: Set<u64>)
    requires
        paired(s.forward, s.backward),
        freed_listed(s, from_items, to_items),
        collected(s.forward, s.backward, s.from_freed, s.to_freed, s2.forward, s2.backward),
        s2.from_freed == Set::<u64>::empty(),
        s2.to_freed == Set::<u64>::empty(),
    ensures
        freed_listed(s2, from_items, to_items),
{
    assert forall|f: u64| #[trigger] s2.forward.contains_key(f) implies (from_items.contains(f) || s2.from_freed.contains(f))
        && (to_items.contains(s2.forward[f]) || s2.to_freed.contains(s2.forward[f])) by {
        assert(s.forward.contains_key(f));
    }
    assert forall|t: u64| #[trigger] s2.backward.contains_key(t) implies (to_items.contains(t) || s2.to_freed.contains(t))
        && (from_items.contains(s2.backward[t]) || s2.from_freed.contains(s2.backward[t])) by {
        assert(s.backward.contains_key(t));
    }
}

/// Collecting the freed handles of a relation whose two sides hold the same
/// pairs changes no reading of a handle that was not freed, and leaves the
/// two sides holding the same pairs.
pub proof fn lemma_gc_keeps_reads(s: RelationState, s2: RelationState)
    requires
        paired(s.forward, s.backward),
        collected(s.forward, s.backward, s.from_freed, s.to_freed, s2.forward, s2.backward),
        s2.from_freed == Set::<u64>::empty(),
        s2.to_freed == Set::<u64>::empty(),
    ensures
        forall|f: u64| !s.from_freed.contains(f) ==> #[trigger] s2.image(f) == s.image(f),
        forall|t: u64| !s.to_freed.contains(t) ==> #[trigger] s2.preimage(t) == s.preimage(t),
        forall|f: u64, t: u64|
            !s.from_freed.contains(f) && !s.to_freed.contains(t) ==> #[trigger] s2.related(f, t)
                == s.related(f, t),
        paired(s2.forward, s2.backward),
{
    assert forall|f: u64| !s.from_freed.contains(f) implies #[trigger] s2.image(f) == s.image(f) by {
        if s.forward.contains_key(f) {
            assert(s.backward.contains_key(s.forward[f]));
        }
    }
    assert forall|t: u64| !s.to_freed.contains(t) implies #[trigger] s2.preimage(t) == s.preimage(t) by {
        if s.backward.contains_key(t) {
            assert(s.forward.contains_key(s.backward[t]));
        }
    }
    let fw = s2.forward;
    let bw = s2.backward;
    assert forall|x: u64| #[trigger] fw.contains_key(x) implies bw.contains_key(fw[x]) && bw[fw[x]] == x by {
        assert(s.forward.contains_key(x));
    }
    assert forall|y: u64| #[trigger] bw.contains_key(y) implies fw.contains_key(bw[y]) && fw[bw[y]] == y by {
        assert(s.backward.contains_key(y));
    }
}

} // verus!
