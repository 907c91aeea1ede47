//! Sorted indices: keep the items of a table ordered by a key computed from
//! each item, ties broken by the order in which items entered the index.
use crate::handle::Handle;
use crate::index::{faithful_at, lemma_listing_unique, lists_in_order, ranks_before, ranks_strictly, IndexSlot, Indexer, KeyOrder};
use crate::query::Query;
use crate::table::{indices_ok, lemma_bounded_len, Table};
use std::collections::BTreeMap;
use std::collections::HashMap;
use std::marker::PhantomData;
use vstd::laws_cmp::obeys_cmp;
use vstd::prelude::*;
use vstd::std_specs::cmp::{OrdSpec, PartialOrdSpec};
use vstd::std_specs::iter::IteratorSpec;

verus! {

broadcast use {
    vstd::std_specs::hash::group_hash_axioms,
    vstd::std_specs::btree::group_btree_axioms,
    vstd::laws_cmp::group_laws_cmp,
    crate::handle::group_handle,
};

/// Whether `grabkey` can be called on every handle and item, and gives the
/// same key each time it is called on the same ones.
pub open spec fn key_fn_ok<K, A, G: Fn(Handle<A>, &A) -> K>(grabkey: G) -> bool {
    &&& forall|h: Handle<A>, a: &A| #[trigger] grabkey.requires((h, a))
    &&& forall|h: Handle<A>, a: &A, k1: K, k2: K|
        #![trigger grabkey.ensures((h, a), k1), grabkey.ensures((h, a), k2)]
        grabkey.ensures((h, a), k1) && grabkey.ensures((h, a), k2) ==> k1 == k2
}

/// The key that a call of `grabkey` gives on the item `a` stored under slot
/// `h`.
pub open spec fn key_of<K, A, G: Fn(Handle<A>, &A) -> K>(grabkey: G, h: u64, a: A) -> K {
    choose|k: K| grabkey.ensures((Handle::<A>::spec_at(h), &a), k)
}

/// Whether key `k1` sorts strictly before key `k2`.
pub open spec fn key_before<K: Ord>(k1: K, k2: K) -> bool {
    k1.cmp_spec(&k2) is Less
}

/// The order on (handle, item) pairs of an index sorted by `grabkey`.
pub open spec fn sort_key_less<K: Ord, A, G: Fn(Handle<A>, &A) -> K>(grabkey: G) -> spec_fn(
    u64,
    A,
    u64,
    A,
) -> bool {
    |h1: u64, a1: A, h2: u64, a2: A| key_before(key_of(grabkey, h1, a1), key_of(grabkey, h2, a2))
}

/// Whether the key of item `a` under slot `h` is what a call of `grabkey`
/// on them gives.
pub open spec fn key_called<K, A, G: Fn(Handle<A>, &A) -> K>(grabkey: G) -> spec_fn(u64, A) -> bool {
    |h: u64, a: A| grabkey.ensures((Handle::<A>::spec_at(h), &a), key_of(grabkey, h, a))
}

/// The rule of an index sorted by `grabkey`.
pub open spec fn sort_order<K: Ord, A, G: Fn(Handle<A>, &A) -> K>(grabkey: G) -> KeyOrder<A> {
    KeyOrder { less: sort_key_less(grabkey), called: key_called(grabkey) }
}

/// The lexicographic order on (key, insertion position) pairs, in terms of
/// the order of the keys.
proof fn lemma_entry_order<K: Ord>(k1: K, p1: u64, k2: K, p2: u64)
    requires
        obeys_cmp::<K>(),
    ensures
        (k1, p1).cmp_spec(&(k2, p2)) is Less <==> (key_before(k1, k2) || (!key_before(k2, k1)
            && p1 < p2)),
{
    reveal(vstd::laws_cmp::obeys_partial_cmp_spec_properties);
    reveal(vstd::laws_cmp::obeys_cmp_partial_ord);
    reveal(vstd::laws_cmp::obeys_cmp_ord);
    reveal(vstd::laws_eq::obeys_eq_spec_properties);
    assert(k1.partial_cmp_spec(&k2) == Some(k1.cmp_spec(&k2)));
    assert(k2.partial_cmp_spec(&k1) == Some(k2.cmp_spec(&k1)));
}

/// A sorted index: each indexed item sits in `ordered` under its key and the
/// position at which it entered the index; `old_spot` remembers the entry of
/// every handle ever indexed.
#[verifier::reject_recursive_types(K)]
#[verifier::reject_recursive_types(A)]
pub(crate) struct Sorter<K, A, G> {
    next_insertion: u64,
    grabkey: G,
    ordered: BTreeMap<(K, u64), u64>,
    old_spot: HashMap<u64, (K, u64)>,
    phantom: PhantomData<A>,
}

impl<K: Ord, A, G: Fn(Handle<A>, &A) -> K> Sorter<K, A, G> {
    pub(crate) closed spec fn key_fn(&self) -> G {
        self.grabkey
    }

    /// Everything of the index's consistency that does not depend on the items.
    pub(crate) closed spec fn sound(&self) -> bool {
        &&& obeys_cmp::<K>()
        &&& key_fn_ok(self.grabkey)
        &&& self.old_spot@.dom().finite()
        &&& self.next_insertion == self.old_spot@.len()
        &&& forall|h: u64| #[trigger]
            self.old_spot@.contains_key(h) ==> self.old_spot@[h].1 < self.next_insertion
        &&& forall|h1: u64, h2: u64|
            #![trigger self.old_spot@[h1], self.old_spot@[h2]]
            self.old_spot@.contains_key(h1) && self.old_spot@.contains_key(h2) && h1 != h2
                ==> self.old_spot@[h1].1 != self.old_spot@[h2].1
    }

    pub(crate) closed spec fn describes(&self, contents: Map<u64, A>) -> bool {
        &&& self.sound()
        &&& forall|h: u64| #[trigger]
            contents.contains_key(h) ==> {
                &&& self.old_spot@.contains_key(h)
                &&& self.old_spot@[h].0 == key_of(self.grabkey, h, contents[h])
                &&& self.ordered@.contains_key(self.old_spot@[h])
                &&& self.ordered@[self.old_spot@[h]] == h
            }
        &&& forall|k: (K, u64)| #[trigger]
            self.ordered@.contains_key(k) ==> contents.contains_key(self.ordered@[k])
                && self.old_spot@[self.ordered@[k]] == k
    }

    /// An index with nothing in it.
    pub(crate) fn new(grabkey: G) -> (s: Self)
        requires
            obeys_cmp::<K>(),
            key_fn_ok(grabkey),
        ensures
            s.describes(Map::empty()),
            s.seen() == Set::<u64>::empty(),
            s.key_fn() == grabkey,
    {
        let s = Sorter {
            next_insertion: 0,
            grabkey,
            ordered: BTreeMap::new(),
            old_spot: HashMap::new(),
            phantom: PhantomData,
        };
        assert(s.old_spot@.dom() =~= Set::<u64>::empty());
        s
    }

    /// Takes the handle's entry out of the order, and gives the insertion
    /// position it keeps: its old one if it was ever indexed, else a new one.
    fn handle_free_make_insertion(&mut self, h: u64, contents: Ghost<Map<u64, A>>) -> (pos: u64)
        requires
            old(self).describes(contents@),
            old(self).old_spot@.contains_key(h) || old(self).next_insertion < u64::MAX,
        ensures
            final(self).grabkey == old(self).grabkey,
            final(self).old_spot@ == old(self).old_spot@,
            old(self).old_spot@.contains_key(h) ==> {
                &&& pos == old(self).old_spot@[h].1
                &&& final(self).next_insertion == old(self).next_insertion
                &&& final(self).ordered@ == old(self).ordered@.remove(old(self).old_spot@[h])
            },
            !old(self).old_spot@.contains_key(h) ==> {
                &&& pos == old(self).next_insertion
                &&& final(self).next_insertion == old(self).next_insertion + 1
                &&& final(self).ordered@ == old(self).ordered@
            },
    {
        match self.old_spot.get(&h) {
            None => {
                let insertion_id = self.next_insertion;
                self.next_insertion = self.next_insertion + 1;
                insertion_id
            },
            Some(g) => {
                let insertion_id = g.1;
                self.ordered.remove(g);
                insertion_id
            },
        }
    }
}

impl<K: Ord, A, G: Fn(Handle<A>, &A) -> K> Indexer<A> for Sorter<K, A, G> {
    closed spec fn indexes(&self, contents: Map<u64, A>) -> bool {
        self.describes(contents)
    }

    closed spec fn seen(&self) -> Set<u64> {
        self.old_spot@.dom()
    }

    closed spec fn position(&self, h: u64) -> u64 {
        self.old_spot@[h].1
    }

    closed spec fn order(&self) -> KeyOrder<A> {
        sort_order(self.grabkey)
    }

    fn handle_update(&mut self, h: u64, value: &A, contents: Ghost<Map<u64, A>>) {
        let ghost old_self = *self;
        let insertion_id = self.handle_free_make_insertion(h, contents);
        let k1 = (self.grabkey)(Handle::at(h), value);
        self.old_spot.insert(h, (k1, insertion_id));
        let k2 = (self.grabkey)(Handle::at(h), value);
        self.ordered.insert((k2, insertion_id), h);
        proof {
            let c2 = contents@.insert(h, *value);
            assert(k1 == key_of(self.grabkey, h, *value));
            assert(self.old_spot@.dom() == old_self.old_spot@.dom().insert(h));
            assert forall|k: (K, u64)| #[trigger] self.ordered@.contains_key(k) implies c2.contains_key(
                self.ordered@[k],
            ) && self.old_spot@[self.ordered@[k]] == k by {
                if k != (k1, insertion_id) {
                    assert(old_self.ordered@.contains_key(k));
                }
            }
            assert forall|x: u64| #[trigger] c2.contains_key(x) implies {
                &&& self.old_spot@.contains_key(x)
                &&& self.old_spot@[x].0 == key_of(self.grabkey, x, c2[x])
                &&& self.ordered@.contains_key(self.old_spot@[x])
                &&& self.ordered@[self.old_spot@[x]] == x
            } by {
                if x != h {
                    assert(old_self.old_spot@[x] != old_self.old_spot@[h] || !old_self.old_spot@.contains_key(h));
                }
            }
        }
    }

    fn handle_free(&mut self, h: u64, value: &A, contents: Ghost<Map<u64, A>>) {
        let ghost old_self = *self;
        let _ = self.handle_free_make_insertion(h, contents);
        proof {
            let c2 = contents@.remove(h);
            assert forall|x: u64| #[trigger] c2.contains_key(x) implies {
                &&& self.old_spot@.contains_key(x)
                &&& self.old_spot@[x].0 == key_of(self.grabkey, x, c2[x])
                &&& self.ordered@.contains_key(self.old_spot@[x])
                &&& self.ordered@[self.old_spot@[x]] == x
            } by {
                assert(old_self.old_spot@[x] != old_self.old_spot@[h]);
            }
        }
    }

    fn ordered(&self, contents: Ghost<Map<u64, A>>) -> (r: Vec<u64>) {
        let ghost m = self.ordered@;
        let ghost c = contents@;
        let values = self.ordered.values();
        let ghost ks = choose|ks: Seq<(K, u64)>|
            {
                &&& vstd::std_specs::btree::increasing_seq(ks)
                &&& ks.to_set() == m.dom()
                &&& ks.no_duplicates()
                &&& values.remaining() == ks.map(|i: int, k: (K, u64)| &m[k])
            };
        let mut out: Vec<u64> = Vec::new();
        for v in it: values
            invariant
                out@.len() == it.index(),
                forall|j: int| 0 <= j < it.index() ==> out@[j] == *it.seq()[j],
        {
            out.push(*v);
        }
        proof {
            assert(out@.len() == ks.len());
            assert forall|j: int| 0 <= j < ks.len() implies #[trigger] out@[j] == m[ks[j]]
                && m.contains_key(ks[j]) && self.old_spot@[out@[j]] == ks[j] && c.contains_key(out@[j]) by {
                assert(ks.to_set().contains(ks[j]));
            }
            assert forall|i: int, j: int| 0 <= i < out@.len() && 0 <= j < out@.len() && i != j
                implies out@[i] != out@[j] by {
                assert(ks[i] != ks[j]);
            }
            assert forall|h: u64| c.contains_key(h) implies out@.contains(h) by {
                let k = self.old_spot@[h];
                assert(ks.to_set().contains(k));
                let j = choose|j: int| 0 <= j < ks.len() && ks[j] == k;
                assert(out@[j] == h);
            }
            assert forall|i: int, j: int| 0 <= i < j < out@.len() implies crate::index::ranks_before(
                self.order().less,
                |h: u64| self.position(h),
                c,
                #[trigger] out@[i],
                #[trigger] out@[j],
            ) by {
                let ki = ks[i];
                let kj = ks[j];
                assert(ki.cmp_spec(&kj) is Less);
                lemma_entry_order(ki.0, ki.1, kj.0, kj.1);
            }
        }
        out
    }
}


impl<K: Ord + 'static, A: 'static, G: Fn(Handle<A>, &A) -> K + 'static> Sorter<K, A, G> {
    /// The index, boxed for a table to hold.
    fn into_slot(self) -> (slot: IndexSlot<A>)
        ensures
            forall|c: Map<u64, A>| #[trigger] slot.ixer.indexes(c) == self.indexes(c),
            slot.ixer.seen() == self.seen(),
            forall|h: u64| #[trigger] slot.ixer.position(h) == self.position(h),
            slot.ixer.order() == self.order(),
    {
        let ghost me = self;
        let slot = IndexSlot { ixer: Box::new(self) };
        assert(slot.ixer.seen() == me.seen());
        slot
    }
}

/// A sorted index of a table, by key type `K`; gives queries that read the
/// table through it.
pub struct Sort<K, A> {
    phantom1: PhantomData<K>,
    phantom2: PhantomData<A>,
    ix: usize,
}

impl<K, A> Sort<K, A> {
    /// The number of the index within its table.
    pub closed spec fn index_number(&self) -> int {
        self.ix as int
    }

    /// The query for the items from the smallest key up.
    pub closed spec fn asc_query(&self) -> Query<A> {
        Query::spec_new(self.ix, false)
    }

    /// The query for the items from the greatest key down.
    pub closed spec fn desc_query(&self) -> Query<A> {
        Query::spec_new(self.ix, true)
    }

    /// The two queries of a sort read its index, one from each end.
    pub proof fn lemma_queries(&self)
        ensures
            self.asc_query().index_number() == self.index_number(),
            !self.asc_query().is_descending(),
            self.desc_query().index_number() == self.index_number(),
            self.desc_query().is_descending(),
    {
        Query::<A>::lemma_spec_new(self.ix, false);
        Query::<A>::lemma_spec_new(self.ix, true);
    }

    /// A query for the items from the smallest key up.
    pub fn asc(&self) -> (q: Query<A>)
        ensures
            q == self.asc_query(),
            q.index_number() == self.index_number(),
            !q.is_descending(),
    {
        Query::new(self.ix, false)
    }

    /// A query for the items from the greatest key down.
    pub fn desc(&self) -> (q: Query<A>)
        ensures
            q == self.desc_query(),
            q.index_number() == self.index_number(),
            q.is_descending(),
    {
        Query::new(self.ix, true)
    }
}

impl<A: 'static> Table<A> {
    /// Adds an index that keeps the items sorted by the key that `grabkey`
    /// computes from each handle and item, ties broken by the order in which
    /// items entered the index; items already stored enter it first.
    pub fn create_sort<K: Ord + 'static, G: Fn(Handle<A>, &A) -> K + 'static>(
        &mut self,
        grabkey: G,
    ) -> (s: Sort<K, A>)
        requires
            old(self).wf(),
            obeys_cmp::<K>(),
            key_fn_ok(grabkey),
        ensures
            final(self).wf(),
            final(self)@ == old(self)@,
            final(self).next_index() == old(self).next_index(),
            s.index_number() == old(self).index_count(),
            final(self).index_count() == old(self).index_count() + 1,
            final(self).order(s.index_number()) == sort_order(grabkey),
            forall|h1: u64, h2: u64|
                #![trigger final(self).position(s.index_number(), h1), final(self).position(s.index_number(), h2)]
                old(self)@.contains_key(h1) && old(self)@.contains_key(h2) && h1 < h2 ==> final(self).position(
                    s.index_number(),
                    h1,
                ) < final(self).position(s.index_number(), h2),
            forall|i: int, k: u64|
                0 <= i < old(self).index_count() ==> #[trigger] final(self).position(i, k)
                    == old(self).position(i, k),
            forall|i: int|
                0 <= i < old(self).index_count() ==> #[trigger] final(self).order(i)
                    == old(self).order(i),
            final(self).indexed(s.index_number()) == old(self)@,
            forall|i: int| 0 <= i < old(self).index_count() ==> #[trigger] final(self).indexed(i) == old(self).indexed(i),
            final(self).keeps_freelists(old(self)),
    {
        let mut index = Sorter::new(grabkey);
        let ghost mut partial = Map::<u64, A>::empty();
        let n = self.next_index_exec();
        let mut k: u64 = 0;
        while k < n
            invariant
                k <= n,
                n == self.next_index(),
                self.wf(),
                index.describes(partial),
                index.order() == sort_order(grabkey),
                index.seen() == partial.dom(),
                partial.dom().finite(),
                forall|h: u64| #[trigger] partial.contains_key(h) <==> (h < k && self@.contains_key(h)),
                forall|h: u64| #[trigger] partial.contains_key(h) ==> partial[h] == self@[h],
                forall|h: u64| #[trigger] partial.contains_key(h) ==> (index.order().called)(h, partial[h]),
                forall|h1: u64, h2: u64|
                    #![trigger index.position(h1), index.position(h2)]
                    partial.contains_key(h1) && partial.contains_key(h2) && h1 < h2 ==> index.position(h1) < index.position(h2),
            decreases n - k,
        {
            match self.seek(Handle::at(k)) {
                None => {},
                Some(el) => {
                    proof {
                        lemma_bounded_len(partial.dom().insert(k), n);
                    }
                    index.handle_update(k, el, Ghost(partial));
                    proof {
                        partial = partial.insert(k, *el);
                    }
                },
            }
            k = k + 1;
        }
        proof {
            self.lemma_stored_below_next();
            assert(partial =~= self@);
            assert forall|h: u64| index.seen().contains(h) implies h < self.next_index() by {
                assert(partial.contains_key(h));
            }
        }
        let slot = index.into_slot();
        proof {
            assert(faithful_at(seq![slot], 0, self@));
            assert(seq![self@][0] == self@);
        }
        let ix = self.add_index(slot);
        Sort { phantom1: PhantomData, phantom2: PhantomData, ix }
    }
}


/// Keys compared by a total order: of two keys, at most one sorts before the
/// other.
proof fn lemma_key_before_asymmetric<K: Ord>(k1: K, k2: K)
    requires
        obeys_cmp::<K>(),
    ensures
        !(key_before(k1, k2) && key_before(k2, k1)),
{
    reveal(vstd::laws_cmp::obeys_partial_cmp_spec_properties);
    reveal(vstd::laws_cmp::obeys_cmp_ord);
    assert(k1.partial_cmp_spec(&k2) == Some(k1.cmp_spec(&k2)));
    assert(k2.partial_cmp_spec(&k1) == Some(k2.cmp_spec(&k1)));
}

/// A sorted index orders its items strictly and totally: by key, and by
/// insertion position among equal keys.
pub proof fn lemma_sort_ranks_strictly<K: Ord, A, G: Fn(Handle<A>, &A) -> K>(
    grabkey: G,
    position: spec_fn(u64) -> u64,
    contents: Map<u64, A>,
)
    requires
        obeys_cmp::<K>(),
        forall|h1: u64, h2: u64|
            #![trigger position(h1), position(h2)]
            contents.contains_key(h1) && contents.contains_key(h2) && h1 != h2 ==> position(h1)
                != position(h2),
    ensures
        ranks_strictly(sort_key_less(grabkey), position, contents),
{
    let kl = sort_key_less(grabkey);
    assert forall|h1: u64, h2: u64| contents.contains_key(h1) && contents.contains_key(h2) implies !(
    ranks_before(kl, position, contents, h1, h2) && ranks_before(kl, position, contents, h2, h1)) by {
        lemma_key_before_asymmetric(key_of(grabkey, h1, contents[h1]), key_of(grabkey, h2, contents[h2]));
    }
    assert forall|h1: u64, h2: u64|
        contents.contains_key(h1) && contents.contains_key(h2) && h1 != h2 implies ranks_before(
        kl,
        position,
        contents,
        h1,
        h2,
    ) || ranks_before(kl, position, contents, h2, h1) by {
        assert(position(h1) != position(h2));
    }
}

/// A sorted index lists the stored items in exactly one order.
pub proof fn lemma_sorted_listing_unique<K: Ord, A, G: Fn(Handle<A>, &A) -> K>(
    t: &Table<A>,
    i: int,
    grabkey: G,
    s1: Seq<u64>,
    s2: Seq<u64>,
)
    requires
        t.wf(),
        0 <= i < t.index_count(),
        obeys_cmp::<K>(),
        t.order(i) == sort_order(grabkey),
        t.lists_index(i, s1),
        t.lists_index(i, s2),
    ensures
        s1 == s2,
{
    let position = |h: u64| t.position(i, h);
    t.lemma_positions_distinct(i);
    t.lemma_keys_called(i);
    lemma_sort_ranks_strictly(grabkey, position, t.indexed(i));
    lemma_listing_unique(t.order(i).less, position, t.indexed(i), s1, s2);
}

/// Reading a sorted index from its greatest item down gives the items in
/// the reverse of the order from its smallest item up.
pub proof fn lemma_desc_reverses_asc<K: Ord, A, G: Fn(Handle<A>, &A) -> K>(
    t: &Table<A>,
    s: Sort<K, A>,
    grabkey: G,
    up: Seq<u64>,
    down: Seq<u64>,
)
    requires
        t.wf(),
        0 <= s.index_number() < t.index_count(),
        obeys_cmp::<K>(),
        t.order(s.index_number()) == sort_order(grabkey),
        t.answers(s.asc_query(), up),
        t.answers(s.desc_query(), down),
    ensures
        down == up.reverse(),
{
    s.lemma_queries();
    lemma_sorted_listing_unique(t, s.index_number(), grabkey, up, down.reverse());
    assert(down.reverse().reverse() =~= down);
}

} // verus!
