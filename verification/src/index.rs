//! The interface that a table keeps each of its indices up to date through.
use vstd::prelude::*;

verus! {

/// Whether handle `h1` comes before handle `h2` in an index that orders the
/// items by `key_less` and breaks ties by insertion `position`.
pub open spec fn ranks_before<A>(
    key_less: spec_fn(u64, A, u64, A) -> bool,
    position: spec_fn(u64) -> u64,
    contents: Map<u64, A>,
    h1: u64,
    h2: u64,
) -> bool {
    ||| key_less(h1, contents[h1], h2, contents[h2])
    ||| (!key_less(h2, contents[h2], h1, contents[h1]) && position(h1) < position(h2))
}

/// Whether `order` lists each item of `contents` exactly once, in the
/// order of `ranks_before`.
pub open spec fn lists_in_order<A>(
    key_less: spec_fn(u64, A, u64, A) -> bool,
    position: spec_fn(u64) -> u64,
    contents: Map<u64, A>,
    order: Seq<u64>,
) -> bool {
    &&& order.no_duplicates()
    &&& forall|h: u64| contents.contains_key(h) <==> order.contains(h)
    &&& forall|i: int, j: int|
        0 <= i < j < order.len() ==> ranks_before(
            key_less,
            position,
            contents,
            #[trigger] order[i],
            #[trigger] order[j],
        )
}

/// Whether `ranks_before` orders the items of `contents` strictly and
/// totally: of two different items, exactly one comes first.
pub open spec fn ranks_strictly<A>(
    key_less: spec_fn(u64, A, u64, A) -> bool,
    position: spec_fn(u64) -> u64,
    contents: Map<u64, A>,
) -> bool {
    &&& forall|h1: u64, h2: u64|
        #![trigger ranks_before(key_less, position, contents, h1, h2)]
        contents.contains_key(h1) && contents.contains_key(h2) ==> !(ranks_before(
            key_less,
            position,
            contents,
            h1,
            h2,
        ) && ranks_before(key_less, position, contents, h2, h1))
    &&& forall|h1: u64, h2: u64|
        #![trigger ranks_before(key_less, position, contents, h1, h2)]
        contents.contains_key(h1) && contents.contains_key(h2) && h1 != h2 ==> ranks_before(
            key_less,
            position,
            contents,
            h1,
            h2,
        ) || ranks_before(key_less, position, contents, h2, h1)
}

/// Where the order on the items is strict and total, there is only one way
/// to list them in order.
pub proof fn lemma_listing_unique<A>(
    key_less: spec_fn(u64, A, u64, A) -> bool,
    position: spec_fn(u64) -> u64,
    contents: Map<u64, A>,
    s1: Seq<u64>,
    s2: Seq<u64>,
)
    requires
        ranks_strictly(key_less, position, contents),
        lists_in_order(key_less, position, contents, s1),
        lists_in_order(key_less, position, contents, s2),
    ensures
        s1 == s2,
    decreases s1.len(),
{
    if s1.len() == 0 {
        if s2.len() > 0 {
            assert(s2.contains(s2[0]));
            assert(s1.contains(s2[0]));
        }
        assert(s1 =~= s2);
    } else {
        let x = s1[0];
        assert(s1.contains(x));
        assert(s2.contains(x));
        let y = s2[0];
        assert(s2.contains(y));
        assert(s1.contains(y));
        if x != y {
            let m = choose|m: int| 0 <= m < s1.len() && s1[m] == y;
            let k = choose|k: int| 0 <= k < s2.len() && s2[k] == x;
            assert(ranks_before(key_less, position, contents, s1[0], s1[m]));
            assert(ranks_before(key_less, position, contents, s2[0], s2[k]));
        }
        let c2 = contents.remove(x);
        let t1 = s1.drop_first();
        let t2 = s2.drop_first();
        assert forall|h: u64| c2.contains_key(h) <==> t1.contains(h) by {
            if t1.contains(h) {
                let j = choose|j: int| 0 <= j < t1.len() && t1[j] == h;
                assert(s1[j + 1] == h);
                assert(s1.contains(h));
            }
            if c2.contains_key(h) {
                assert(s1.contains(h));
                let j = choose|j: int| 0 <= j < s1.len() && s1[j] == h;
                assert(j != 0);
                assert(t1[j - 1] == h);
            }
        }
        assert forall|h: u64| c2.contains_key(h) <==> t2.contains(h) by {
            if t2.contains(h) {
                let j = choose|j: int| 0 <= j < t2.len() && t2[j] == h;
                assert(s2[j + 1] == h);
                assert(s2.contains(h));
            }
            if c2.contains_key(h) {
                assert(s2.contains(h));
                let j = choose|j: int| 0 <= j < s2.len() && s2[j] == h;
                assert(j != 0);
                assert(t2[j - 1] == h);
            }
        }
        assert forall|i: int, j: int| 0 <= i < j < t1.len() implies ranks_before(
            key_less,
            position,
            c2,
            #[trigger] t1[i],
            #[trigger] t1[j],
        ) by {
            assert(ranks_before(key_less, position, contents, s1[i + 1], s1[j + 1]));
            assert(t1[i] != x && t1[j] != x);
        }
        assert forall|i: int, j: int| 0 <= i < j < t2.len() implies ranks_before(
            key_less,
            position,
            c2,
            #[trigger] t2[i],
            #[trigger] t2[j],
        ) by {
            assert(ranks_before(key_less, position, contents, s2[i + 1], s2[j + 1]));
            assert(t2[i] != x && t2[j] != x);
        }
        assert forall|h1: u64, h2: u64| c2.contains_key(h1) && c2.contains_key(h2) implies !(ranks_before(
            key_less,
            position,
            c2,
            h1,
            h2,
        ) && ranks_before(key_less, position, c2, h2, h1)) by {
            assert(ranks_before(key_less, position, c2, h1, h2) == ranks_before(key_less, position, contents, h1, h2));
            assert(ranks_before(key_less, position, c2, h2, h1) == ranks_before(key_less, position, contents, h2, h1));
        }
        assert forall|h1: u64, h2: u64| c2.contains_key(h1) && c2.contains_key(h2) && h1 != h2 implies ranks_before(
            key_less,
            position,
            c2,
            h1,
            h2,
        ) || ranks_before(key_less, position, c2, h2, h1) by {
            assert(ranks_before(key_less, position, c2, h1, h2) == ranks_before(key_less, position, contents, h1, h2));
            assert(ranks_before(key_less, position, c2, h2, h1) == ranks_before(key_less, position, contents, h2, h1));
        }
        lemma_listing_unique(key_less, position, c2, t1, t2);
        assert(s1 =~= s2) by {
            assert forall|i: int| 0 <= i < s1.len() implies s1[i] == s2[i] by {
                if i > 0 {
                    assert(s1[i] == t1[i - 1]);
                    assert(s2[i] == t2[i - 1]);
                }
            }
        }
    }
}

/// The rule an index orders by: `less` says which (slot, item) pair sorts
/// before which, and `called` holds of a pair whose sort key is the result
/// of a call of the index's key function on it.
#[verifier::reject_recursive_types(A)]
pub struct KeyOrder<A> {
    pub less: spec_fn(u64, A, u64, A) -> bool,
    pub called: spec_fn(u64, A) -> bool,
}

/// An index held by a table.
#[verifier::reject_recursive_types(A)]
pub struct IndexSlot<A> {
    pub ixer: Box<dyn Indexer<A>>,
}

/// Whether index `i` of `ixers` describes exactly the items `contents`, has
/// seen finitely many handles, among them every current one, and has given
/// each seen handle its own insertion position.
pub open spec fn faithful_at<A>(ixers: Seq<IndexSlot<A>>, i: int, contents: Map<u64, A>) -> bool {
    &&& ixers[i].ixer.indexes(contents)
    &&& ixers[i].ixer.seen().finite()
    &&& forall|h: u64| contents.contains_key(h) ==> #[trigger] ixers[i].ixer.seen().contains(h)
    &&& forall|h: u64| #[trigger] contents.contains_key(h) ==> (ixers[i].ixer.order().called)(h, contents[h])
    &&& forall|h1: u64, h2: u64|
        #![trigger ixers[i].ixer.seen().contains(h1), ixers[i].ixer.seen().contains(h2)]
        ixers[i].ixer.seen().contains(h1) && ixers[i].ixer.seen().contains(h2) && h1 != h2
            ==> ixers[i].ixer.position(h1) != ixers[i].ixer.position(h2)
}

/// An index over the items of a table, kept up to date by the table.
pub trait Indexer<A> {
    /// Whether the index describes exactly the items `contents`.
    spec fn indexes(&self, contents: Map<u64, A>) -> bool;

    /// The handles that the index has ever given an insertion position.
    spec fn seen(&self) -> Set<u64>;

    /// The insertion position of a handle.
    spec fn position(&self, h: u64) -> u64;

    /// The order on (handle, item) pairs that the index sorts by; it never
    /// changes over the life of the index.
    spec fn order(&self) -> KeyOrder<A>;

    /// Records that the item under `h` is now `value`; `contents` holds the
    /// items before the change.
    fn handle_update(&mut self, h: u64, value: &A, contents: Ghost<Map<u64, A>>)
        requires
            old(self).indexes(contents@),
            old(self).seen().finite(),
            forall|x: u64| contents@.contains_key(x) ==> #[trigger] old(self).seen().contains(x),
            forall|x1: u64, x2: u64|
                #![trigger old(self).seen().contains(x1), old(self).seen().contains(x2)]
                old(self).seen().contains(x1) && old(self).seen().contains(x2) && x1 != x2
                    ==> old(self).position(x1) != old(self).position(x2),
            old(self).seen().contains(h) || old(self).seen().len() < u64::MAX,
        ensures
            final(self).indexes(contents@.insert(h, *value)),
            (final(self).order().called)(h, *value),
            final(self).seen().finite(),
            forall|x: u64| contents@.insert(h, *value).contains_key(x) ==> #[trigger] final(self).seen().contains(x),
            forall|x1: u64, x2: u64|
                #![trigger final(self).seen().contains(x1), final(self).seen().contains(x2)]
                final(self).seen().contains(x1) && final(self).seen().contains(x2) && x1 != x2
                    ==> final(self).position(x1) != final(self).position(x2),
            final(self).seen() == old(self).seen().insert(h),
            final(self).order() == old(self).order(),
            forall|k: u64| #[trigger]
                old(self).seen().contains(k) ==> final(self).position(k) == old(self).position(k),
            !old(self).seen().contains(h) ==> forall|k: u64| #[trigger]
                old(self).seen().contains(k) ==> old(self).position(k) < final(self).position(h),
    ;

    /// Records that the item under `h`, which was `value`, is gone.
    fn handle_free(&mut self, h: u64, value: &A, contents: Ghost<Map<u64, A>>)
        requires
            old(self).indexes(contents@),
            old(self).seen().finite(),
            forall|x: u64| contents@.contains_key(x) ==> #[trigger] old(self).seen().contains(x),
            forall|x1: u64, x2: u64|
                #![trigger old(self).seen().contains(x1), old(self).seen().contains(x2)]
                old(self).seen().contains(x1) && old(self).seen().contains(x2) && x1 != x2
                    ==> old(self).position(x1) != old(self).position(x2),
            contents@.contains_key(h),
        ensures
            final(self).indexes(contents@.remove(h)),
            final(self).seen().finite(),
            forall|x: u64| contents@.remove(h).contains_key(x) ==> #[trigger] final(self).seen().contains(x),
            forall|x1: u64, x2: u64|
                #![trigger final(self).seen().contains(x1), final(self).seen().contains(x2)]
                final(self).seen().contains(x1) && final(self).seen().contains(x2) && x1 != x2
                    ==> final(self).position(x1) != final(self).position(x2),
            final(self).seen() == old(self).seen(),
            final(self).order() == old(self).order(),
            forall|k: u64| #[trigger]
                old(self).seen().contains(k) ==> final(self).position(k) == old(self).position(k),
    ;

    /// The handles of all items, in ascending order.
    fn ordered(&self, contents: Ghost<Map<u64, A>>) -> (r: Vec<u64>)
        requires
            self.indexes(contents@),
            self.seen().finite(),
            forall|x: u64| contents@.contains_key(x) ==> #[trigger] self.seen().contains(x),
            forall|x1: u64, x2: u64|
                #![trigger self.seen().contains(x1), self.seen().contains(x2)]
                self.seen().contains(x1) && self.seen().contains(x2) && x1 != x2
                    ==> self.position(x1) != self.position(x2),
        ensures
            lists_in_order(self.order().less, |h: u64| self.position(h), contents@, r@),
    ;
}

} // verus!
