//! Where a relation learns which handles were freed: the freelists that the
//! tables fill, and the collection that drops freed handles' pairs.
use std::collections::HashMap;
use std::collections::HashSet;
use vstd::prelude::*;

verus! {

broadcast use vstd::std_specs::hash::group_hash_axioms;

/// Whether `forward` and `backward` hold the same pairs, each from its side.
pub open spec fn paired(forward: Map<u64, u64>, backward: Map<u64, u64>) -> bool {
    &&& forall|f: u64| #[trigger]
        forward.contains_key(f) ==> backward.contains_key(forward[f]) && backward[forward[f]] == f
    &&& forall|t: u64| #[trigger]
        backward.contains_key(t) ==> forward.contains_key(backward[t]) && forward[backward[t]] == t
}

/// The entries of `m` whose key is not in `gone_keys` and whose value is not
/// in `gone_values`.
pub open spec fn keep_pairs(m: Map<u64, u64>, gone_keys: Set<u64>, gone_values: Set<u64>) -> Map<
    u64,
    u64,
> {
    m.restrict(m.dom().filter(|k: u64| !gone_keys.contains(k) && !gone_values.contains(m[k])))
}

/// What collecting the freed handles of a relation does to its maps: only
/// entries go, none of a freed handle stays, and where the two maps held the
/// same pairs, exactly the pairs with a freed handle on either side go.
pub open spec fn collected(
    forward: Map<u64, u64>,
    backward: Map<u64, u64>,
    from_freed: Set<u64>,
    to_freed: Set<u64>,
    forward2: Map<u64, u64>,
    backward2: Map<u64, u64>,
) -> bool {
    &&& forward2.submap_of(forward)
    &&& backward2.submap_of(backward)
    &&& forall|f: u64| #[trigger] from_freed.contains(f) ==> !forward2.contains_key(f)
    &&& forall|t: u64| #[trigger] to_freed.contains(t) ==> !backward2.contains_key(t)
    &&& paired(forward, backward) ==> {
        &&& forward2 == keep_pairs(forward, from_freed, to_freed)
        &&& backward2 == keep_pairs(backward, to_freed, from_freed)
    }
}

/// The values that `m` gives the keys in `keys`.
pub open spec fn image_of(m: Map<u64, u64>, keys: Set<u64>) -> Set<u64> {
    Set::new(|v: u64| exists|k: u64| #[trigger] keys.contains(k) && m.contains_key(k) && m[k] == v)
}

/// Adding a key to `keys` adds its value, if it has one, to their image.
proof fn lemma_image_insert(m: Map<u64, u64>, keys: Set<u64>, e: u64)
    ensures
        m.contains_key(e) ==> image_of(m, keys.insert(e)) == image_of(m, keys).insert(m[e]),
        !m.contains_key(e) ==> image_of(m, keys.insert(e)) == image_of(m, keys),
{
    let big = image_of(m, keys.insert(e));
    let small = image_of(m, keys);
    assert forall|v: u64| big.contains(v) implies small.contains(v) || (m.contains_key(e) && v == m[e]) by {
        {
            let k = choose|k: u64| #[trigger] keys.insert(e).contains(k) && m.contains_key(k) && m[k] == v;
            if k != e {
                assert(keys.contains(k));
            }
        }
    }
    assert forall|v: u64| small.contains(v) implies big.contains(v) by {
        let k = choose|k: u64| #[trigger] keys.contains(k) && m.contains_key(k) && m[k] == v;
        assert(keys.insert(e).contains(k));
    }
    if m.contains_key(e) {
        assert(keys.insert(e).contains(e));
        assert(big.contains(m[e]));
        assert(big =~= small.insert(m[e]));
    } else {
        assert(big =~= small);
    }
}

/// The maps that collecting the freed handles of a relation between two
/// tables leaves: first each freed `from` handle's entry goes from
/// `forward`, with the entry of its partner from `backward`; then each freed
/// `to` handle's entry goes from what is left of `backward`, with the entry
/// of its partner from `forward`.
pub open spec fn join_collected(
    forward: Map<u64, u64>,
    backward: Map<u64, u64>,
    from_freed: Set<u64>,
    to_freed: Set<u64>,
) -> (Map<u64, u64>, Map<u64, u64>) {
    let backward1 = backward.remove_keys(image_of(forward, from_freed));
    (
        forward.remove_keys(from_freed).remove_keys(image_of(backward1, to_freed)),
        backward1.remove_keys(to_freed),
    )
}

/// One step of collecting the freed handles of a relation of a table with
/// itself: the freed handle `e`'s entry goes from `forward`, with its
/// partner's entry from `backward`; then `e`'s entry goes from what is left
/// of `backward`, with its partner's entry from `forward`.
pub open spec fn self_step(fw: Map<u64, u64>, bw: Map<u64, u64>, e: u64) -> (Map<u64, u64>, Map<u64, u64>) {
    let fw1 = if fw.contains_key(e) { fw.remove(e) } else { fw };
    let bw1 = if fw.contains_key(e) { bw.remove(fw[e]) } else { bw };
    if bw1.contains_key(e) {
        (fw1.remove(bw1[e]), bw1.remove(e))
    } else {
        (fw1, bw1)
    }
}

/// The maps that collecting the freed handles in `order`, one after the
/// other, leaves of a relation of a table with itself.
pub open spec fn self_collected(fw: Map<u64, u64>, bw: Map<u64, u64>, order: Seq<u64>) -> (Map<u64, u64>, Map<u64, u64>)
    decreases order.len(),
{
    if order.len() == 0 {
        (fw, bw)
    } else {
        let p = self_collected(fw, bw, order.drop_last());
        self_step(p.0, p.1, order.last())
    }
}

/// One step of collecting: dropping the pair of a freed handle `e` on the
/// forward side keeps the maps equal to their originals less the pairs of
/// the handles dropped so far.
proof fn lemma_drop_forward(
    f0: Map<u64, u64>,
    b0: Map<u64, u64>,
    dl: Set<u64>,
    dr: Set<u64>,
    e: u64,
)
    requires
        paired(f0, b0),
        !dl.contains(e),
    ensures
        ({
            let fw = keep_pairs(f0, dl, dr);
            let bw = keep_pairs(b0, dr, dl);
            if fw.contains_key(e) {
                &&& fw.remove(e) == keep_pairs(f0, dl.insert(e), dr)
                &&& bw.remove(fw[e]) == keep_pairs(b0, dr, dl.insert(e))
            } else {
                &&& fw == keep_pairs(f0, dl.insert(e), dr)
                &&& bw == keep_pairs(b0, dr, dl.insert(e))
            }
        }),
{
    let fw = keep_pairs(f0, dl, dr);
    let bw = keep_pairs(b0, dr, dl);
    if fw.contains_key(e) {
        let t = fw[e];
        assert(b0.contains_key(t) && b0[t] == e);
        assert(fw.remove(e) =~= keep_pairs(f0, dl.insert(e), dr));
        assert forall|k: u64| bw.remove(t).contains_key(k) <==> keep_pairs(b0, dr, dl.insert(e)).contains_key(k) by {
            if b0.contains_key(k) && b0[k] == e {
                assert(f0.contains_key(e) && f0[e] == k);
            }
        }
        assert(bw.remove(t) =~= keep_pairs(b0, dr, dl.insert(e)));
    } else {
        assert(fw =~= keep_pairs(f0, dl.insert(e), dr));
        assert forall|k: u64| bw.contains_key(k) <==> keep_pairs(b0, dr, dl.insert(e)).contains_key(k) by {
            if b0.contains_key(k) && b0[k] == e {
                assert(f0.contains_key(e) && f0[e] == k);
            }
        }
        assert(bw =~= keep_pairs(b0, dr, dl.insert(e)));
    }
}

/// Drops from `ls` and `rs` the pairs of the handles in the two freelists,
/// then empties the freelists.
pub(crate) fn join_do_frees(
    l_freelist: &mut HashSet<u64>,
    r_freelist: &mut HashSet<u64>,
    ls: &mut HashMap<u64, u64>,
    rs: &mut HashMap<u64, u64>,
)
    ensures
        final(l_freelist)@ == Set::<u64>::empty(),
        final(r_freelist)@ == Set::<u64>::empty(),
        collected(old(ls)@, old(rs)@, old(l_freelist)@, old(r_freelist)@, final(ls)@, final(rs)@),
        (final(ls)@, final(rs)@) == join_collected(old(ls)@, old(rs)@, old(l_freelist)@, old(r_freelist)@),
{
    let ghost f0 = ls@;
    let ghost b0 = rs@;
    let ghost lf = l_freelist@;
    let ghost rf = r_freelist@;
    let ghost mut done_l = Set::<u64>::empty();
    let ghost mut done_r = Set::<u64>::empty();
    for el in it: l_freelist.iter()
        invariant
            ls@.submap_of(f0),
            rs@.submap_of(b0),
            it.seq().unref().to_set() == lf,
            it.seq().no_duplicates(),
            forall|x: u64| #[trigger] lf.contains(x) ==> exists|j: int| 0 <= j < it.seq().len() && *it.seq()[j] == x,
            forall|j: int| 0 <= j < it.index() ==> #[trigger] done_l.contains(*it.seq()[j]),
            forall|x: u64| #[trigger] done_l.contains(x) ==> exists|j: int| 0 <= j < it.index() && *it.seq()[j] == x,
            forall|x: u64| #[trigger] done_l.contains(x) ==> !ls@.contains_key(x),
            forall|x: u64| #[trigger] done_l.contains(x) ==> lf.contains(x),
            paired(f0, b0) ==> {
                &&& ls@ == keep_pairs(f0, done_l, done_r)
                &&& rs@ == keep_pairs(b0, done_r, done_l)
            },
            ls@ == f0.remove_keys(done_l),
            rs@ == b0.remove_keys(image_of(f0, done_l)),
    {
        proof {
            if paired(f0, b0) {
                lemma_drop_forward(f0, b0, done_l, done_r, *el);
            }
            assert(!done_l.contains(*el)) by {
                if done_l.contains(*el) {
                    let j = choose|j: int| 0 <= j < it.index() && *it.seq()[j] == *el;
                    assert(*it.seq()[j] == *it.seq()[it.index() as int]);
                }
            }
        }
        let ghost rs_pre = rs@;
        match ls.remove(el) {
            None => {
                proof {
                    lemma_image_insert(f0, done_l, *el);
                }
            },
            Some(rbunch) => {
                rs.remove(&rbunch);
                proof {
                    lemma_image_insert(f0, done_l, *el);
                    assert(rs@ =~= b0.remove_keys(image_of(f0, done_l.insert(*el))));
                }
            },
        }
        proof {
            assert(ls@ =~= f0.remove_keys(done_l.insert(*el)));
            done_l = done_l.insert(*el);
        }
    }
    let ghost b1 = rs@;
    assert(done_l =~= lf);
    for er in it: r_freelist.iter()
        invariant
            ls@.submap_of(f0),
            rs@.submap_of(b0),
            it.seq().unref().to_set() == rf,
            it.seq().no_duplicates(),
            forall|x: u64| #[trigger] rf.contains(x) ==> exists|j: int| 0 <= j < it.seq().len() && *it.seq()[j] == x,
            done_l == lf,
            forall|x: u64| #[trigger] done_l.contains(x) ==> !ls@.contains_key(x),
            forall|j: int| 0 <= j < it.index() ==> #[trigger] done_r.contains(*it.seq()[j]),
            forall|x: u64| #[trigger] done_r.contains(x) ==> exists|j: int| 0 <= j < it.index() && *it.seq()[j] == x,
            forall|x: u64| #[trigger] done_r.contains(x) ==> !rs@.contains_key(x),
            forall|x: u64| #[trigger] done_r.contains(x) ==> rf.contains(x),
            paired(f0, b0) ==> {
                &&& ls@ == keep_pairs(f0, done_l, done_r)
                &&& rs@ == keep_pairs(b0, done_r, done_l)
            },
            b1 == b0.remove_keys(image_of(f0, lf)),
            ls@ == f0.remove_keys(lf).remove_keys(image_of(b1, done_r)),
            rs@ == b1.remove_keys(done_r),
    {
        proof {
            if paired(f0, b0) {
                lemma_drop_forward(b0, f0, done_r, done_l, *er);
            }
            assert(!done_r.contains(*er)) by {
                if done_r.contains(*er) {
                    let j = choose|j: int| 0 <= j < it.index() && *it.seq()[j] == *er;
                    assert(*it.seq()[j] == *it.seq()[it.index() as int]);
                }
            }
        }
        match rs.remove(er) {
            None => {
                proof {
                    lemma_image_insert(b1, done_r, *er);
                }
            },
            Some(lbunch) => {
                ls.remove(&lbunch);
                proof {
                    lemma_image_insert(b1, done_r, *er);
                    assert(ls@ =~= f0.remove_keys(lf).remove_keys(image_of(b1, done_r.insert(*er))));
                }
            },
        }
        proof {
            assert(rs@ =~= b1.remove_keys(done_r.insert(*er)));
            done_r = done_r.insert(*er);
        }
    }
    assert(done_r =~= rf);
    l_freelist.clear();
    r_freelist.clear();
}


/// Drops from `ls` and `rs` the pairs of the handles in the freelist of a
/// relation between a table and itself, then empties the freelist.
pub(crate) fn self_join_do_frees(
    self_freelist: &mut HashSet<u64>,
    ls: &mut HashMap<u64, u64>,
    rs: &mut HashMap<u64, u64>,
)
    ensures
        final(self_freelist)@ == Set::<u64>::empty(),
        collected(old(ls)@, old(rs)@, old(self_freelist)@, old(self_freelist)@, final(ls)@, final(rs)@),
        exists|order: Seq<u64>|
            #![trigger self_collected(old(ls)@, old(rs)@, order)]
            order.no_duplicates() && order.to_set() == old(self_freelist)@ && (final(ls)@, final(rs)@)
                == self_collected(old(ls)@, old(rs)@, order),
{
    let ghost f0 = ls@;
    let ghost b0 = rs@;
    let ghost sf = self_freelist@;
    let ghost mut done = Set::<u64>::empty();
    let ghost mut ord = Seq::<u64>::empty();
    assert(ord.to_set() =~= done);
    for e in it: self_freelist.iter()
        invariant
            ls@.submap_of(f0),
            rs@.submap_of(b0),
            it.seq().unref().to_set() == sf,
            it.seq().no_duplicates(),
            forall|x: u64| #[trigger] sf.contains(x) ==> exists|j: int| 0 <= j < it.seq().len() && *it.seq()[j] == x,
            forall|j: int| 0 <= j < it.index() ==> #[trigger] done.contains(*it.seq()[j]),
            forall|x: u64| #[trigger] done.contains(x) ==> exists|j: int| 0 <= j < it.index() && *it.seq()[j] == x,
            forall|x: u64| #[trigger] done.contains(x) ==> !ls@.contains_key(x) && !rs@.contains_key(x),
            forall|x: u64| #[trigger] done.contains(x) ==> sf.contains(x),
            paired(f0, b0) ==> {
                &&& ls@ == keep_pairs(f0, done, done)
                &&& rs@ == keep_pairs(b0, done, done)
            },
            (ls@, rs@) == self_collected(f0, b0, ord),
            ord.no_duplicates(),
            ord.to_set() == done,
    {
        proof {
            if paired(f0, b0) {
                lemma_drop_forward(f0, b0, done, done, *e);
                lemma_drop_forward(b0, f0, done, done.insert(*e), *e);
            }
        }
        let ghost fw0 = ls@;
        let ghost bw0 = rs@;
        assert(fw0.submap_of(f0));
        assert(forall|k: u64| fw0.contains_key(k) ==> f0.contains_key(k) && #[trigger] fw0[k] == f0[k]);
        assert(bw0.submap_of(b0));
        assert(forall|k: u64| bw0.contains_key(k) ==> b0.contains_key(k) && #[trigger] bw0[k] == b0[k]);
        proof {
            assert(!done.contains(*e)) by {
                if done.contains(*e) {
                    let j = choose|j: int| 0 <= j < it.index() && *it.seq()[j] == *e;
                    assert(*it.seq()[j] == *it.seq()[it.index() as int]);
                }
            }
            assert(ord.push(*e).drop_last() =~= ord);
        }
        match ls.remove(e) {
            None => {},
            Some(rbunch) => {
                rs.remove(&rbunch);
            },
        }
        assert(ls@.submap_of(f0)) by {
            assert forall|k: u64| #[trigger] ls@.contains_key(k) implies f0.contains_key(k) && ls@[k] == f0[k] by {
                assert(fw0.contains_key(k));
                assert(ls@[k] == fw0[k]);
                assert(fw0.dom().contains(k) && (f0.dom().contains(k) || !f0.dom().contains(k)));
            }
        }
        assert(rs@.submap_of(b0)) by {
            assert forall|k: u64| #[trigger] rs@.contains_key(k) implies b0.contains_key(k) && rs@[k] == b0[k] by {
                assert(bw0.contains_key(k));
                assert(rs@[k] == bw0[k]);
            }
        }
        let ghost fw1 = ls@;
        let ghost bw1 = rs@;
        assert(forall|k: u64| fw1.contains_key(k) ==> f0.contains_key(k) && #[trigger] fw1[k] == f0[k]);
        assert(forall|k: u64| bw1.contains_key(k) ==> b0.contains_key(k) && #[trigger] bw1[k] == b0[k]);
        match rs.remove(e) {
            None => {},
            Some(lbunch) => {
                ls.remove(&lbunch);
            },
        }
        assert(ls@.submap_of(f0)) by {
            assert forall|k: u64| #[trigger] ls@.contains_key(k) implies f0.contains_key(k) && ls@[k] == f0[k] by {
                assert(fw1.contains_key(k));
                assert(ls@[k] == fw1[k]);
                assert(fw1.dom().contains(k) && (f0.dom().contains(k) || !f0.dom().contains(k)));
            }
        }
        assert(rs@.submap_of(b0)) by {
            assert forall|k: u64| #[trigger] rs@.contains_key(k) implies b0.contains_key(k) && rs@[k] == b0[k] by {
                assert(bw1.contains_key(k));
                assert(rs@[k] == bw1[k]);
            }
        }
        proof {
            assert((ls@, rs@) == self_step(fw0, bw0, *e)) by {
                let st = self_step(fw0, bw0, *e);
                assert(ls@ =~= st.0);
                assert(rs@ =~= st.1);
            }
            assert(!ord.contains(*e)) by {
                if ord.contains(*e) {
                    assert(ord.to_set().contains(*e));
                }
            }
            ord.lemma_push_to_set_commute(*e);
            assert(ord.push(*e).to_set() =~= done.insert(*e));
            ord = ord.push(*e);
            done = done.insert(*e);
        }
    }
    assert(done =~= sf);
    assert(self_collected(f0, b0, ord) == self_collected(f0, b0, ord));
    self_freelist.clear();
}

} // verus!
