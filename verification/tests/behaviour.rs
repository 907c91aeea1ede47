use tables::{BreakContinue, CanView, End, Handle, Table, TablePlan};

fn handles_of<A>(items: Vec<(Handle<A>, &A)>) -> Vec<Handle<A>> {
    items.into_iter().map(|(h, _)| h).collect()
}

#[test]
fn store_then_seek_reads_back_each_item() {
    let mut t: Table<u64> = Table::new();
    let a = t.store(10);
    let b = t.store(20);
    assert_eq!(t.seek(a), Some(&10));
    assert_eq!(t.seek(b), Some(&20));
    assert!(a != b);
}

#[test]
fn free_returns_the_item_once() {
    let mut t: Table<&'static str> = Table::new();
    let a = t.store("x");
    let b = t.store("y");
    assert_eq!(t.free(a), Some("x"));
    assert_eq!(t.free(a), None);
    assert_eq!(t.seek(a), None);
    assert_eq!(t.seek(b), Some(&"y"));
}

#[test]
fn seek_mut_on_freed_handle_is_none() {
    let mut t: Table<u64> = Table::new();
    let a = t.store(1);
    t.free(a);
    assert!(t.seek_mut(a).is_none());
}

#[test]
fn seek_mut_deref_and_set() {
    let mut t: Table<u64> = Table::new();
    let a = t.store(1);
    {
        let mut r = t.seek_mut(a).unwrap();
        assert_eq!(*r.deref(), 1);
        r.set(5);
        assert_eq!(*r.deref(), 5);
    }
    assert_eq!(t.seek(a), Some(&5));
}

#[test]
fn sort_breaks_ties_by_insertion_order() {
    let mut t: Table<(u64, &'static str)> = Table::new();
    let by_first = t.create_sort(|_, v: &(u64, &'static str)| v.0);
    let a = t.store((2, "a"));
    let b = t.store((1, "b"));
    let c = t.store((2, "c"));
    let d = t.store((1, "d"));
    assert_eq!(handles_of(t.resolve(by_first.asc())), vec![b, d, a, c]);
    assert_eq!(handles_of(t.resolve(by_first.desc())), vec![c, a, d, b]);
}

#[test]
fn sort_follows_changes_made_through_seek_mut() {
    let mut t: Table<u64> = Table::new();
    let s = t.create_sort(|_, v: &u64| *v);
    let a = t.store(3);
    let b = t.store(1);
    let c = t.store(2);
    assert_eq!(handles_of(t.resolve(s.asc())), vec![b, c, a]);
    t.seek_mut(a).unwrap().set(0);
    assert_eq!(handles_of(t.resolve(s.asc())), vec![a, b, c]);
    t.free(b);
    assert_eq!(handles_of(t.resolve(s.asc())), vec![a, c]);
}

#[test]
fn sort_created_late_holds_existing_items() {
    let mut t: Table<u64> = Table::new();
    let a = t.store(7);
    let b = t.store(3);
    let s = t.create_sort(|_, v: &u64| *v);
    assert_eq!(handles_of(t.resolve(s.asc())), vec![b, a]);
    let c = t.store(5);
    assert_eq!(handles_of(t.resolve(s.asc())), vec![b, c, a]);
}

#[test]
fn mutate_stops_when_the_callback_breaks() {
    let mut t: Table<u64> = Table::new();
    let s = t.create_sort(|_, v: &u64| *v);
    let a = t.store(1);
    let b = t.store(2);
    let c = t.store(3);
    t.mutate(s.asc(), |_, v: &mut u64, _| {
        *v = *v * 10;
        if *v >= 20 { BreakContinue::Break } else { BreakContinue::Continue }
    });
    assert_eq!(t.seek(a), Some(&10));
    assert_eq!(t.seek(b), Some(&20));
    assert_eq!(t.seek(c), Some(&3));
    // The item whose call asked to stop keeps its old place in the index.
    assert_eq!(handles_of(t.resolve(s.asc())), vec![b, c, a]);
}

#[test]
fn mutate_carries_out_the_plan() {
    let mut t: Table<u64> = Table::new();
    let s = t.create_sort(|_, v: &u64| *v);
    let a = t.store(1);
    let b = t.store(2);
    t.mutate(s.desc(), |h, v: &mut u64, plan: &mut TablePlan<u64>| {
        plan.store(*v + 100);
        if *v == 1 {
            plan.free(h);
        }
    });
    assert_eq!(t.seek(a), None);
    assert_eq!(t.seek(b), Some(&2));
    let values: Vec<u64> = t.resolve(s.asc()).into_iter().map(|(_, v)| *v).collect();
    assert_eq!(values, vec![2, 101, 102]);
}

#[test]
fn plan_store_and_runs_its_callback_on_the_new_item() {
    let mut t: Table<u64> = Table::new();
    let s = t.create_sort(|_, v: &u64| *v);
    let a = t.store(5);
    t.mutate(s.asc(), |_, _v: &mut u64, plan: &mut TablePlan<u64>| {
        plan.store_and(1, |_, fresh: &mut u64| *fresh = 50);
    });
    let values: Vec<u64> = t.resolve(s.asc()).into_iter().map(|(_, v)| *v).collect();
    assert_eq!(values, vec![5, 50]);
    assert_eq!(t.seek(a), Some(&5));
}

#[test]
fn plan_free_and_is_kept_but_never_carried_out() {
    let mut t: Table<u64> = Table::new();
    let s = t.create_sort(|_, v: &u64| *v);
    let a = t.store(5);
    let b = t.store(6);
    t.mutate(s.asc(), move |h, _v: &mut u64, plan: &mut TablePlan<u64>| {
        if h == a {
            plan.free_and(b, |_gone: u64| panic!("a free with a callback is never carried out"));
        }
    });
    assert_eq!(t.seek(b), Some(&6));
    assert_eq!(t.seek(a), Some(&5));
}

#[test]
fn break_continue_and_unit_steer_loops() {
    assert!(BreakContinue::Break.breaks_loop());
    assert!(!BreakContinue::Continue.breaks_loop());
    assert!(!().breaks_loop());
    assert!(!().to_break_continue().breaks_loop());
    assert!(BreakContinue::Break.to_break_continue().breaks_loop());
}

#[test]
fn relation_between_two_tables() {
    let mut people: Table<&'static str> = Table::new();
    let mut pets: Table<&'static str> = Table::new();
    let ann = people.store("Ann");
    let bob = people.store("Bob");
    let rex = pets.store("Rex");
    let tom = pets.store("Tom");
    let mut owns = people.one_to_one(&mut pets);
    {
        let mut m = owns.reify_mut(&mut people, &mut pets);
        m.map(ann, rex);
        m.map(bob, tom);
        assert!(m.has(ann, rex));
        assert!(!m.has(ann, tom));
    }
    {
        let v = owns.reify(&people, &pets);
        assert_eq!(v.from(ann), Some(rex));
        assert_eq!(v.to(tom), Some(bob));
        assert!(v.has_from(bob));
        assert!(v.has_to(rex));
        assert_eq!(v.froms(ann), vec![rex]);
        assert_eq!(v.tos(rex), vec![ann]);
    }
    owns.mutate_from(&mut people, &mut pets, vec![ann, bob], |_, pet: &mut &'static str| {
        *pet = "Fido";
    });
    assert_eq!(pets.seek(rex), Some(&"Fido"));
    assert_eq!(pets.seek(tom), Some(&"Fido"));
    owns.mutate_to(&mut people, &mut pets, vec![tom], |_, person: &mut &'static str| {
        *person = "Robert";
    });
    assert_eq!(people.seek(bob), Some(&"Robert"));
    assert_eq!(people.seek(ann), Some(&"Ann"));
    pets.free(rex);
    {
        let v = owns.reify(&people, &pets);
        assert_eq!(v.from(ann), None);
        assert!(!v.has_from(ann));
        assert_eq!(v.froms(ann), vec![]);
        assert_eq!(v.from(bob), Some(tom));
    }
    {
        let mut m = owns.reify_mut(&mut people, &mut pets);
        m.gc();
        assert_eq!(m.from(ann), None);
        assert_eq!(m.from(bob), Some(tom));
        assert_eq!(m.to(tom), Some(bob));
    }
}

#[test]
fn unmap_from_and_unmap_to_undo_pairs() {
    let mut t: Table<u64> = Table::new();
    let a = t.store(1);
    let b = t.store(2);
    let c = t.store(3);
    let d = t.store(4);
    let mut rel = t.one_to_one_self();
    {
        let mut m = rel.reify_mut(&mut t);
        m.map(a, b);
        m.map(c, d);
        m.unmap_from(a);
        assert_eq!(m.from(a), None);
        assert_eq!(m.to(b), None);
        m.unmap_to(d);
        assert_eq!(m.from(c), None);
        m.map(c, d);
        m.unmap_from(c);
        assert_eq!(m.to(d), None);
    }
    let v = rel.reify(&t);
    assert!(!v.has(c, d));
}

#[test]
fn freed_handles_are_never_read_from_a_relation() {
    let mut t: Table<u64> = Table::new();
    let a = t.store(1);
    let b = t.store(2);
    let mut rel = t.one_to_one_self();
    rel.reify_mut(&mut t).map(a, b);
    t.free(a);
    let v = rel.reify(&t);
    assert_eq!(v.to(b), None);
    assert!(!v.has(a, b));
    assert!(!v.has_to(b));
}

#[test]
fn plan_frees_are_seen_by_relations() {
    let mut t: Table<u64> = Table::new();
    let s = t.create_sort(|_, v: &u64| *v);
    let a = t.store(1);
    let b = t.store(2);
    let mut rel = t.one_to_one_self();
    rel.reify_mut(&mut t).map(a, b);
    t.mutate(s.asc(), move |h, _v: &mut u64, plan: &mut TablePlan<u64>| {
        if h == b {
            plan.free(b);
        }
    });
    assert_eq!(t.seek(b), None);
    assert_eq!(t.seek(a), Some(&1));
    let v = rel.reify(&t);
    assert_eq!(v.from(a), None);
    assert!(!v.has(a, b));
    assert!(!v.has_from(a));
}

#[test]
fn unmap_relates_like_map() {
    let mut t: Table<u64> = Table::new();
    let a = t.store(1);
    let b = t.store(2);
    let mut rel = t.one_to_one_self();
    {
        let mut m = rel.reify_mut(&mut t);
        m.unmap(a, b);
        assert!(m.has(a, b));
        assert_eq!(m.from(a), Some(b));
        assert_eq!(m.to(b), Some(a));
    }
}

#[test]
fn mutate_to_runs_once_per_listing_on_the_latest_value() {
    let mut t: Table<u64> = Table::new();
    let a = t.store(1);
    let b = t.store(10);
    let mut rel = t.one_to_one_self();
    rel.reify_mut(&mut t).map(a, b);
    rel.mutate_to(&mut t, vec![b, b], |_, v: &mut u64| {
        *v = *v * 3;
    });
    assert_eq!(t.seek(a), Some(&9));
    assert_eq!(t.seek(b), Some(&10));
    rel.mutate_from(&mut t, vec![a], |_, v: &mut u64| {
        *v = *v + 5;
    });
    assert_eq!(t.seek(b), Some(&15));
    assert_eq!(t.seek(a), Some(&9));
}

#[test]
fn equal_keys_keep_insertion_order_across_updates() {
    let mut t: Table<&'static str> = Table::new();
    let s = t.create_sort(|_, _: &&'static str| 0u8);
    let h0 = t.store("a");
    let h1 = t.store("b");
    let h2 = t.store("c");
    t.seek_mut(h0).unwrap().set("z");
    assert_eq!(handles_of(t.resolve(s.asc())), vec![h0, h1, h2]);
    assert_eq!(t.seek(h0), Some(&"z"));
}

#[test]
fn gc_drops_only_the_entries_of_freed_handles() {
    let mut people: Table<&'static str> = Table::new();
    let mut pets: Table<&'static str> = Table::new();
    let ann = people.store("Ann");
    let rex = pets.store("Rex");
    let tom = pets.store("Tom");
    let mut owns = people.one_to_one(&mut pets);
    {
        let mut m = owns.reify_mut(&mut people, &mut pets);
        m.map(ann, rex);
        m.map(ann, tom);
    }
    people.free(ann);
    {
        let mut m = owns.reify_mut(&mut people, &mut pets);
        assert_eq!(m.to(rex), None);
        m.gc();
        assert_eq!(m.from(ann), None);
        assert_eq!(m.to(tom), None);
        assert_eq!(m.to(rex), Some(ann));
    }
}

#[test]
fn relation_mutate_calls_in_list_order_and_reindexes() {
    let mut t: Table<u64> = Table::new();
    let s = t.create_sort(|_, v: &u64| *v);
    let a = t.store(1);
    let b = t.store(2);
    let c = t.store(3);
    let d = t.store(4);
    let mut rel = t.one_to_one_self();
    {
        let mut m = rel.reify_mut(&mut t);
        m.map(a, c);
        m.map(b, d);
    }
    let calls: std::cell::RefCell<Vec<Handle<u64>>> = std::cell::RefCell::new(Vec::new());
    rel.mutate_to(&mut t, vec![d, c], |h, v: &mut u64| {
        calls.borrow_mut().push(h);
        *v = *v + 10;
        BreakContinue::Break
    });
    assert_eq!(calls.into_inner(), vec![b, a]);
    assert_eq!(t.seek(a), Some(&11));
    assert_eq!(t.seek(b), Some(&12));
    assert_eq!(handles_of(t.resolve(s.asc())), vec![c, d, a, b]);
}
