use gen_arena::arena::Arena;
use gen_arena::arena::ArenaIdx;

#[test]
fn test_allocation_deallocation() {
    let mut arena = Arena::new();

    let i0 = arena.insert(0);
    let i1 = arena.insert(1);

    assert_eq!(*arena.get(i0).unwrap(), 0);
    assert_eq!(*arena.get(i1).unwrap(), 1);

    arena.remove(i1);

    assert_eq!(arena.get(i1), None);

    let i2 = arena.insert(2);

    assert_eq!(*arena.get(i2).unwrap(), 2);
    assert_eq!(arena.get(i1), None);

    let mut it = arena.iter();
    while let Some((index, val)) = it.next(&arena) {
        println!("{}, {}", index.index(), val);
    }
}

#[test]
fn insert_then_get_round_trip() {
    let mut arena = Arena::new();
    let ha = arena.insert(String::from("alpha"));
    let hb = arena.insert(String::from("beta"));
    assert_eq!(arena.get(ha).unwrap(), "alpha");
    assert_eq!(arena.get(hb).unwrap(), "beta");
}

#[test]
fn tombstone_after_remove() {
    let mut arena = Arena::new();
    let h = arena.insert(7);
    arena.remove(h);
    assert_eq!(arena.get(h), None);
    // Later insertions never resurrect the old handle.
    let h2 = arena.insert(8);
    assert_eq!(arena.get(h), None);
    assert_ne!(h2.gen(), h.gen());
    let h3 = arena.insert(9);
    assert_eq!(arena.get(h), None);
    assert_eq!(*arena.get(h2).unwrap(), 8);
    assert_eq!(*arena.get(h3).unwrap(), 9);
}

#[test]
fn freed_slot_reused_before_growth() {
    let mut arena = Arena::new();
    let h0 = arena.insert(10);
    let h1 = arena.insert(11);
    arena.remove(h0);
    let h2 = arena.insert(12);
    // The freed slot is claimed again, under a strictly greater generation.
    assert_eq!(h2.index(), h0.index());
    assert!(h2.gen() > h0.gen());
    assert_eq!(h2.gen(), h0.gen() + 1);
    assert_eq!(*arena.get(h2).unwrap(), 12);
    assert_eq!(*arena.get(h1).unwrap(), 11);
}

#[test]
fn num_counts_live_entries() {
    let mut arena = Arena::new();
    assert_eq!(arena.num(), 0);
    let h0 = arena.insert(1);
    let h1 = arena.insert(2);
    let h2 = arena.insert(3);
    assert_eq!(arena.num(), 3);
    arena.remove(h1);
    assert_eq!(arena.num(), 2);
    arena.remove(h1); // stale: removes nothing
    assert_eq!(arena.num(), 2);
    arena.remove(h0);
    arena.remove(h2);
    assert_eq!(arena.num(), 0);
}

#[test]
fn remove_validates_generation() {
    let mut arena = Arena::new();
    let h0 = arena.insert(1);
    arena.remove(h0);
    let h1 = arena.insert(2);
    assert_eq!(h1.index(), h0.index());
    // Removing through the stale handle must not evict the new occupant.
    arena.remove(h0);
    assert_eq!(*arena.get(h1).unwrap(), 2);
    assert_eq!(arena.num(), 1);
}

#[test]
fn get2_mut_disjoint_slots() {
    let mut arena = Arena::new();
    let i1 = arena.insert(1);
    let i2 = arena.insert(2);

    let (c1, c2) = arena.get2_mut((i1, i2));

    *c1.unwrap() = 3;
    *c2.unwrap() = 4;

    assert_eq!(*arena.get(i1).unwrap(), 3);
    assert_eq!(*arena.get(i2).unwrap(), 4);

    // The same holds with the higher slot first.
    let (c2, c1) = arena.get2_mut((i2, i1));
    *c1.unwrap() = 5;
    *c2.unwrap() = 6;
    assert_eq!(*arena.get(i1).unwrap(), 5);
    assert_eq!(*arena.get(i2).unwrap(), 6);
}

#[test]
fn get2_mut_same_slot_newer_generation_wins() {
    let mut arena = Arena::new();
    let old = arena.insert(1);
    arena.remove(old);
    let newer = arena.insert(2);
    assert_eq!(newer.index(), old.index());

    let (a, b) = arena.get2_mut((old, newer));
    assert!(a.is_none());
    *b.unwrap() = 20;
    assert_eq!(*arena.get(newer).unwrap(), 20);

    let (a, b) = arena.get2_mut((newer, old));
    assert!(b.is_none());
    *a.unwrap() = 30;
    assert_eq!(*arena.get(newer).unwrap(), 30);
}

#[test]
fn clear_invalidates_every_handle() {
    let mut arena = Arena::new();
    let h0 = arena.insert(1);
    let h1 = arena.insert(2);
    let h2 = arena.insert(3);
    arena.remove(h1);
    arena.clear();
    assert_eq!(arena.get(h0), None);
    assert_eq!(arena.get(h1), None);
    assert_eq!(arena.get(h2), None);
    assert_eq!(arena.num(), 0);
    // Live slots had their generation bumped; already-free slots kept theirs.
    assert_eq!(arena.gen(h0.index()), h0.gen() + 1);
    assert_eq!(arena.gen(h1.index()), h1.gen() + 1);
    assert_eq!(arena.gen(h2.index()), h2.gen() + 1);
    // The free list is rebuilt, so insertion reuses the cleared slots.
    let h3 = arena.insert(4);
    assert!(h3.index() < 3);
    assert_eq!(*arena.get(h3).unwrap(), 4);
}

#[test]
fn end_to_end_scenario() {
    let mut arena = Arena::new();
    let h0 = arena.insert(0);
    let h1 = arena.insert(1);
    assert_eq!(h0.index(), 0);
    assert_eq!(h0.gen(), 0);
    assert_eq!(h1.index(), 1);
    assert_eq!(h1.gen(), 0);
    arena.remove(h1);
    assert_eq!(arena.get(h1), None);
    let h2 = arena.insert(2);
    assert_eq!(h2.index(), 1);
    assert_eq!(h2.gen(), 1);
    assert_eq!(*arena.get(h2).unwrap(), 2);
    assert_eq!(arena.get(h1), None);
}

#[test]
fn get_any_ignores_generation() {
    let mut arena = Arena::new();
    let h0 = arena.insert(5);
    arena.remove(h0);
    let h1 = arena.insert(6);
    assert_eq!(h1.index(), h0.index());
    assert_eq!(*arena.get_any(h0.index()).unwrap(), 6);
    *arena.get_any_mut(h0.index()).unwrap() = 7;
    assert_eq!(*arena.get(h1).unwrap(), 7);
    arena.remove(h1);
    assert_eq!(arena.get_any(h0.index()), None);
    assert_eq!(arena.get_any_mut(h0.index()), None);
}

#[test]
fn getn_preserves_order() {
    let mut arena = Arena::new();
    let i1 = arena.insert(1);
    let i2 = arena.insert(2);

    let res = arena.getn(&vec![i1, i2]);

    assert_eq!(*res[0].unwrap(), 1);
    assert_eq!(*res[1].unwrap(), 2);

    arena.remove(i1);
    let res = arena.getn(&vec![i1, i2, i2]);
    assert_eq!(res[0], None);
    assert_eq!(*res[1].unwrap(), 2);
    assert_eq!(*res[2].unwrap(), 2);
}

#[test]
fn getn_mut_disjoint_slots() {
    let mut arena = Arena::new();
    let h0 = arena.insert(1);
    let h1 = arena.insert(2);
    let h2 = arena.insert(3);
    arena.remove(h1);

    let refs = arena.getn_mut(&vec![h2, h1, h0]).unwrap();
    let mut it = refs.into_iter();
    let r2 = it.next().unwrap();
    let r1 = it.next().unwrap();
    let r0 = it.next().unwrap();
    assert!(r1.is_none());
    *r2.unwrap() = 30;
    *r0.unwrap() = 10;
    assert_eq!(*arena.get(h0).unwrap(), 10);
    assert_eq!(*arena.get(h2).unwrap(), 30);
    assert_eq!(arena.get(h1), None);
}

#[test]
fn getn_mut_rejects_aliasing() {
    let mut arena = Arena::new();
    let h0 = arena.insert(1);
    arena.remove(h0);
    let h1 = arena.insert(2);
    // Same slot under two generations: the whole request is refused.
    assert!(arena.getn_mut(&vec![h0, h1]).is_none());
    assert_eq!(*arena.get(h1).unwrap(), 2);
    // Without aliasing the request goes through.
    let refs = arena.getn_mut(&vec![h1]).unwrap();
    assert_eq!(refs.len(), 1);
}

#[test]
fn get_mut_updates_in_place() {
    let mut arena = Arena::new();
    let i1 = arena.insert(1);
    assert_eq!(*arena.get(i1).unwrap(), 1);
    *arena.get_mut(i1).unwrap() = 2;
    assert_eq!(*arena.get(i1).unwrap(), 2);
    arena.remove(i1);
    assert_eq!(arena.get_mut(i1), None);
}

#[test]
fn gen_reports_slot_generation() {
    let mut arena = Arena::new();
    let h = arena.insert(1);
    assert_eq!(arena.gen(h.index()), 0);
    arena.remove(h);
    assert_eq!(arena.gen(h.index()), 1);
    let h2 = arena.insert(2);
    assert_eq!(arena.gen(h2.index()), 1);
}

#[test]
fn iterators_skip_free_slots_in_order() {
    let mut arena = Arena::new();
    let h0 = arena.insert(10);
    let h1 = arena.insert(11);
    let h2 = arena.insert(12);
    arena.remove(h1);

    let mut keys = Vec::new();
    let mut it = arena.iter();
    while let Some((h, v)) = it.next(&arena) {
        keys.push((h.index(), h.gen(), *v));
    }
    assert_eq!(keys, vec![(h0.index(), 0, 10), (h2.index(), 0, 12)]);

    let mut vals = Vec::new();
    let mut vi = arena.values();
    while let Some(v) = vi.next(&arena) {
        vals.push(*v);
    }
    assert_eq!(vals, vec![10, 12]);

    let mut ks = Vec::new();
    let mut ki = arena.keys();
    while let Some(h) = ki.next(&arena) {
        ks.push(h.index());
    }
    assert_eq!(ks, vec![0, 2]);
}

#[test]
fn keys_yield_live_handles() {
    let mut arena = Arena::new();
    let i1 = arena.insert(1);
    let i2 = arena.insert(2);
    let mut ki = arena.keys();
    let k0 = ki.next(&arena).unwrap();
    let k1 = ki.next(&arena).unwrap();
    assert!(ki.next(&arena).is_none());
    assert_eq!(k0, ArenaIdx::new(0, 0));
    assert_eq!(k1, ArenaIdx::new(1, 0));
    assert_eq!(k0, i1);
    assert_eq!(k1, i2);
}

#[test]
fn mutable_iteration_writes_back() {
    let mut arena = Arena::new();
    let i1 = arena.insert(1);
    let i2 = arena.insert(2);

    let mut vm = arena.values_mut();
    while let Some(v) = vm.next(&mut arena) {
        *v = 0;
    }
    assert_eq!(*arena.get(i1).unwrap(), 0);
    assert_eq!(*arena.get(i2).unwrap(), 0);

    let mut im = arena.iter_mut();
    while let Some((index, val)) = im.next(&mut arena) {
        *val = index.index();
    }
    assert_eq!(*arena.get(i1).unwrap(), 0);
    assert_eq!(*arena.get(i2).unwrap(), 1);
}

#[test]
fn capacity_and_reserve() {
    let arena = Arena::<i32>::with_capacity(10);
    assert!(arena.capacity() >= 10);
    assert_eq!(arena.num(), 0);

    let mut arena = Arena::new();
    let h = arena.insert(1);
    arena.reserve(100);
    assert!(arena.capacity() >= 101);
    assert_eq!(*arena.get(h).unwrap(), 1);
    assert_eq!(arena.num(), 1);
}

#[test]
fn try_insert_reports_handle() {
    let mut arena = Arena::new();
    let h = arena.try_insert(41).unwrap();
    assert_eq!(*arena.get(h).unwrap(), 41);
    assert_eq!(h.index(), 0);
    assert_eq!(h.gen(), 0);
}

#[test]
fn handle_accessors_and_copy() {
    let h: ArenaIdx<u8> = ArenaIdx::new(3, 4);
    assert_eq!(h.index(), 3);
    assert_eq!(h.gen(), 4);
    let c = h;
    assert_eq!(c, h);
    assert_eq!(h.clone(), h);
}
