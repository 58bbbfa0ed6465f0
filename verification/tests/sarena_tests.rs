use gen_arena::sarena::SArena;
use gen_arena::sarena::SArenaIdx;

#[test]
fn fixed_insert_and_get() {
    let mut arena = SArena::<i32, 100>::new();
    let i1 = arena.insert(1);
    let i2 = arena.insert(2);
    assert_eq!(*arena.get(i1).unwrap(), 1);
    assert_eq!(*arena.get(i2).unwrap(), 2);
    assert_eq!(i1.index(), 0);
    assert_eq!(i2.index(), 1);
    assert_eq!(arena.num(), 2);
    assert_eq!(arena.capacity(), 100);
}

#[test]
fn fixed_remove_and_reuse() {
    let mut arena = SArena::<i32, 8>::new();
    let h0 = arena.insert(10);
    let h1 = arena.insert(11);
    arena.remove(h0);
    assert_eq!(arena.get(h0), None);
    let h2 = arena.insert(12);
    assert_eq!(h2.index(), h0.index());
    assert_eq!(h2.gen(), h0.gen() + 1);
    assert_eq!(*arena.get(h2).unwrap(), 12);
    assert_eq!(*arena.get(h1).unwrap(), 11);
    assert_eq!(arena.get(h0), None);
}

#[test]
fn fixed_try_insert_fails_when_full() {
    let mut arena = SArena::<i32, 2>::new();
    let h0 = arena.try_insert(1).unwrap();
    let _h1 = arena.try_insert(2).unwrap();
    // Full: the value comes back unclaimed.
    assert_eq!(arena.try_insert(3), Err(3));
    assert_eq!(arena.num(), 2);
    // Freeing a slot makes insertion possible again.
    arena.remove(h0);
    let h2 = arena.try_insert(4).unwrap();
    assert_eq!(h2.index(), h0.index());
    assert_eq!(*arena.get(h2).unwrap(), 4);
}

#[test]
fn fixed_get_mut_and_get_any() {
    let mut arena = SArena::<i32, 4>::new();
    let h = arena.insert(1);
    *arena.get_mut(h).unwrap() = 2;
    assert_eq!(*arena.get(h).unwrap(), 2);
    assert_eq!(*arena.get_any(h.index()).unwrap(), 2);
    *arena.get_any_mut(h.index()).unwrap() = 3;
    assert_eq!(*arena.get(h).unwrap(), 3);
    arena.remove(h);
    assert_eq!(arena.get_mut(h), None);
    assert_eq!(arena.get_any(h.index()), None);
    assert_eq!(arena.get_any_mut(h.index()), None);
}

#[test]
fn fixed_gen_tracks_removals() {
    let mut arena = SArena::<i32, 4>::new();
    let h = arena.insert(1);
    assert_eq!(arena.gen(h.index()), 0);
    arena.remove(h);
    assert_eq!(arena.gen(h.index()), 1);
}

#[test]
fn fixed_getn_preserves_order() {
    let mut arena = SArena::<i32, 16>::new();
    let i1 = arena.insert(1);
    let i2 = arena.insert(2);
    let res = arena.getn(&vec![i1, i2]);
    assert_eq!(*res[0].unwrap(), 1);
    assert_eq!(*res[1].unwrap(), 2);
}

#[test]
fn fixed_get2_mut_disjoint_slots() {
    let mut arena = SArena::<i32, 16>::new();
    let i1 = arena.insert(1);
    let i2 = arena.insert(2);
    let (c1, c2) = arena.get2_mut((i1, i2));
    *c1.unwrap() = 3;
    *c2.unwrap() = 4;
    assert_eq!(*arena.get(i1).unwrap(), 3);
    assert_eq!(*arena.get(i2).unwrap(), 4);
}

#[test]
fn fixed_get2_mut_same_slot_newer_generation_wins() {
    let mut arena = SArena::<i32, 4>::new();
    let old = arena.insert(1);
    arena.remove(old);
    let newer = arena.insert(2);
    assert_eq!(newer.index(), old.index());
    let (a, b) = arena.get2_mut((old, newer));
    assert!(a.is_none());
    *b.unwrap() = 20;
    assert_eq!(*arena.get(newer).unwrap(), 20);
}

#[test]
fn fixed_iteration() {
    let mut arena = SArena::<i32, 8>::new();
    let h0 = arena.insert(10);
    let h1 = arena.insert(11);
    let h2 = arena.insert(12);
    arena.remove(h1);

    let mut vals = Vec::new();
    let mut it = arena.iter();
    while let Some(v) = it.next(&arena) {
        vals.push(*v);
    }
    assert_eq!(vals, vec![10, 12]);

    let mut pairs = Vec::new();
    let mut en = arena.enumerate();
    while let Some((h, v)) = en.next(&arena) {
        pairs.push((h.index(), *v));
    }
    assert_eq!(pairs, vec![(h0.index(), 10), (h2.index(), 12)]);

    let mut im = arena.iter_mut();
    while let Some(v) = im.next(&mut arena) {
        *v = 0;
    }
    assert_eq!(*arena.get(h0).unwrap(), 0);
    assert_eq!(*arena.get(h2).unwrap(), 0);

    let mut em = arena.enumerate_mut();
    while let Some((h, v)) = em.next(&mut arena) {
        *v = h.index() as i32;
    }
    assert_eq!(*arena.get(h0).unwrap(), 0);
    assert_eq!(*arena.get(h2).unwrap(), 2);
}

#[test]
fn fixed_zero_capacity_rejects_everything() {
    let mut arena = SArena::<i32, 0>::new();
    assert_eq!(arena.capacity(), 0);
    assert_eq!(arena.num(), 0);
    assert_eq!(arena.try_insert(1), Err(1));
}

#[test]
fn fixed_handle_accessors_and_copy() {
    let h: SArenaIdx<u8> = SArenaIdx::new(5, 6);
    assert_eq!(h.index(), 5);
    assert_eq!(h.gen(), 6);
    let c = h;
    assert_eq!(c, h);
    assert_eq!(h.clone(), h);
}
