use protohackers::arena::{Arena, Index};

#[test]
fn user_data_packs_version_high_and_slot_low() {
    let index = Index { idx: 7, version: 3 };
    assert_eq!(index.into_user_data(), (3u64 << 32) | 7);
    assert_eq!(Index { idx: 0xFFFF_FFFF, version: 0xFFFF_FFFF }.into_user_data(), u64::MAX);
    assert_eq!(Index { idx: 0, version: 0 }.into_user_data(), 0);
}

#[test]
fn user_data_unpacks() {
    assert_eq!(Index::from_user_data(0x0000_0002_0000_0009), Index { idx: 9, version: 2 });
    assert_eq!(Index::from_user_data(u64::MAX), Index { idx: u32::MAX, version: u32::MAX });
}

#[test]
fn user_data_roundtrip() {
    for (idx, version) in [(0u32, 0u32), (1, 0), (0, 1), (12345, 678), (u32::MAX, 1), (1, u32::MAX)] {
        let index = Index { idx, version };
        assert_eq!(Index::from_user_data(index.into_user_data()), index);
    }
    for word in [0u64, 1, 0x1_0000_0000, 0xDEAD_BEEF_CAFE_F00D, u64::MAX] {
        assert_eq!(Index::from_user_data(word).into_user_data(), word);
    }
}

#[test]
fn insert_then_get() {
    let mut arena: Arena<&str> = Arena::new();
    let a = arena.insert("a");
    let b = arena.insert("b");
    assert_eq!(a, Index { idx: 0, version: 0 });
    assert_eq!(b, Index { idx: 1, version: 0 });
    assert_eq!(arena.get(a), Some(&"a"));
    assert_eq!(arena.get(b), Some(&"b"));
    assert_eq!(arena.get(Index { idx: 2, version: 0 }), None);
}

#[test]
fn remove_returns_value_once() {
    let mut arena: Arena<u32> = Arena::new();
    let a = arena.insert(10);
    assert_eq!(arena.remove(a), Some(10));
    assert_eq!(arena.get(a), None);
    assert_eq!(arena.remove(a), None);
    assert_eq!(arena.remove(Index { idx: 5, version: 0 }), None);
}

#[test]
fn stale_index_is_refused_after_reuse() {
    let mut arena: Arena<u32> = Arena::new();
    let a = arena.insert(1);
    assert_eq!(arena.remove(a), Some(1));
    let b = arena.insert(2);
    assert_eq!(b, Index { idx: 0, version: 1 });
    assert_eq!(arena.get(a), None);
    assert_eq!(arena.get_mut(a), None);
    assert_eq!(arena.remove(a), None);
    assert_eq!(arena.get(b), Some(&2));
}

#[test]
fn freed_slots_are_reused_last_freed_first() {
    let mut arena: Arena<u32> = Arena::new();
    let a = arena.insert(1);
    let b = arena.insert(2);
    let c = arena.insert(3);
    assert_eq!(arena.remove(a), Some(1));
    assert_eq!(arena.remove(c), Some(3));
    let d = arena.insert(4);
    let e = arena.insert(5);
    let f = arena.insert(6);
    assert_eq!(d, Index { idx: 2, version: 1 });
    assert_eq!(e, Index { idx: 0, version: 1 });
    assert_eq!(f, Index { idx: 3, version: 0 });
    assert_eq!(arena.get(b), Some(&2));
    assert_eq!(arena.get(d), Some(&4));
    assert_eq!(arena.get(e), Some(&5));
    assert_eq!(arena.get(f), Some(&6));
}

#[test]
fn get_mut_writes_through() {
    let mut arena: Arena<Vec<u8>> = Arena::new();
    let a = arena.insert(vec![1, 2]);
    match arena.get_mut(a) {
        Some(v) => v.push(3),
        None => panic!("missing value"),
    }
    assert_eq!(arena.get(a), Some(&vec![1, 2, 3]));
    assert_eq!(arena.get_mut(Index { idx: 0, version: 9 }), None);
}

#[test]
fn wrong_version_is_refused() {
    let mut arena: Arena<u32> = Arena::new();
    let a = arena.insert(1);
    let forged = Index { idx: a.idx, version: a.version + 1 };
    assert_eq!(arena.get(forged), None);
    assert_eq!(arena.remove(forged), None);
    assert_eq!(arena.get(a), Some(&1));
}

#[test]
fn remove_of_vacant_slot_changes_nothing() {
    let mut arena: Arena<u32> = Arena::new();
    let i0 = arena.insert(1);
    assert_eq!(arena.remove(i0), Some(1));
    assert_eq!(arena.remove(Index { idx: 0, version: 1 }), None);
    assert_eq!(arena.insert(2), Index { idx: 0, version: 1 });
    assert_eq!(arena.insert(3), Index { idx: 1, version: 0 });
    assert_eq!(arena.get(Index { idx: 0, version: 1 }), Some(&2));
    assert_eq!(arena.get(Index { idx: 1, version: 0 }), Some(&3));
}

#[test]
fn remove_of_vacant_head_keeps_free_list() {
    let mut arena: Arena<u32> = Arena::new();
    let a = arena.insert(1);
    let b = arena.insert(2);
    assert_eq!(arena.remove(a), Some(1));
    assert_eq!(arena.remove(b), Some(2));
    // both slots are vacant, at version 1; removing them again finds nothing
    assert_eq!(arena.remove(Index { idx: 1, version: 1 }), None);
    assert_eq!(arena.remove(Index { idx: 0, version: 1 }), None);
    assert_eq!(arena.insert(3), Index { idx: 1, version: 1 });
    assert_eq!(arena.insert(4), Index { idx: 0, version: 1 });
    assert_eq!(arena.insert(5), Index { idx: 2, version: 0 });
}

#[test]
fn stale_index_stays_dead_over_many_reuses() {
    let mut arena: Arena<u32> = Arena::new();
    let first = arena.insert(0);
    assert_eq!(arena.remove(first), Some(0));
    let mut current = first;
    for n in 1..100u32 {
        current = arena.insert(n);
        assert_eq!(current, Index { idx: 0, version: n });
        assert_eq!(arena.get(first), None);
        assert_eq!(arena.remove(current), Some(n));
    }
    assert_eq!(arena.get(current), None);
    assert_eq!(arena.insert(7), Index { idx: 0, version: 100 });
}
