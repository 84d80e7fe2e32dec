use atree::{Arena, Error, Handle};

#[test]
fn new_arena_is_empty() {
    let arena: Arena<u32> = Arena::new();
    assert_eq!(arena.len(), 0);
    assert!(arena.is_empty());
    assert_eq!(arena.capacity(), 0);
}

#[test]
fn first_insert_grows_by_one_slot() {
    let mut arena = Arena::new();
    let h = arena.insert("a");
    assert_eq!(h, Handle(0));
    assert_eq!(arena.len(), 1);
    assert_eq!(arena.capacity(), 1);
    assert_eq!(arena.get(h), Some(&"a"));
}

#[test]
fn growth_doubles_the_store() {
    let mut arena = Arena::new();
    let mut caps = Vec::new();
    for i in 0..5u32 {
        arena.insert(i);
        caps.push(arena.capacity());
    }
    assert_eq!(caps, vec![1, 2, 4, 4, 8]);
    assert_eq!(arena.len(), 5);
}

#[test]
fn count_tracks_inserts_and_removes() {
    let mut arena = Arena::new();
    let mut handles = Vec::new();
    for i in 0..10u32 {
        handles.push(arena.insert(i));
        assert!(arena.len() <= arena.capacity());
    }
    assert_eq!(arena.len(), 10);
    for (k, h) in handles.iter().enumerate().filter(|(k, _)| k % 3 == 0) {
        assert_eq!(arena.remove(*h), Some(k as u32));
        assert!(arena.len() <= arena.capacity());
    }
    assert_eq!(arena.len(), 6);
    let occupied = (0..arena.capacity())
        .filter(|i| arena.get(Handle(*i)).is_some())
        .count();
    assert_eq!(occupied, arena.len());
}

#[test]
fn freed_slots_are_reused_without_growth() {
    let mut arena = Arena::new();
    let handles: Vec<Handle> = (0..8u32).map(|i| arena.insert(i)).collect();
    let cap = arena.capacity();
    for h in [5, 1, 7, 0, 3, 6, 2, 4] {
        arena.remove(handles[h]);
    }
    assert!(arena.is_empty());
    let again: Vec<Handle> = (0..8u32).map(|i| arena.insert(i + 100)).collect();
    assert_eq!(arena.capacity(), cap);
    assert_eq!(arena.len(), 8);
    for h in again {
        assert!(handles.contains(&h));
    }
}

#[test]
fn most_recently_freed_slot_is_reused_first() {
    let mut arena = Arena::new();
    let a = arena.insert('a');
    let b = arena.insert('b');
    let c = arena.insert('c');
    arena.remove(a);
    arena.remove(c);
    assert_eq!(arena.insert('x'), c);
    assert_eq!(arena.insert('y'), a);
    assert_eq!(arena.get(b), Some(&'b'));
}

#[test]
fn released_slot_reads_as_absent() {
    let mut arena = Arena::new();
    let a = arena.insert(String::from("kept"));
    let b = arena.insert(String::from("gone"));
    assert_eq!(arena.remove(b), Some(String::from("gone")));
    assert_eq!(arena.get(b), None);
    assert!(arena.get_mut(b).is_none());
    assert_eq!(arena.get(a), Some(&String::from("kept")));
}

#[test]
fn removing_twice_or_out_of_range_changes_nothing() {
    let mut arena = Arena::new();
    let a = arena.insert(1u8);
    assert_eq!(arena.remove(a), Some(1));
    assert_eq!(arena.remove(a), None);
    assert_eq!(arena.remove(Handle(40)), None);
    assert_eq!(arena.len(), 0);
    assert_eq!(arena.capacity(), 1);
}

#[test]
fn release_reports_a_free_slot() {
    let mut arena = Arena::new();
    let a = arena.insert(9i64);
    assert_eq!(arena.release(a), Ok(9));
    assert_eq!(arena.release(a), Err(Error::NotAFreeNode));
    assert_eq!(arena.release(Handle(3)), Err(Error::NotAFreeNode));
}

#[test]
fn get_mut_changes_the_value_in_place() {
    let mut arena = Arena::new();
    let a = arena.insert(10u32);
    let b = arena.insert(20u32);
    *arena.get_mut(b).unwrap() += 5;
    assert_eq!(arena.get(b), Some(&25));
    assert_eq!(arena.get(a), Some(&10));
    assert!(arena.get_mut(Handle(7)).is_none());
}
