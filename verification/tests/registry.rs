use weakset::Arena;
use weakset::Entry;
use weakset::Fault;
use weakset::WeakSet;

fn collect(a: &Arena<u64>, r: usize) -> Vec<u64> {
    let mut out: Vec<u64> = Vec::new();
    let mut it = a.iterate(r);
    while let Some(h) = it.next() {
        out.push(*a.value(h));
    }
    out
}

#[test]
fn membership_symmetry_after_insert_and_destroy() {
    let mut a: Arena<u32> = Arena::new();
    let s = a.place_set(WeakSet::new());
    let e1 = a.place_entry(Entry::new(1));
    let e2 = a.place_entry(Entry::new(2));
    assert!(!a.contains(s, e1));
    assert_eq!(a.membership(e1), None);
    a.insert(s, e1).unwrap();
    assert!(a.contains(s, e1));
    assert_eq!(a.membership(e1), Some(s));
    assert!(!a.contains(s, e2));
    assert_eq!(a.membership(e2), None);
    a.insert(s, e2).unwrap();
    assert!(a.contains(s, e2));
    assert_eq!(a.membership(e2), Some(s));
    a.release_entry(e1);
    assert!(!a.is_entry_live(e1));
    assert!(!a.contains(s, e1));
    assert!(a.contains(s, e2));
    assert_eq!(a.membership(e2), Some(s));
}

#[test]
fn registry_first_destruction_clears_back_references() {
    let mut a: Arena<u32> = Arena::new();
    let s = a.place_set(WeakSet::new());
    let e1 = a.place_entry(Entry::new(10));
    let e2 = a.place_entry(Entry::new(20));
    a.insert(s, e1).unwrap();
    a.insert(s, e2).unwrap();
    a.destroy_set(s);
    assert!(!a.is_set_live(s));
    assert!(a.is_entry_live(e1));
    assert!(a.is_entry_live(e2));
    assert_eq!(a.membership(e1), None);
    assert_eq!(a.membership(e2), None);
    assert_eq!(*a.value(e1), 10);
    assert_eq!(*a.value(e2), 20);
}

#[test]
fn entry_first_destruction_removes_from_member_list() {
    let mut a: Arena<u64> = Arena::new();
    let s = a.place_set(WeakSet::new());
    let e1 = a.place_entry(Entry::new(1));
    let e2 = a.place_entry(Entry::new(2));
    a.insert(s, e1).unwrap();
    a.insert(s, e2).unwrap();
    a.release_entry(e1);
    assert_eq!(a.member_count(s), 1);
    assert!(!a.contains(s, e1));
    assert!(a.contains(s, e2));
    assert_eq!(collect(&a, s), vec![2]);
}

#[test]
fn double_insert_is_a_fault_and_changes_nothing() {
    let mut a: Arena<u32> = Arena::new();
    let r1 = a.place_set(WeakSet::new());
    let r2 = a.place_set(WeakSet::new());
    let e = a.place_entry(Entry::new(7));
    a.insert(r1, e).unwrap();
    assert_eq!(a.insert(r2, e), Err(Fault::AlreadyRegistered));
    assert!(a.contains(r1, e));
    assert!(!a.contains(r2, e));
    assert_eq!(a.membership(e), Some(r1));
    assert_eq!(a.insert(r1, e), Err(Fault::AlreadyRegistered));
    assert_eq!(a.member_count(r1), 1);
    assert_eq!(a.member_count(r2), 0);
}

#[test]
fn shared_entry_stays_registered_until_last_release() {
    let mut a: Arena<u64> = Arena::new();
    let r = a.place_set(WeakSet::new());
    let e = a.place_entry(Entry::new(5));
    a.share_entry(e);
    a.insert(r, e).unwrap();
    a.release_entry(e);
    assert!(a.is_entry_live(e));
    assert!(a.contains(r, e));
    assert_eq!(collect(&a, r), vec![5]);
    a.release_entry(e);
    assert!(!a.is_entry_live(e));
    assert!(!a.contains(r, e));
    assert_eq!(a.member_count(r), 0);
}

#[test]
fn end_to_end_walkthrough() {
    let mut a: Arena<u64> = Arena::new();
    let r = a.place_set(WeakSet::new());
    let ea = a.place_entry(Entry::new(42));
    let eb = a.place_entry(Entry::new(43));
    a.share_entry(eb);
    a.insert(r, ea).unwrap();
    a.insert(r, eb).unwrap();
    let mut seen = collect(&a, r);
    seen.sort();
    assert_eq!(seen, vec![42, 43]);
    a.release_entry(ea);
    assert_eq!(collect(&a, r), vec![43]);
    a.release_entry(eb);
    assert_eq!(collect(&a, r), vec![43]);
    a.release_entry(eb);
    assert_eq!(collect(&a, r), Vec::<u64>::new());
}

#[test]
fn empty_registry_iterates_empty_and_destroys_as_noop() {
    let mut a: Arena<u32> = Arena::new();
    let r = a.place_set(WeakSet::new());
    let e = a.place_entry(Entry::new(9));
    let mut it = a.iterate(r);
    assert_eq!(it.size_hint(), (0, Some(0)));
    assert_eq!(it.next(), None);
    assert_eq!(it.next(), None);
    a.destroy_set(r);
    assert!(!a.is_set_live(r));
    assert!(a.is_entry_live(e));
    assert_eq!(a.membership(e), None);
    assert_eq!(*a.value(e), 9);
}

#[test]
fn entry_can_join_another_registry_after_its_first_dies() {
    let mut a: Arena<u32> = Arena::new();
    let r1 = a.place_set(WeakSet::new());
    let r2 = a.place_set(WeakSet::new());
    let e = a.place_entry(Entry::new(3));
    a.insert(r1, e).unwrap();
    a.destroy_set(r1);
    assert_eq!(a.membership(e), None);
    assert_eq!(a.insert(r2, e), Ok(()));
    assert!(a.contains(r2, e));
    assert_eq!(a.membership(e), Some(r2));
}

#[test]
fn traversal_yields_each_member_once_with_exact_size_hint() {
    let mut a: Arena<u64> = Arena::new();
    let r = a.place_set(WeakSet::new());
    let e1 = a.place_entry(Entry::new(100));
    let e2 = a.place_entry(Entry::new(200));
    let e3 = a.place_entry(Entry::new(300));
    a.insert(r, e1).unwrap();
    a.insert(r, e2).unwrap();
    a.insert(r, e3).unwrap();
    let mut it = a.iterate(r);
    assert_eq!(it.size_hint(), (3, Some(3)));
    let mut seen: Vec<u64> = Vec::new();
    while let Some(h) = it.next() {
        seen.push(*a.value(h));
    }
    assert_eq!(it.size_hint(), (0, Some(0)));
    seen.sort();
    assert_eq!(seen, vec![100, 200, 300]);
}

#[test]
fn fresh_weakset_is_empty_and_fresh_entry_is_unregistered() {
    let ws = WeakSet::new();
    assert_eq!(ws.len(), 0);
    let mut it = ws.iter();
    assert_eq!(it.next(), None);
    let mut a: Arena<u32> = Arena::new();
    let e = a.place_entry(Entry::new(11));
    assert!(a.is_entry_live(e));
    assert_eq!(a.membership(e), None);
    assert_eq!(*a.value(e), 11);
}
