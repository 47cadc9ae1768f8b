use atomic_arc::atomic_arc::check_ptr;
use atomic_arc::atomic_arc::{Arc, AtomicArc, NullableAtomicArc, Store};

#[test]
fn pointer_check_accepts_aligned_low_addresses() {
    assert!(check_ptr(16));
    assert!(!check_ptr(8));
    assert!(!check_ptr(1u64 << 48));
    assert!(check_ptr((1u64 << 48) - 16));
}

#[test]
fn test_atomic_arc() {
    let mut store: Store<i32> = Store::new();

    let first = Arc::new(&mut store, 4);
    let mut x = AtomicArc::new(&mut store, first);
    let y = x.load();
    let z = y.duplicate(&mut store);

    let xx = Arc::new(&mut store, 5);
    let xx_for_cell = xx.duplicate(&mut store);
    x.store(&mut store, xx_for_cell);
    let mut new_x = AtomicArc::new(&mut store, xx);

    assert_eq!(*x.load().deref(&store), 5);
    assert_eq!(*new_x.load().deref(&store), 5);
    assert_eq!(*z.deref(&store), 4);
    assert_eq!(*y.deref(&store), 4);

    let mut nx: NullableAtomicArc<i32> = AtomicArc::new_nullable(&mut store, None);
    assert!(nx.load().is_none());
    let seven = Arc::new(&mut store, 7);
    nx.store(&mut store, Some(seven));
    let loaded = nx.load().expect("stored a handle");
    assert_eq!(*loaded.deref(&store), 7);
}

#[test]
fn create_then_drop_runs_destructor_once() {
    let mut store: Store<i32> = Store::new();
    let h = Arc::new(&mut store, 41);
    let slot = h.slot();
    let h2 = h.duplicate(&mut store);
    assert!(h2.drop(&mut store).is_none());
    assert_eq!(h.drop(&mut store), Some(41));
    assert!(store.slots[slot].is_none());
}

#[test]
fn loads_keep_the_old_record_alive_across_store() {
    let mut store: Store<i32> = Store::new();
    let four = Arc::new(&mut store, 4);
    let old_slot = four.slot();
    let mut cell = AtomicArc::new(&mut store, four);

    let y = cell.load();
    let z = y.duplicate(&mut store);

    let five = Arc::new(&mut store, 5);
    cell.store(&mut store, five);

    // the two outstanding shares still see the old value
    assert_eq!(*y.deref(&store), 4);
    assert_eq!(*z.deref(&store), 4);

    // the old record is freed exactly when the last share goes away
    assert!(y.drop(&mut store).is_none());
    assert_eq!(z.drop(&mut store), Some(4));
    assert!(store.slots[old_slot].is_none());

    assert_eq!(*cell.load().deref(&store), 5);
}

#[test]
fn compare_exchange_failure_frees_the_new_handle() {
    let mut store: Store<i32> = Store::new();
    let held = Arc::new(&mut store, 1);
    let held_cell = held.duplicate(&mut store);
    let mut cell = AtomicArc::new(&mut store, held_cell);

    let other = Arc::new(&mut store, 2);
    let new_value = Arc::new(&mut store, 3);
    let new_slot = new_value.slot();

    // the cell holds `held`, not `other`: the exchange is refused and the
    // consumed new handle's record is freed
    assert!(!cell.compare_exchange(&mut store, &other, new_value));
    assert!(store.slots[new_slot].is_none());
    assert_eq!(*cell.load().deref(&store), 1);

    // now compare against what the cell really holds
    let replacement = Arc::new(&mut store, 9);
    assert!(cell.compare_exchange(&mut store, &held, replacement));
    assert_eq!(*cell.load().deref(&store), 9);
}

#[test]
fn swap_hands_back_the_previous_record() {
    let mut store: Store<i32> = Store::new();
    let a = Arc::new(&mut store, 10);
    let mut cell = AtomicArc::new(&mut store, a);
    let b = Arc::new(&mut store, 20);
    let prev = cell.swap(&mut store, b);
    assert_eq!(*prev.deref(&store), 10);
    assert_eq!(*cell.load().deref(&store), 20);
    // dropping the swapped-out handle settles the old record's counts
    assert_eq!(prev.drop(&mut store), Some(10));
}

#[test]
fn nullable_store_null_releases_the_record() {
    let mut store: Store<i32> = Store::new();
    let h = Arc::new(&mut store, 6);
    let slot = h.slot();
    let mut cell = AtomicArc::new_nullable(&mut store, Some(h));
    let first_look = cell.load().expect("cell holds a record");
    assert_eq!(*first_look.deref(&store), 6);
    // two loads are outstanding; emptying the cell folds their debt back
    // and the loaded handles become the last shares
    let loaded = cell.load().expect("cell still holds the record");
    cell.store(&mut store, None);
    assert!(cell.load().is_none());
    assert_eq!(*loaded.deref(&store), 6);
    assert!(first_look.drop(&mut store).is_none());
    assert_eq!(loaded.drop(&mut store), Some(6));
    assert!(store.slots[slot].is_none());
}

#[test]
fn nullable_compare_exchange_installs_over_null() {
    let mut store: Store<i32> = Store::new();
    let mut cell: NullableAtomicArc<i32> = AtomicArc::new_nullable(&mut store, None);

    let eight = Arc::new(&mut store, 8);
    assert!(cell.compare_exchange(&mut store, &None, Some(eight)));
    assert_eq!(*cell.load().expect("installed").deref(&store), 8);

    // the cell is no longer null: the exchange is refused and the
    // rejected handle's record is freed
    let nine = Arc::new(&mut store, 9);
    let nine_slot = nine.slot();
    assert!(!cell.compare_exchange(&mut store, &None, Some(nine)));
    assert!(store.slots[nine_slot].is_none());
}

#[test]
fn nullable_swap_rotates_contents() {
    let mut store: Store<i32> = Store::new();
    let first = Arc::new(&mut store, 1);
    let mut cell = AtomicArc::new_nullable(&mut store, Some(first));
    let second = Arc::new(&mut store, 2);
    let prev = cell.swap(&mut store, Some(second)).expect("held a record");
    assert_eq!(*prev.deref(&store), 1);
    assert_eq!(prev.drop(&mut store), Some(1));
    let prev2 = cell.swap(&mut store, None).expect("held a record");
    assert_eq!(*prev2.deref(&store), 2);
    assert!(cell.swap(&mut store, None).is_none());
    assert_eq!(prev2.drop(&mut store), Some(2));
}
