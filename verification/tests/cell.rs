use scc::cell::{Cell, Locker, Reader, CELL_LEN};
use scc::ebr::Barrier;

#[test]
fn cell_insert_search_iterate_purge() {
    let num_keys = CELL_LEN + 2;
    let barrier = Barrier::new();
    let mut cell: Cell<usize, usize, true> = Cell::default();
    for key in 0..num_keys {
        let hash = (key % CELL_LEN) as u8;
        let locker = Locker::lock(&mut cell, &barrier).unwrap();
        locker.insert(&mut cell, key, 0, hash, &barrier);
        assert_eq!(cell.search(&key, hash, &barrier), Some(&(key, 0)));
        locker.release(&mut cell);
        let reader = Reader::lock(&mut cell, &barrier).unwrap();
        assert_eq!(cell.search(&key, hash, &barrier), Some(&(key, 0)));
        reader.release(&mut cell);
    }
    assert_eq!(cell.num_entries(), num_keys);

    let mut iterated = 0;
    let mut iter = cell.iter(&barrier);
    while let Some((entry, _hash)) = iter.next_entry(&cell) {
        assert!(entry.0 < num_keys);
        assert_eq!(entry.1, 0);
        iterated += 1;
    }
    assert_eq!(cell.num_entries(), iterated);

    let mut locker = Locker::lock(&mut cell, &barrier).unwrap();
    locker.purge(&mut cell, &barrier);
    locker.release(&mut cell);
    assert!(cell.killed());
    assert_eq!(cell.num_entries(), 0);
    assert!(Locker::lock(&mut cell, &barrier).is_none());
}

#[test]
fn cell_collision_overflow() {
    let barrier = Barrier::new();
    let mut cell: Cell<usize, usize, true> = Cell::default();
    let hash = 5u8;
    let total = CELL_LEN + 5;
    for key in 0..total {
        let locker = Locker::lock(&mut cell, &barrier).unwrap();
        locker.insert(&mut cell, key, key, hash, &barrier);
        locker.release(&mut cell);
    }
    assert_eq!(cell.num_entries(), total);
    for key in 0..total {
        assert_eq!(cell.search(&key, hash, &barrier), Some(&(key, key)));
    }

    // Erase every third key; in lock-free mode erasure is logical.
    let locker = Locker::lock(&mut cell, &barrier).unwrap();
    let mut key = 0;
    while key < total {
        let mut iter = cell.get(&key, hash, &barrier).unwrap();
        assert!(locker.erase(&mut cell, &mut iter, &barrier).is_none());
        key += 3;
    }
    locker.release(&mut cell);
    for key in 0..total {
        if key % 3 == 0 {
            assert_eq!(cell.search(&key, hash, &barrier), None);
        } else {
            assert_eq!(cell.search(&key, hash, &barrier), Some(&(key, key)));
        }
    }

    // Erasing the remaining overflow entries frees the overflow array.
    let locker = Locker::lock(&mut cell, &barrier).unwrap();
    for key in CELL_LEN..total {
        if key % 3 != 0 {
            let mut iter = cell.get(&key, hash, &barrier).unwrap();
            assert!(locker.erase(&mut cell, &mut iter, &barrier).is_none());
        }
    }
    locker.release(&mut cell);
    for key in CELL_LEN..total {
        assert_eq!(cell.search(&key, hash, &barrier), None);
    }
}

#[test]
fn cell_extract_moves_pairs_out() {
    let barrier = Barrier::new();
    let mut cell: Cell<u64, u64, false> = Cell::default();
    let locker = Locker::lock(&mut cell, &barrier).unwrap();
    locker.insert(&mut cell, 3, 30, 3, &barrier);
    locker.insert(&mut cell, 4, 40, 4, &barrier);
    let mut iter = cell.get(&3, 3, &barrier).unwrap();
    let pair = locker.extract(&mut cell, &mut iter, &barrier);
    assert_eq!(pair, (3, 30));
    locker.release(&mut cell);
    assert_eq!(cell.search(&3, 3, &barrier), None);
    assert_eq!(cell.search(&4, 4, &barrier), Some(&(4, 40)));
    assert_eq!(cell.num_entries(), 1);
}

#[test]
fn cell_erase_moves_pair_out_without_lock_free() {
    let barrier = Barrier::new();
    let mut cell: Cell<u64, u64, false> = Cell::default();
    let locker = Locker::lock(&mut cell, &barrier).unwrap();
    locker.insert(&mut cell, 9, 90, 9, &barrier);
    let mut iter = cell.get(&9, 9, &barrier).unwrap();
    assert_eq!(locker.erase(&mut cell, &mut iter, &barrier), Some((9, 90)));
    locker.release(&mut cell);
    assert_eq!(cell.search(&9, 9, &barrier), None);
    assert_eq!(cell.num_entries(), 0);
}

#[test]
fn locker_excludes_all_others() {
    let barrier = Barrier::new();
    let mut cell: Cell<u8, u8, false> = Cell::default();
    let locker = Locker::try_lock(&mut cell, &barrier).unwrap().unwrap();
    assert!(Locker::try_lock(&mut cell, &barrier).is_err());
    assert!(Reader::try_lock(&mut cell, &barrier).is_err());
    assert!(Locker::try_lock_or_wait(&mut cell, &barrier).is_err());
    locker.release(&mut cell);
    let second = Locker::try_lock(&mut cell, &barrier).unwrap();
    assert!(second.is_some());
    second.unwrap().release(&mut cell);
}

#[test]
fn readers_coexist_and_exclude_locker() {
    let barrier = Barrier::new();
    let mut cell: Cell<u8, u8, false> = Cell::default();
    let r1 = Reader::try_lock(&mut cell, &barrier).unwrap().unwrap();
    let r2 = Reader::try_lock(&mut cell, &barrier).unwrap().unwrap();
    assert!(Locker::try_lock(&mut cell, &barrier).is_err());
    assert!(Reader::try_lock_or_wait(&mut cell, &barrier).unwrap().is_some());
    r1.release(&mut cell);
    r2.release(&mut cell);
    // one reader from try_lock_or_wait is still registered
    assert!(Locker::try_lock(&mut cell, &barrier).is_err());
}

#[test]
fn killed_cell_rejects_all_acquisitions() {
    let barrier = Barrier::new();
    let mut cell: Cell<usize, usize, true> = Cell::default();
    let mut guard = Locker::lock(&mut cell, &barrier).unwrap();
    guard.insert(&mut cell, 1, 2, 1, &barrier);
    guard.purge(&mut cell, &barrier);
    guard.release(&mut cell);
    assert!(cell.killed());
    assert_eq!(cell.num_entries(), 0);
    assert!(Locker::lock(&mut cell, &barrier).is_none());
    assert!(Locker::try_lock(&mut cell, &barrier).unwrap().is_none());
    assert!(Reader::try_lock(&mut cell, &barrier).unwrap().is_none());
    assert!(Reader::lock(&mut cell, &barrier).is_none());
    assert_eq!(cell.search(&1, 1, &barrier), None);
    assert!(cell.get(&1, 1, &barrier).is_none());
}

#[test]
fn iterator_positions_cover_every_entry_once() {
    let barrier = Barrier::new();
    let mut cell: Cell<usize, usize, false> = Cell::default();
    let locker = Locker::lock(&mut cell, &barrier).unwrap();
    for key in 0..40 {
        locker.insert(&mut cell, key, key * 2, (key % 7) as u8, &barrier);
    }
    locker.release(&mut cell);
    let mut seen = vec![false; 40];
    let mut iter = cell.iter(&barrier);
    while let Some((entry, hash)) = iter.next_entry(&cell) {
        assert!(!seen[entry.0]);
        seen[entry.0] = true;
        assert_eq!(entry.1, entry.0 * 2);
        assert_eq!(hash, (entry.0 % 7) as u8);
    }
    assert!(seen.iter().all(|s| *s));
}

#[test]
fn deep_overflow_chain() {
    let barrier = Barrier::new();
    let mut cell: Cell<usize, usize, false> = Cell::default();
    let total = 80;
    let locker = Locker::lock(&mut cell, &barrier).unwrap();
    for key in 0..total {
        locker.insert(&mut cell, key, key + 1, 2, &barrier);
    }
    locker.release(&mut cell);
    assert_eq!(cell.num_entries(), total);
    for key in 0..total {
        assert_eq!(cell.search(&key, 2, &barrier), Some(&(key, key + 1)));
    }
    let locker = Locker::lock(&mut cell, &barrier).unwrap();
    for key in 0..total {
        let mut iter = cell.get(&key, 2, &barrier).unwrap();
        assert_eq!(locker.erase(&mut cell, &mut iter, &barrier), Some((key, key + 1)));
    }
    locker.release(&mut cell);
    assert_eq!(cell.num_entries(), 0);
    for key in 0..total {
        assert_eq!(cell.search(&key, 2, &barrier), None);
    }
}

#[test]
fn waiting_flag_on_contention() {
    let barrier = Barrier::new();
    let mut cell: Cell<u8, u8, false> = Cell::default();
    let locker = Locker::try_lock(&mut cell, &barrier).unwrap().unwrap();
    // both cooperative acquisitions report that the caller should suspend
    assert!(Reader::try_lock_or_wait(&mut cell, &barrier).is_err());
    assert!(Locker::try_lock_or_wait(&mut cell, &barrier).is_err());
    locker.release(&mut cell);
    // the release cleared the waiter flag with the lock
    assert!(Reader::try_lock_or_wait(&mut cell, &barrier).unwrap().is_some());
}
