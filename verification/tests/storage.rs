use mvstore::ordvec::Bound;
use mvstore::storage::Storage;
use mvstore::storage::StorageReadOnly;

fn total(reader: &impl StorageReadOnly) -> u64 {
    reader.iter().into_iter().map(|(_, v)| v).sum()
}

#[test]
fn storage_get() {
    let storage = Storage::new();

    let view0 = storage.view();

    let mut block = storage.block();
    for (key, value) in [(0, 0), (1, 0), (2, 0)] {
        block.insert(key, value);
    }
    let storage = block.commit();

    let view1 = storage.view();

    let mut block = storage.block();
    for (key, value) in [(0, 1), (1, 1), (3, 1)] {
        block.insert(key, value);
    }
    let storage = block.commit();

    let view2 = storage.view();

    let mut block = storage.block();
    for (key, value) in [(1, 2), (4, 2)] {
        block.insert(key, value);
    }
    let storage = block.commit();

    let view3 = storage.view();

    assert_eq!(view0.get(0), None);
    assert_eq!(view0.get(1), None);
    assert_eq!(view0.get(2), None);
    assert_eq!(view0.get(3), None);

    assert_eq!(view1.get(0), Some(0));
    assert_eq!(view1.get(1), Some(0));
    assert_eq!(view1.get(2), Some(0));
    assert_eq!(view1.get(3), None);

    assert_eq!(view2.get(0), Some(1));
    assert_eq!(view2.get(1), Some(1));
    assert_eq!(view2.get(2), Some(0));
    assert_eq!(view2.get(3), Some(1));
    assert_eq!(view2.get(4), None);

    assert_eq!(view3.get(0), Some(1));
    assert_eq!(view3.get(1), Some(2));
    assert_eq!(view3.get(2), Some(0));
    assert_eq!(view3.get(3), Some(1));
    assert_eq!(view3.get(4), Some(2));

    drop(storage);
}

#[test]
fn storage_transaction_step() {
    let storage = Storage::new();

    let block = storage.block();

    // Successful transaction
    let mut transaction = block.transaction();
    transaction.insert(0, 0);
    let block = transaction.apply();

    // Aborted step
    let mut transaction = block.transaction();
    transaction.insert(0, 1);
    transaction.insert(1, 1);
    let block = transaction.discard();

    // Check that aborted transaction changes don't visible for subsequent transactions
    let transaction = block.transaction();
    assert_eq!(transaction.get(0), Some(0));
    assert_eq!(transaction.get(1), None);
    let block = transaction.discard();

    let storage = block.commit();

    // Check that effect of aborted step is not visible in the storage after committing transaction
    let view = storage.view();
    assert_eq!(view.get(0), Some(0));
    assert_eq!(view.get(1), None);
}

#[test]
fn iter() {
    let storage = Storage::new();

    let mut block = storage.block();
    for (key, value) in [(0, 0), (1, 0), (2, 0)] {
        block.insert(key, value);
    }
    let storage = block.commit();

    let mut block = storage.block();
    for (key, value) in [(0, 1), (1, 1), (3, 1)] {
        block.insert(key, value);
    }
    let storage = block.commit();

    let mut block = storage.block();
    for (key, value) in [(1, 2), (4, 2)] {
        block.insert(key, value);
    }
    let storage = block.commit();

    let view = storage.view();
    assert_eq!(view.iter(), vec![(0, 1), (1, 2), (2, 0), (3, 1), (4, 2)]);

    let mut block = storage.block();
    block.insert(0, 3);
    block.insert(5, 3);

    let mut transaction = block.transaction();
    transaction.insert(1, 4);
    transaction.insert(6, 4);

    assert_eq!(
        transaction.iter(),
        vec![(0, 3), (1, 4), (2, 0), (3, 1), (4, 2), (5, 3), (6, 4)]
    );
}

#[test]
fn range() {
    let storage = Storage::new();

    let mut block = storage.block();
    for (key, value) in [(0, 0), (1, 0), (2, 0)] {
        block.insert(key, value);
    }
    let storage = block.commit();

    let mut block = storage.block();
    for (key, value) in [(0, 1), (1, 1), (3, 1)] {
        block.insert(key, value);
    }
    let storage = block.commit();

    let mut block = storage.block();
    for (key, value) in [(1, 2), (4, 2)] {
        block.insert(key, value);
    }
    let storage = block.commit();

    let view = storage.view();

    assert_eq!(
        view.range(Bound::Unbounded, Bound::Unbounded),
        vec![(0, 1), (1, 2), (2, 0), (3, 1), (4, 2)]
    );
    assert_eq!(
        view.range(Bound::Included(1), Bound::Included(3)),
        vec![(1, 2), (2, 0), (3, 1)]
    );
    assert_eq!(view.range(Bound::Excluded(1), Bound::Excluded(3)), vec![(2, 0)]);

    let mut block = storage.block();
    block.insert(0, 3);
    block.insert(5, 3);

    let mut transaction = block.transaction();
    transaction.insert(1, 4);
    transaction.insert(6, 4);

    assert_eq!(
        transaction.range(Bound::Unbounded, Bound::Unbounded),
        vec![(0, 3), (1, 4), (2, 0), (3, 1), (4, 2), (5, 3), (6, 4)]
    );
    assert_eq!(
        transaction.range(Bound::Included(1), Bound::Included(3)),
        vec![(1, 4), (2, 0), (3, 1)]
    );
    assert_eq!(
        transaction.range(Bound::Excluded(1), Bound::Excluded(3)),
        vec![(2, 0)]
    );
}

#[test]
fn storage_revert() {
    let storage = Storage::new();

    let mut block = storage.block();
    block.insert(0, 0);
    let storage = block.commit();

    let mut block = storage.block();
    block.insert(0, 1);
    let storage = block.commit();

    let view1 = storage.view();

    let block = storage.block_and_revert();
    let storage = block.commit();

    let view2 = storage.view();

    // View is persistent so revert is not visible
    assert_eq!(view1.get(0), Some(1));
    // Revert is visible in the view created after revert was applied
    assert_eq!(view2.get(0), Some(0));
}

#[test]
fn len() {
    let storage = Storage::new();

    let mut block = storage.block();
    for (key, value) in [(0, 0), (1, 0), (2, 0)] {
        block.insert(key, value);
    }
    let storage = block.commit();

    let mut block = storage.block();
    for (key, value) in [(0, 1), (1, 1), (3, 1)] {
        block.insert(key, value);
    }
    let storage = block.commit();

    let mut block = storage.block();
    for (key, value) in [(1, 2), (4, 2)] {
        block.insert(key, value);
    }
    let storage = block.commit();

    let view = storage.view();
    assert_eq!(view.len(), 5);
}

#[test]
fn storage_double_revert() {
    let storage = Storage::new();

    let mut block = storage.block();
    block.insert(0, 0);
    let storage = block.commit();

    let mut block = storage.block();
    block.insert(0, 1);
    let storage = block.commit();

    let view1 = storage.view();

    let block = storage.block_and_revert();
    let storage = block.commit();
    let view2 = storage.view();

    // Only the single most recently committed block can be undone: a second
    // revert finds an empty rollback log and changes nothing.
    let block = storage.block_and_revert();
    let storage = block.commit();
    let view3 = storage.view();

    assert_eq!(view1.get(0), Some(1));
    assert_eq!(view2.get(0), Some(0));
    assert_eq!(view3.get(0), Some(0));
}

#[test]
fn storage_revert_on_empty() {
    // No block has been committed: the rollback log is empty and a revert
    // block opens on the unchanged (empty) map.
    let storage = Storage::new();
    let block = storage.block_and_revert();
    let storage = block.commit();
    let view = storage.view();
    assert_eq!(view.len(), 0);
    assert_eq!(view.get(0), None);
}

#[test]
fn storage_block_discard() {
    let storage = Storage::new();

    let mut block = storage.block();
    block.insert(0, 0);
    let storage = block.commit();

    // Discarding an uncommitted block drops its staged writes...
    let mut block = storage.block();
    block.insert(0, 7);
    block.insert(9, 9);
    let storage = block.discard();

    let view = storage.view();
    assert_eq!(view.get(0), Some(0));
    assert_eq!(view.get(9), None);

    // ...and leaves the previous block's rollback log in place: the first
    // committed block can still be undone.
    let block = storage.block_and_revert();
    let storage = block.commit();
    let view = storage.view();
    assert_eq!(view.get(0), None);
}

#[test]
fn block_insert_returns_previous_value() {
    let storage = Storage::new();

    let mut block = storage.block();
    assert_eq!(block.insert(1, 10), None);
    assert_eq!(block.insert(1, 11), Some(10));
    assert_eq!(block.remove(1), Some(11));
    assert_eq!(block.remove(1), None);
    assert_eq!(block.insert(1, 12), None);
    let storage = block.commit();

    let mut block = storage.block();
    assert_eq!(block.insert(1, 13), Some(12));
    assert_eq!(block.remove(2), None);
    let storage = block.commit();

    assert_eq!(storage.view().get(1), Some(13));
}

#[test]
fn block_remove_leaves_tombstone() {
    let storage = Storage::new();

    let mut block = storage.block();
    block.insert(1, 1);
    block.insert(2, 2);
    let storage = block.commit();

    let mut block = storage.block();
    block.remove(1);
    block.insert(3, 3);

    // The tombstoned key is hidden from reads and skipped by iteration.
    assert_eq!(block.get(1), None);
    assert_eq!(block.iter(), vec![(2, 2), (3, 3)]);
    assert_eq!(block.len(), 2);

    let storage = block.commit();
    let view = storage.view();
    assert_eq!(view.get(1), None);
    assert_eq!(view.iter(), vec![(2, 2), (3, 3)]);

    // The revert restores the removed key and drops the inserted one.
    let block = storage.block_and_revert();
    let storage = block.commit();
    let view = storage.view();
    assert_eq!(view.iter(), vec![(1, 1), (2, 2)]);
}

#[test]
fn range_edge_bounds() {
    let storage = Storage::new();
    let mut block = storage.block();
    for (key, value) in [(1, 1), (2, 2), (3, 3)] {
        block.insert(key, value);
    }
    let storage = block.commit();
    let view = storage.view();

    assert_eq!(view.range(Bound::Included(2), Bound::Unbounded), vec![(2, 2), (3, 3)]);
    assert_eq!(view.range(Bound::Unbounded, Bound::Excluded(3)), vec![(1, 1), (2, 2)]);
    assert_eq!(view.range(Bound::Included(2), Bound::Included(2)), vec![(2, 2)]);
    assert_eq!(view.range(Bound::Excluded(2), Bound::Included(2)), vec![]);
    assert_eq!(view.range(Bound::Included(3), Bound::Included(1)), vec![]);
}

#[test]
fn from_entries_later_wins() {
    let entries = vec![(1, 1), (2, 2), (1, 3)];
    let storage = Storage::from_entries(&entries);
    let view = storage.view();
    assert_eq!(view.get(1), Some(3));
    assert_eq!(view.get(2), Some(2));
    assert_eq!(view.len(), 2);
}

#[test]
fn export_round_trip() {
    let storage = Storage::new();

    let mut block = storage.block();
    for (key, value) in [(0, 0), (1, 1), (2, 2)] {
        block.insert(key, value);
    }
    let storage = block.commit();

    let mut block = storage.block();
    block.insert(0, 9);
    block.remove(2);
    let storage = block.commit();

    // Export the committed entries and the rollback log; the rebuilt
    // storage reads the same and can still undo the last committed block.
    let blocks = storage.view().iter();
    let rollback = storage.rollback_entries();
    let rebuilt = Storage::from_parts(&blocks, &rollback);

    let view = rebuilt.view();
    assert_eq!(view.get(0), Some(9));
    assert_eq!(view.get(1), Some(1));
    assert_eq!(view.get(2), None);

    let block = rebuilt.block_and_revert();
    let rebuilt = block.commit();
    let view = rebuilt.view();
    assert_eq!(view.iter(), vec![(0, 0), (1, 1), (2, 2)]);
}

#[test]
fn transaction_apply_publishes() {
    let storage = Storage::new();
    let block = storage.block();

    let mut transaction = block.transaction();
    assert_eq!(transaction.insert(5, 50), None);
    assert_eq!(transaction.remove(5), Some(50));
    assert_eq!(transaction.insert(5, 51), None);
    let block = transaction.apply();

    // The applied writes stay in the block; a later discarded transaction
    // does not disturb them.
    let mut transaction = block.transaction();
    transaction.insert(5, 99);
    let block = transaction.discard();

    assert_eq!(block.get(5), Some(51));
    let storage = block.commit();
    assert_eq!(storage.view().get(5), Some(51));
}

#[test]
fn read_only_trait_access() {
    let storage = Storage::new();
    let mut block = storage.block();
    block.insert(1, 10);
    block.insert(2, 20);

    let transaction = block.transaction();
    assert_eq!(total(&transaction), 30);
    assert_eq!(StorageReadOnly::get(&transaction, 1), Some(10));

    let block = transaction.discard();
    assert_eq!(total(&block), 30);
    assert_eq!(StorageReadOnly::len(&block), 2);

    let storage = block.commit();
    let view = storage.view();
    assert_eq!(total(&view), 30);
    assert_eq!(
        StorageReadOnly::range(&view, Bound::Included(2), Bound::Unbounded),
        vec![(2, 20)]
    );
}

#[test]
fn block_get_mut() {
    let storage = Storage::new();
    let mut block = storage.block();
    block.insert(1, 1);
    let storage = block.commit();

    let mut block = storage.block();
    match block.get_mut(1) {
        Some(value) => *value = 5,
        None => unreachable!(),
    }
    assert!(block.get_mut(2).is_none());
    assert_eq!(block.get(1), Some(5));
    let storage = block.commit();
    assert_eq!(storage.view().get(1), Some(5));

    // The in-place write is undone by a revert like any other block write.
    let block = storage.block_and_revert();
    let storage = block.commit();
    assert_eq!(storage.view().get(1), Some(1));
}

#[test]
fn transaction_get_mut() {
    let storage = Storage::new();
    let mut block = storage.block();
    block.insert(1, 1);

    let mut transaction = block.transaction();
    match transaction.get_mut(1) {
        Some(value) => *value = 7,
        None => unreachable!(),
    }
    assert!(transaction.get_mut(2).is_none());
    assert_eq!(transaction.get(1), Some(7));
    let block = transaction.discard();
    assert_eq!(block.get(1), Some(1));

    let mut transaction = block.transaction();
    match transaction.get_mut(1) {
        Some(value) => *value = 9,
        None => unreachable!(),
    }
    let block = transaction.apply();
    assert_eq!(block.get(1), Some(9));
    let storage = block.commit();
    assert_eq!(storage.view().get(1), Some(9));
}
