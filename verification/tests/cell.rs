use mvstore::cell::Cell;

#[test]
fn cell_get() {
    let cell = Cell::new(0);

    let view0 = cell.view();

    let mut block = cell.block();
    *block.get_mut() = 1;
    let cell = block.commit();

    let view1 = cell.view();

    let mut block = cell.block();
    *block.get_mut() = 2;
    let cell = block.commit();

    let view2 = cell.view();

    let mut block = cell.block();
    *block.get_mut() = 3;
    let cell = block.commit();

    let view3 = cell.view();

    assert_eq!(view0.get(), 0);
    assert_eq!(view1.get(), 1);
    assert_eq!(view2.get(), 2);
    assert_eq!(view3.get(), 3);

    drop(cell);
}

#[test]
fn cell_transaction_step() {
    let cell = Cell::new(0);

    let block = cell.block();

    // Successful transaction
    let mut transaction = block.transaction();
    *transaction.get_mut() = 1;
    let block = transaction.apply();

    // Aborted step
    let mut transaction = block.transaction();
    *transaction.get_mut() = 2;
    let block = transaction.discard();

    // Check that aborted transaction changes don't visible for subsequent transactions
    let transaction = block.transaction();
    assert_eq!(transaction.get(), 1);
    let block = transaction.discard();

    let cell = block.commit();

    // Check that effect of aborted step is not visible in the storage after committing transaction
    let view = cell.view();
    assert_eq!(view.get(), 1);
}

#[test]
fn cell_revert() {
    let cell = Cell::new(0);

    let mut block = cell.block();
    *block.get_mut() = 1;
    let cell = block.commit();

    let mut block = cell.block();
    *block.get_mut() = 2;
    let cell = block.commit();

    let view1 = cell.view();

    let block = cell.block_and_revert();
    let cell = block.commit();
    let view2 = cell.view();

    // View is persistent so revert is not visible
    assert_eq!(view1.get(), 2);
    // Revert is visible in the view created after revert was applied
    assert_eq!(view2.get(), 1);
}

#[test]
fn cell_double_revert() {
    let cell = Cell::new(0);

    let mut block = cell.block();
    *block.get_mut() = 1;
    let cell = block.commit();

    let mut block = cell.block();
    *block.get_mut() = 2;
    let cell = block.commit();

    let block = cell.block_and_revert();
    let cell = block.commit();
    assert_eq!(cell.view().get(), 1);

    // The revert block committed an empty rollback slot: a second revert
    // has nothing left to undo.
    let block = cell.block_and_revert();
    let cell = block.commit();
    assert_eq!(cell.view().get(), 1);
}

#[test]
fn cell_block_discard() {
    let cell = Cell::new(0);

    let mut block = cell.block();
    *block.get_mut() = 1;
    let cell = block.commit();

    // Discarding an uncommitted block drops its staged value and keeps the
    // previous block's rollback slot.
    let mut block = cell.block();
    *block.get_mut() = 9;
    let cell = block.discard();
    assert_eq!(cell.view().get(), 1);

    let block = cell.block_and_revert();
    let cell = block.commit();
    assert_eq!(cell.view().get(), 0);
}

#[test]
fn cell_untouched_commit_clears_rollback() {
    let cell = Cell::new(0);

    let mut block = cell.block();
    *block.get_mut() = 1;
    let cell = block.commit();

    // A committed block that never wrote records no prior, so the earlier
    // block can no longer be undone.
    let block = cell.block();
    let cell = block.commit();

    let block = cell.block_and_revert();
    let cell = block.commit();
    assert_eq!(cell.view().get(), 1);
}

#[test]
fn cell_default_is_zero() {
    let cell = Cell::default();
    assert_eq!(cell.view().get(), 0);
}
