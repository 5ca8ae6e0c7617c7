//! Fork-level tests: visibility along ancestor chains, sibling divergence,
//! finalization of a winning fork and the pruning of its losers.

use accounts_db::accounts_db::AccountsDb;
use accounts_db::bank::{Bank, Transaction};
use accounts_db::{Account, GENESIS_SUPPLY};

#[test]
fn test_get_account() {
    let (bank, db) = Bank::genesis_bank();

    assert_eq!(bank.slot, 0);
    assert_eq!(bank.ancestors, vec![0]);

    assert_eq!(
        bank.get_account(&db, 0),
        Some(Account {
            balance: GENESIS_SUPPLY
        })
    );
    assert_eq!(bank.get_account(&db, 1), None);
}

#[test]
fn test_apply() {
    let (bank_0, mut db) = Bank::genesis_bank();

    let tx = Transaction {
        from: 0,
        to: 1,
        amount: 42,
    };

    bank_0.apply(&mut db, &tx);

    assert_eq!(bank_0.get_account(&db, 0).unwrap().balance, GENESIS_SUPPLY - 42);
    assert_eq!(bank_0.get_account(&db, 1).unwrap().balance, 42);

    let bank_1 = bank_0.new_from_parent(1);

    assert_eq!(bank_1.get_account(&db, 0).unwrap().balance, GENESIS_SUPPLY - 42);
    assert_eq!(bank_1.get_account(&db, 1).unwrap().balance, 42);

    let tx = Transaction {
        from: 1,
        to: 0,
        amount: 10,
    };

    bank_1.apply(&mut db, &tx);

    assert_eq!(bank_1.get_account(&db, 0).unwrap().balance, GENESIS_SUPPLY - 32);
    assert_eq!(bank_1.get_account(&db, 1).unwrap().balance, 32);

    assert_eq!(bank_0.get_account(&db, 0).unwrap().balance, GENESIS_SUPPLY - 42);
    assert_eq!(bank_0.get_account(&db, 1).unwrap().balance, 42);

    // a competing fork
    let bank_2 = bank_0.new_from_parent(2);

    let tx = Transaction {
        from: 0,
        to: 1,
        amount: 1,
    };

    bank_2.apply(&mut db, &tx);

    assert_eq!(bank_2.get_account(&db, 0).unwrap().balance, GENESIS_SUPPLY - 43);
    assert_eq!(bank_2.get_account(&db, 1).unwrap().balance, 43);

    assert_eq!(bank_1.get_account(&db, 0).unwrap().balance, GENESIS_SUPPLY - 32);
    assert_eq!(bank_1.get_account(&db, 1).unwrap().balance, 32);

    bank_2.finalize(&mut db);

    assert_eq!(bank_1.get_account(&db, 0).unwrap().balance, GENESIS_SUPPLY - 43);
    assert_eq!(bank_1.get_account(&db, 1).unwrap().balance, 43);
}

#[test]
fn test_genesis_visibility() {
    let (bank, db) = Bank::genesis_bank();
    assert_eq!(
        bank.get_account(&db, 0),
        Some(Account {
            balance: GENESIS_SUPPLY
        })
    );
    assert_eq!(bank.get_account(&db, 1), None);
}

/// The store after the slot-0 transfer of 42 from the treasury to account 1.
fn transferred_store() -> (Bank, AccountsDb) {
    let (bank_0, mut db) = Bank::genesis_bank();
    let tx = Transaction {
        from: 0,
        to: 1,
        amount: 42,
    };
    bank_0.apply(&mut db, &tx);
    (bank_0, db)
}

#[test]
fn test_single_fork_transfer() {
    let (bank_0, db) = transferred_store();
    assert_eq!(bank_0.get_account(&db, 0).unwrap().balance, GENESIS_SUPPLY - 42);
    assert_eq!(bank_0.get_account(&db, 1).unwrap().balance, 42);
}

#[test]
fn test_fork_extension_sees_parent_writes() {
    let (bank_0, db) = transferred_store();
    let bank_1 = bank_0.new_from_parent(1);
    assert_eq!(bank_1.get_account(&db, 0).unwrap().balance, GENESIS_SUPPLY - 42);
    assert_eq!(bank_1.get_account(&db, 1).unwrap().balance, 42);
}

/// Continue [`transferred_store`] with a diverging sibling on slot 2 that
/// moves one more unit across.
fn diverged_store() -> (Bank, Bank, Bank, AccountsDb) {
    let (bank_0, mut db) = transferred_store();
    let bank_1 = bank_0.new_from_parent(1);
    let bank_2 = bank_0.new_from_parent(2);
    let tx = Transaction {
        from: 0,
        to: 1,
        amount: 1,
    };
    bank_2.apply(&mut db, &tx);
    (bank_0, bank_1, bank_2, db)
}

#[test]
fn test_sibling_fork_diverges() {
    let (bank_0, bank_1, bank_2, db) = diverged_store();

    assert_eq!(bank_1.get_account(&db, 0).unwrap().balance, GENESIS_SUPPLY - 42);
    assert_eq!(bank_1.get_account(&db, 1).unwrap().balance, 42);

    assert_eq!(bank_2.get_account(&db, 0).unwrap().balance, GENESIS_SUPPLY - 43);
    assert_eq!(bank_2.get_account(&db, 1).unwrap().balance, 43);

    // slot 0 still sees the write made on slot 0: the sibling's edits sit at slot 2
    assert_eq!(bank_0.get_account(&db, 0).unwrap().balance, GENESIS_SUPPLY - 42);
}

#[test]
fn test_finalize_the_sibling() {
    let (_bank_0, bank_1, bank_2, mut db) = diverged_store();

    bank_2.finalize(&mut db);

    assert_eq!(db.finalized_slot(), 2);
    assert_eq!(bank_1.get_account(&db, 0).unwrap().balance, GENESIS_SUPPLY - 43);
    assert_eq!(bank_1.get_account(&db, 1).unwrap().balance, 43);
}

#[test]
fn test_finalize_preserves_winner_reads() {
    let (_bank_0, _bank_1, bank_2, mut db) = diverged_store();

    let before_0 = bank_2.get_account(&db, 0);
    let before_1 = bank_2.get_account(&db, 1);
    bank_2.finalize(&mut db);
    assert_eq!(bank_2.get_account(&db, 0), before_0);
    assert_eq!(bank_2.get_account(&db, 1), before_1);
}

#[test]
fn test_finalize_is_idempotent() {
    let (_bank_0, bank_1, bank_2, mut db) = diverged_store();

    bank_2.finalize(&mut db);
    let once_slot = db.finalized_slot();
    let once_0 = bank_1.get_account(&db, 0);
    let once_1 = bank_1.get_account(&db, 1);
    let once_2 = bank_2.get_account(&db, 0);

    bank_2.finalize(&mut db);
    assert_eq!(db.finalized_slot(), once_slot);
    assert_eq!(bank_1.get_account(&db, 0), once_0);
    assert_eq!(bank_1.get_account(&db, 1), once_1);
    assert_eq!(bank_2.get_account(&db, 0), once_2);
}

#[test]
fn test_read_on_unwritten_fork_skips_sibling_values() {
    let (bank_0, mut db) = Bank::genesis_bank();
    let bank_1 = bank_0.new_from_parent(1);
    let tx = Transaction {
        from: 0,
        to: 7,
        amount: 99,
    };
    bank_1.apply(&mut db, &tx);

    // a sibling fork that never wrote account 7 sees no slot-1 value
    let bank_2 = bank_0.new_from_parent(2);
    assert_eq!(bank_2.get_account(&db, 7), None);
    assert_eq!(bank_2.get_account(&db, 0).unwrap().balance, GENESIS_SUPPLY);
}

#[test]
fn test_write_then_read_same_fork() {
    let (bank_0, mut db) = Bank::genesis_bank();
    let bank_1 = bank_0.new_from_parent(1);
    let locked = db.load_versioned_accounts(&vec![], &vec![3]).expect("load");
    let loaded = db.load_account(&locked, 3, &bank_1.ancestors);
    assert_eq!(loaded.balance, 0);
    db.set_account(&locked, 3, Account { balance: 77 }, 1);
    db.release(locked);
    assert_eq!(bank_1.get_account(&db, 3).unwrap().balance, 77);
}
