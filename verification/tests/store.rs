//! Tests of the store itself: genesis seeding, lazy entry creation, the
//! bulk lock primitive and fork-qualified loads and writes.

use accounts_db::accounts_db::AccountsDb;
use accounts_db::{Account, GENESIS_SUPPLY};

#[test]
fn test_genesis_database() {
    let accounts_db = AccountsDb::genesis_database();
    assert_eq!(accounts_db.account_count(), 1);
    assert_eq!(
        accounts_db
            .get_versioned_account(0)
            .unwrap()
            .get_account(&vec![0])
            .unwrap()
            .balance,
        GENESIS_SUPPLY
    );
}

#[test]
fn test_initialize_empty_versioned_account() {
    let mut accounts_db = AccountsDb::genesis_database();
    accounts_db.initialize_empty_versioned_account(1);
    assert_eq!(accounts_db.account_count(), 2);
}

#[test]
fn test_initialize_existing_account_keeps_it() {
    let mut accounts_db = AccountsDb::genesis_database();
    accounts_db.initialize_empty_versioned_account(0);
    assert_eq!(accounts_db.account_count(), 1);
    assert_eq!(
        accounts_db
            .get_versioned_account(0)
            .unwrap()
            .get_account(&vec![0])
            .unwrap()
            .balance,
        GENESIS_SUPPLY
    );
}

#[test]
fn test_load_versioned_accounts() {
    let mut accounts_db = AccountsDb::genesis_database();
    accounts_db.initialize_empty_versioned_account(1);
    accounts_db.initialize_empty_versioned_account(2);
    accounts_db.initialize_empty_versioned_account(3);

    let locked = accounts_db
        .load_versioned_accounts(&vec![0, 1], &vec![2, 3])
        .expect("load");

    assert_eq!(locked.read_ids.len(), 2);
    assert_eq!(locked.write_ids.len(), 2);

    assert_eq!(
        accounts_db
            .get_versioned_account(0)
            .unwrap()
            .get_account(&vec![0])
            .unwrap()
            .balance,
        GENESIS_SUPPLY
    );
    assert_eq!(accounts_db.load_account(&locked, 2, &vec![0]).balance, 0);

    let _from = accounts_db.load_account(&locked, 2, &vec![0]);
    let _to = accounts_db.load_account(&locked, 3, &vec![0]);

    accounts_db.set_account(&locked, 2, Account { balance: 10 }, 0);
    accounts_db.set_account(&locked, 3, Account { balance: 15 }, 0);
    accounts_db.release(locked);

    assert_eq!(
        accounts_db
            .get_versioned_account(3)
            .unwrap()
            .get_account(&vec![0])
            .unwrap()
            .balance,
        15
    );
}

#[test]
fn test_lock_contention() {
    let mut accounts_db = AccountsDb::genesis_database();

    let winner = accounts_db
        .load_versioned_accounts(&vec![], &vec![5])
        .expect("first exclusive acquisition succeeds");
    let loser = accounts_db.load_versioned_accounts(&vec![], &vec![5]);
    assert!(matches!(
        loser,
        Err(accounts_db::accounts_db::LoadError::OneOrMoreAccountsLocked)
    ));

    accounts_db.release(winner);
    let retry = accounts_db.load_versioned_accounts(&vec![], &vec![5]);
    assert!(retry.is_ok());
}

#[test]
fn test_shared_locks_conflict_with_exclusive() {
    let mut accounts_db = AccountsDb::genesis_database();

    let readers = accounts_db
        .load_versioned_accounts(&vec![0], &vec![])
        .expect("shared acquisition succeeds");
    let second_readers = accounts_db
        .load_versioned_accounts(&vec![0], &vec![])
        .expect("two shared holders coexist");
    let writer = accounts_db.load_versioned_accounts(&vec![], &vec![0]);
    assert!(writer.is_err());

    accounts_db.release(readers);
    accounts_db.release(second_readers);
    let writer = accounts_db.load_versioned_accounts(&vec![], &vec![0]);
    assert!(writer.is_ok());
}

#[test]
fn test_repeated_load_at_tip_reuses_working_copy() {
    let mut accounts_db = AccountsDb::genesis_database();
    let locked = accounts_db
        .load_versioned_accounts(&vec![], &vec![0])
        .expect("load");

    let first = accounts_db.load_account(&locked, 0, &vec![0]);
    assert_eq!(first.balance, GENESIS_SUPPLY);
    accounts_db.set_account(&locked, 0, Account { balance: 7 }, 0);
    let second = accounts_db.load_account(&locked, 0, &vec![0]);
    assert_eq!(second.balance, 7);
    accounts_db.release(locked);

    assert_eq!(
        accounts_db
            .get_versioned_account(0)
            .unwrap()
            .get_account(&vec![0])
            .unwrap()
            .balance,
        7
    );
}
