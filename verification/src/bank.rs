//! A single fork's view over the accounts store: the ancestor chain a
//! caller supplies to qualify reads, writes and finalization, and the
//! transfer routine that runs through the bulk lock primitive.

use vstd::prelude::*;
use vstd::pervasive::unreached;

use crate::accounts_db::{
    acquire_ok, copy_ids, lemma_ensure_ids_effect, lemma_remove_appended, remove_all,
    slot_above_finalized, spec_ensure_ids, spec_finalize_db, AccountsDb,
};
use crate::versioned_account::{
    lemma_load_isolated, lemma_write_isolated, lemma_write_read, loaded_value, spec_load, spec_set,
    AccountVersions,
};
use crate::{Account, AccountId, Slot};

verus! {

/// A transfer of `amount` from one account to another.
pub struct Transaction {
    pub from: AccountId,
    pub to: AccountId,
    pub amount: u64,
}

/// Strictly ascending slot numbers.
pub open spec fn slots_ascending(slots: Seq<Slot>) -> bool {
    forall|i: int, j: int| 0 <= i < j < slots.len() ==> slots[i] < slots[j]
}

/// The account of `id` as the store holds it, or a never-referenced one.
pub open spec fn entry_or_empty(m: Map<AccountId, AccountVersions>, id: AccountId) -> AccountVersions {
    if m.dom().contains(id) {
        m[id]
    } else {
        AccountVersions::empty()
    }
}

/// The value of `id` visible on the fork `ancestors`, absent when the
/// account has never existed there.
pub open spec fn visible_account(
    m: Map<AccountId, AccountVersions>,
    id: AccountId,
    ancestors: Seq<Slot>,
) -> Option<Account> {
    entry_or_empty(m, id).read(ancestors)
}

/// The store's accounts after a transfer of `amount` from `from` to `to` on
/// the fork `ancestors`: both entries are created if missing, each is loaded
/// copy-on-write at the tip, and the moved balances are written back.
pub open spec fn spec_apply_accounts(
    m: Map<AccountId, AccountVersions>,
    ancestors: Seq<Slot>,
    from: AccountId,
    to: AccountId,
    amount: u64,
) -> Map<AccountId, AccountVersions> {
    let tip = ancestors.last();
    let m1 = spec_ensure_ids(m, seq![from, to]);
    let debited = spec_set(
        spec_load(m1[from], ancestors),
        Account { balance: (loaded_value(m1[from], ancestors).balance - amount) as u64 },
        tip,
    );
    let m2 = m1.insert(from, debited);
    let credited = spec_set(
        spec_load(m2[to], ancestors),
        Account { balance: (loaded_value(m2[to], ancestors).balance + amount) as u64 },
        tip,
    );
    m2.insert(to, credited)
}

/// A single fork: its tip slot and the ancestor chain from genesis to it.
pub struct Bank {
    pub slot: Slot,
    pub ancestors: Vec<Slot>,
}

impl Bank {
    /// A well-formed fork view: the chain starts at genesis, ascends
    /// strictly and ends at this bank's slot.
    pub open spec fn wf(self) -> bool {
        &&& self.ancestors@.len() > 0
        &&& self.ancestors@.first() == 0
        &&& self.ancestors@.last() == self.slot
        &&& slots_ascending(self.ancestors@)
    }

    /// The genesis fork paired with a fresh store.
    pub fn genesis_bank() -> (r: (Bank, AccountsDb))
        ensures
            r.0.wf(),
            r.0.slot == 0,
            r.0.ancestors@ == seq![0u64],
            r.1.inv(),
            r.1@.finalized_slot == 0,
            r.1@.shared_locks == Seq::<AccountId>::empty(),
            r.1@.exclusive_locks == Seq::<AccountId>::empty(),
            r.1@.accounts == Map::<AccountId, AccountVersions>::empty().insert(
                0,
                (AccountVersions {
                    finalized: Some(Account { balance: crate::GENESIS_SUPPLY }),
                    inflight: Seq::empty(),
                }),
            ),
    {
        let mut ancestors: Vec<Slot> = Vec::new();
        ancestors.push(0);
        proof {
            assert(ancestors@ =~= seq![0u64]);
        }
        (Bank { slot: 0, ancestors }, AccountsDb::genesis_database())
    }

    /// The value of `account_id` visible on this fork, if any.
    pub fn get_account(&self, db: &AccountsDb, account_id: AccountId) -> (r: Option<Account>)
        ensures
            r == visible_account(db@.accounts, account_id, self.ancestors@),
    {
        match db.get_versioned_account(account_id) {
            Some(stored_account) => stored_account.get_account(&self.ancestors),
            None => None,
        }
    }

    /// A child fork one slot further: the same store is shared, and the
    /// child's ancestors are the parent's extended by the child's slot.
    pub fn new_from_parent(&self, slot: Slot) -> (r: Bank)
        requires
            self.wf(),
            slot > self.slot,
        ensures
            r.wf(),
            r.slot == slot,
            r.ancestors@ == self.ancestors@.push(slot),
    {
        let mut ancestors = copy_ids(&self.ancestors);
        ancestors.push(slot);
        let r = Bank { slot, ancestors };
        proof {
            assert forall|i: int, j: int|
                0 <= i < j < r.ancestors@.len() implies r.ancestors@[i] < r.ancestors@[j] by {
                if j < r.ancestors@.len() - 1 {
                    assert(self.ancestors@[i] < self.ancestors@[j]);
                } else if i < self.ancestors@.len() - 1 {
                    assert(self.ancestors@[i] < self.ancestors@[self.ancestors@.len() - 1]);
                }
            }
        }
        r
    }

    /// Finalize this fork: its tip becomes the new finalized slot, its edits
    /// the new baseline; losing siblings at or below the tip are pruned.
    pub fn finalize(&self, db: &mut AccountsDb)
        requires
            old(db).inv(),
            self.ancestors@.len() > 0,
        ensures
            final(db).inv(),
            final(db)@ == spec_finalize_db(old(db)@, self.ancestors@),
    {
        db.finalize(&self.ancestors);
    }

    /// Apply a transfer on this fork: lock the two accounts exclusively,
    /// load their working copies at the tip, move `amount` across, write the
    /// results back and release the locks. The caller keeps the two
    /// accounts distinct and unlocked, stays at or above the finalized
    /// slot, and covers the transfer: a debit below zero or a credit above
    /// the balance limit is a caller bug, not a recoverable error.
    pub fn apply(&self, db: &mut AccountsDb, tx: &Transaction)
        requires
            old(db).inv(),
            self.wf(),
            tx.from != tx.to,
            !old(db)@.shared_locks.contains(tx.from),
            !old(db)@.shared_locks.contains(tx.to),
            !old(db)@.exclusive_locks.contains(tx.from),
            !old(db)@.exclusive_locks.contains(tx.to),
            slot_above_finalized(old(db)@.finalized_slot, self.slot),
            forall|k: int|
                old(db)@.accounts.dom().contains(tx.from) && 0 <= k
                    < old(db)@.accounts[tx.from].inflight.len() ==> (#[trigger] old(db)@.accounts[tx.from].inflight[k]).0 <= self.slot,
            forall|k: int|
                old(db)@.accounts.dom().contains(tx.to) && 0 <= k
                    < old(db)@.accounts[tx.to].inflight.len() ==> (#[trigger] old(db)@.accounts[tx.to].inflight[k]).0 <= self.slot,
            loaded_value(entry_or_empty(old(db)@.accounts, tx.from), self.ancestors@).balance
                >= tx.amount,
            loaded_value(entry_or_empty(old(db)@.accounts, tx.to), self.ancestors@).balance
                + tx.amount <= u64::MAX,
        ensures
            final(db).inv(),
            final(db)@.finalized_slot == old(db)@.finalized_slot,
            final(db)@.shared_locks == old(db)@.shared_locks,
            final(db)@.exclusive_locks == old(db)@.exclusive_locks,
            final(db)@.accounts == spec_apply_accounts(
                old(db)@.accounts,
                self.ancestors@,
                tx.from,
                tx.to,
                tx.amount,
            ),
            visible_account(final(db)@.accounts, tx.from, self.ancestors@) == Some(
                Account {
                    balance: (loaded_value(
                        entry_or_empty(old(db)@.accounts, tx.from),
                        self.ancestors@,
                    ).balance - tx.amount) as u64,
                },
            ),
            visible_account(final(db)@.accounts, tx.to, self.ancestors@) == Some(
                Account {
                    balance: (loaded_value(
                        entry_or_empty(old(db)@.accounts, tx.to),
                        self.ancestors@,
                    ).balance + tx.amount) as u64,
                },
            ),
            forall|id: AccountId|
                id != tx.from && id != tx.to && old(db)@.accounts.dom().contains(id) ==> final(db)@.accounts[id] == #[trigger] old(db)@.accounts[id],
    {
        let read_ids: Vec<AccountId> = Vec::new();
        let mut write_ids: Vec<AccountId> = Vec::new();
        write_ids.push(tx.from);
        write_ids.push(tx.to);
        let ghost writes = write_ids@;
        proof {
            assert(writes =~= seq![tx.from, tx.to]);
            assert forall|k: int|
                0 <= k < writes.len() implies !old(db)@.exclusive_locks.contains(
                #[trigger] writes[k],
            ) && !old(db)@.shared_locks.contains(writes[k]) && !read_ids@.contains(writes[k]) by {
                assert(writes[0] == tx.from && writes[1] == tx.to);
            }
            assert(writes.no_duplicates());
            assert(acquire_ok(
                old(db)@.shared_locks,
                old(db)@.exclusive_locks,
                read_ids@,
                writes,
            ));
        }
        let locked = match db.load_versioned_accounts(&read_ids, &write_ids) {
            Ok(locked) => locked,
            Err(_) => unreached(),
        };
        let ghost m1 = db@.accounts;
        proof {
            lemma_ensure_ids_effect(old(db)@.accounts, read_ids@ + writes);
            assert(read_ids@ + writes =~= writes);
            assert((read_ids@ + writes).to_set().contains(tx.from)) by {
                assert((read_ids@ + writes)[0] == tx.from);
            }
            assert((read_ids@ + writes).to_set().contains(tx.to)) by {
                assert((read_ids@ + writes)[1] == tx.to);
            }
            assert(m1[tx.from] == entry_or_empty(old(db)@.accounts, tx.from));
            assert(m1[tx.to] == entry_or_empty(old(db)@.accounts, tx.to));
            assert(db@.exclusive_locks.contains(tx.from)) by {
                assert(db@.exclusive_locks[old(db)@.exclusive_locks.len() as int] == tx.from);
            }
            assert(db@.exclusive_locks.contains(tx.to)) by {
                assert(db@.exclusive_locks[old(db)@.exclusive_locks.len() as int + 1] == tx.to);
            }
            assert(locked.write_ids@.contains(tx.from)) by {
                assert(locked.write_ids@[0] == tx.from);
            }
            assert(locked.write_ids@.contains(tx.to)) by {
                assert(locked.write_ids@[1] == tx.to);
            }
        }
        let from_value = db.load_account(&locked, tx.from, &self.ancestors);
        proof {
            let loaded = spec_load(m1[tx.from], self.ancestors@);
            assert forall|k: int| 0 <= k < loaded.inflight.len() implies (
            #[trigger] loaded.inflight[k]).0 <= self.slot by {
                if k < m1[tx.from].inflight.len() {
                    assert(loaded.inflight[k] == m1[tx.from].inflight[k]);
                }
            }
        }
        db.set_account(
            &locked,
            tx.from,
            Account { balance: from_value.balance - tx.amount },
            self.slot,
        );
        let ghost m2 = db@.accounts;
        let to_value = db.load_account(&locked, tx.to, &self.ancestors);
        proof {
            let loaded = spec_load(m2[tx.to], self.ancestors@);
            assert forall|k: int| 0 <= k < loaded.inflight.len() implies (
            #[trigger] loaded.inflight[k]).0 <= self.slot by {
                if k < m2[tx.to].inflight.len() {
                    assert(loaded.inflight[k] == m2[tx.to].inflight[k]);
                }
            }
        }
        db.set_account(&locked, tx.to, Account { balance: to_value.balance + tx.amount }, self.slot);
        db.release(locked);
        proof {
            assert(remove_all(old(db)@.shared_locks + read_ids@, read_ids@) == old(db)@.shared_locks) by {
                assert(old(db)@.shared_locks + read_ids@ =~= old(db)@.shared_locks);
            }
            lemma_remove_appended(old(db)@.exclusive_locks, writes);
            assert(db@.accounts =~= spec_apply_accounts(
                old(db)@.accounts,
                self.ancestors@,
                tx.from,
                tx.to,
                tx.amount,
            )) by {
                assert(seq![tx.from, tx.to] =~= read_ids@ + writes);
            }
            assert(self.ancestors@.contains(self.slot)) by {
                assert(self.ancestors@[self.ancestors@.len() - 1] == self.slot);
            }
            lemma_write_read(
                spec_load(m1[tx.from], self.ancestors@),
                Account {
                    balance: (loaded_value(m1[tx.from], self.ancestors@).balance
                        - tx.amount) as u64,
                },
                self.slot,
                self.ancestors@,
            );
            lemma_write_read(
                spec_load(m2[tx.to], self.ancestors@),
                Account {
                    balance: (loaded_value(m2[tx.to], self.ancestors@).balance + tx.amount) as u64,
                },
                self.slot,
                self.ancestors@,
            );
        }
    }
}

/// Fork isolation: a transfer applied on one fork leaves what any fork that
/// does not include the applying fork's tip reads — of every account —
/// exactly as it was.
pub proof fn lemma_apply_isolated(
    m: Map<AccountId, AccountVersions>,
    ancestors: Seq<Slot>,
    from: AccountId,
    to: AccountId,
    amount: u64,
    other: Seq<Slot>,
    id: AccountId,
)
    requires
        ancestors.len() > 0,
        !other.contains(ancestors.last()),
        from != to,
    ensures
        visible_account(spec_apply_accounts(m, ancestors, from, to, amount), id, other)
            == visible_account(m, id, other),
{
    let tip = ancestors.last();
    let m1 = spec_ensure_ids(m, seq![from, to]);
    lemma_ensure_ids_effect(m, seq![from, to]);
    let applied = spec_apply_accounts(m, ancestors, from, to, amount);
    if id == from || id == to {
        assert(seq![from, to].to_set().contains(id)) by {
            if id == from {
                assert(seq![from, to][0] == id);
            } else {
                assert(seq![from, to][1] == id);
            }
        }
        assert(m1[id] == entry_or_empty(m, id));
        let before = if id == from {
            m1[from]
        } else {
            m1.insert(from, applied[from])[to]
        };
        assert(before == entry_or_empty(m, id));
        let value = if id == from {
            (loaded_value(m1[from], ancestors).balance - amount) as u64
        } else {
            (loaded_value(m1.insert(from, applied[from])[to], ancestors).balance + amount) as u64
        };
        assert(applied[id] == spec_set(
            spec_load(before, ancestors),
            Account { balance: value },
            tip,
        ));
        lemma_load_isolated(before, ancestors, other);
        lemma_write_isolated(spec_load(before, ancestors), Account { balance: value }, tip, other);
        assert(applied[id].read(other) == entry_or_empty(m, id).read(other));
    } else {
        if m.dom().contains(id) {
            assert(applied[id] == m[id]);
        } else {
            assert(!applied.dom().contains(id)) by {
                assert(!seq![from, to].to_set().contains(id)) by {
                    if seq![from, to].to_set().contains(id) {
                        let j = choose|j: int|
                            0 <= j < seq![from, to].len() && seq![from, to][j] == id;
                        assert(j == 0 || j == 1);
                    }
                }
            }
        }
    }
}


} // verus!
