//! Process-wide mapping from account identifier to versioned account:
//! lazy account creation, bulk non-blocking lock acquisition of a
//! transaction's read- and write-set, and the finalize procedure that
//! promotes a winning fork's edits and prunes losing siblings.
//!
//! The entries live in a `dashmap::DashMap`, the sharded concurrent map the
//! store is built on; its contents are reasoned about through the abstract
//! map [`dash_contents`].

use vstd::prelude::*;
use vstd::pervasive::unreached;
use vstd::seq_lib::seq_to_set_is_finite;

use crate::versioned_account::{
    contains_value, lemma_collapse_pruned, lemma_finalize_preserves_winner_read,
    lemma_sibling_pruned, loaded_value, spec_collapse_entry, spec_load, spec_set, AccountVersions,
    VersionedAccount,
};
use crate::{Account, AccountId, Slot, GENESIS_SUPPLY};

verus! {

/// The one recoverable failure the store surfaces: some account of the
/// requested working set is already held incompatibly.
#[derive(Debug)]
pub enum LoadError {
    OneOrMoreAccountsLocked,
}

#[verifier::external_type_specification]
#[verifier::external_body]
#[verifier::reject_recursive_types(K)]
#[verifier::reject_recursive_types(V)]
#[verifier::reject_recursive_types(S)]
pub struct ExDashMap<K, V, S>(dashmap::DashMap<K, V, S>);

/// What the concurrent map holds, as a mathematical map from account
/// identifier to the model of its versioned account.
pub uninterp spec fn dash_contents(
    m: dashmap::DashMap<AccountId, VersionedAccount>,
) -> Map<AccountId, AccountVersions>;

/// The contents of a store no account has ever been inserted into.
pub open spec fn no_accounts() -> Map<AccountId, AccountVersions> {
    Map::empty()
}

/// Relies on dashmap::DashMap::new: a freshly created map has no entries.
#[verifier::external_body]
fn dash_new() -> (m: dashmap::DashMap<AccountId, VersionedAccount>)
    ensures
        dash_contents(m) == no_accounts(),
{
    dashmap::DashMap::new()
}

/// Relies on dashmap::DashMap::insert: maps the key to the given value,
/// replacing any previous entry.
#[verifier::external_body]
fn dash_insert(
    m: &mut dashmap::DashMap<AccountId, VersionedAccount>,
    key: AccountId,
    value: VersionedAccount,
)
    ensures
        dash_contents(*final(m)) == dash_contents(*old(m)).insert(key, value@),
{
    m.insert(key, value);
}

/// Relies on dashmap::DashMap::get: returns the entry mapped to the key, if
/// one exists (cloned out of the shared guard).
#[verifier::external_body]
fn dash_get(m: &dashmap::DashMap<AccountId, VersionedAccount>, key: AccountId) -> (r: Option<
    VersionedAccount,
>)
    ensures
        match r {
            Some(v) => dash_contents(*m).dom().contains(key) && v@ == dash_contents(*m)[key],
            None => !dash_contents(*m).dom().contains(key),
        },
{
    match m.get(&key) {
        Some(entry) => Some(entry.value().clone()),
        None => None,
    }
}

/// Relies on dashmap::DashMap::entry and Entry::or_default: atomically
/// inserts a fresh empty versioned account only if the key has no entry
/// yet, so a concurrent race can never clobber a live entry.
#[verifier::external_body]
fn dash_ensure(m: &mut dashmap::DashMap<AccountId, VersionedAccount>, key: AccountId)
    ensures
        dash_contents(*final(m)) == (if dash_contents(*old(m)).dom().contains(key) {
            dash_contents(*old(m))
        } else {
            dash_contents(*old(m)).insert(key, AccountVersions::empty())
        }),
{
    m.entry(key).or_default();
}

/// A slot at which an inflight edit may legitimately sit: strictly above the
/// finalized slot, except that genesis-slot edits are possible while nothing
/// has been finalized yet.
pub open spec fn slot_above_finalized(finalized_slot: Slot, slot: Slot) -> bool {
    slot > finalized_slot || (slot == 0 && finalized_slot == 0)
}

/// The mathematical model of the whole store.
#[verifier::ext_equal]
pub ghost struct DbView {
    /// The most recently finalized slot; monotonically non-decreasing.
    pub finalized_slot: Slot,
    /// The versioned account of every identifier ever referenced.
    pub accounts: Map<AccountId, AccountVersions>,
    /// Identifiers currently held shared, one element per live handle.
    pub shared_locks: Seq<AccountId>,
    /// Identifiers currently held exclusively.
    pub exclusive_locks: Seq<AccountId>,
}

/// The store's invariant, stated over its model: every inflight queue is
/// strictly increasing, no inflight slot lags the finalized slot, and the
/// lock table is consistent.
pub open spec fn view_inv(d: DbView) -> bool {
    &&& forall|id: AccountId| d.accounts.dom().contains(id) ==> (#[trigger] d.accounts[id]).wf()
    &&& forall|id: AccountId, k: int|
        d.accounts.dom().contains(id) && 0 <= k < d.accounts[id].inflight.len()
            ==> slot_above_finalized(d.finalized_slot, (#[trigger] d.accounts[id].inflight[k]).0)
    &&& d.accounts.dom().finite()
    &&& d.exclusive_locks.no_duplicates()
    &&& forall|x: AccountId|
        !(#[trigger] d.shared_locks.contains(x) && d.exclusive_locks.contains(x))
    &&& forall|x: AccountId| #[trigger]
        d.shared_locks.contains(x) ==> d.accounts.dom().contains(x)
    &&& forall|x: AccountId| #[trigger]
        d.exclusive_locks.contains(x) ==> d.accounts.dom().contains(x)
}

/// The fork-aware accounts store.
pub struct AccountsDb {
    finalized_slot: Slot,
    account_ids: Vec<AccountId>,
    shared_locks: Vec<AccountId>,
    exclusive_locks: Vec<AccountId>,
    accounts: dashmap::DashMap<AccountId, VersionedAccount>,
}

impl View for AccountsDb {
    type V = DbView;

    closed spec fn view(&self) -> DbView {
        DbView {
            finalized_slot: self.finalized_slot,
            accounts: dash_contents(self.accounts),
            shared_locks: self.shared_locks@,
            exclusive_locks: self.exclusive_locks@,
        }
    }
}

impl AccountsDb {
    /// The identifier roster mirrors the map's domain exactly.
    pub closed spec fn ids_ok(self) -> bool {
        &&& self.account_ids@.no_duplicates()
        &&& self.account_ids@.to_set() == dash_contents(self.accounts).dom()
    }

    pub open spec fn inv(self) -> bool {
        &&& view_inv(self@)
        &&& self.ids_ok()
    }

    /// A store holding only the genesis treasury: account 0 finalized with
    /// the genesis supply, nothing inflight, nothing locked.
    pub fn genesis_database() -> (db: AccountsDb)
        ensures
            db.inv(),
            db@.finalized_slot == 0,
            db@.shared_locks == Seq::<AccountId>::empty(),
            db@.exclusive_locks == Seq::<AccountId>::empty(),
            db@.accounts == Map::<AccountId, AccountVersions>::empty().insert(
                0,
                (AccountVersions {
                    finalized: Some(Account { balance: GENESIS_SUPPLY }),
                    inflight: Seq::empty(),
                }),
            ),
    {
        let mut accounts = dash_new();
        dash_insert(
            &mut accounts,
            0,
            VersionedAccount::with_finalized(Account { balance: GENESIS_SUPPLY }),
        );
        let mut account_ids: Vec<AccountId> = Vec::new();
        account_ids.push(0);
        let db = AccountsDb {
            finalized_slot: 0,
            account_ids,
            shared_locks: Vec::new(),
            exclusive_locks: Vec::new(),
            accounts,
        };
        proof {
            assert(db.account_ids@.len() == 1 && db.account_ids@[0] == 0);
            assert forall|y: AccountId|
                db.account_ids@.to_set().contains(y)
                    <==> dash_contents(db.accounts).dom().contains(y) by {
                if dash_contents(db.accounts).dom().contains(y) {
                    assert(db.account_ids@[0] == y);
                }
            }
            assert(db.account_ids@.to_set() =~= dash_contents(db.accounts).dom());
            seq_to_set_is_finite(db.account_ids@);
        }
        db
    }

    /// If the store has no entry for `account_id`, atomically insert a fresh
    /// empty versioned account. Idempotent: an existing entry is never
    /// clobbered.
    pub fn initialize_empty_versioned_account(&mut self, account_id: AccountId)
        requires
            old(self).inv(),
        ensures
            final(self).inv(),
            final(self)@.accounts == spec_ensure_one(old(self)@.accounts, account_id),
            final(self)@.finalized_slot == old(self)@.finalized_slot,
            final(self)@.shared_locks == old(self)@.shared_locks,
            final(self)@.exclusive_locks == old(self)@.exclusive_locks,
    {
        dash_ensure(&mut self.accounts, account_id);
        if !contains_value(&self.account_ids, account_id) {
            proof {
                assert(!self.account_ids@.to_set().contains(account_id));
            }
            self.account_ids.push(account_id);
            proof {
                old(self).account_ids@.lemma_push_to_set_commute(account_id);
                assert(self.account_ids@.to_set() =~= old(self).account_ids@.to_set().insert(
                    account_id,
                ));
                assert(self.account_ids@.to_set() =~= dash_contents(self.accounts).dom());
                seq_to_set_is_finite(self.account_ids@);
            }
        } else {
            proof {
                assert(self.account_ids@.to_set().contains(account_id));
            }
        }
        proof {
            assert forall|x: AccountId|
                self@.shared_locks.contains(x) implies self@.accounts.dom().contains(x) by {
                assert(old(self)@.shared_locks.contains(x));
                assert(old(self)@.accounts.dom().contains(x));
            }
            assert forall|x: AccountId|
                self@.exclusive_locks.contains(x) implies self@.accounts.dom().contains(x) by {
                assert(old(self)@.exclusive_locks.contains(x));
                assert(old(self)@.accounts.dom().contains(x));
            }
            assert forall|x: AccountId|
                !(self@.shared_locks.contains(x) && self@.exclusive_locks.contains(x)) by {
                assert(!(old(self)@.shared_locks.contains(x) && old(self)@.exclusive_locks.contains(
                    x,
                )));
            }
        }
    }

    /// The most recently finalized slot.
    pub fn finalized_slot(&self) -> (s: Slot)
        ensures
            s == self@.finalized_slot,
    {
        self.finalized_slot
    }

    /// The number of accounts the store has ever seen.
    pub fn account_count(&self) -> (n: usize)
        requires
            self.inv(),
        ensures
            n == self@.accounts.dom().len(),
    {
        proof {
            self.account_ids@.unique_seq_to_set();
        }
        self.account_ids.len()
    }

    /// Single-account lookup: a snapshot of the versioned account stored
    /// under `account_id`, if the store has ever seen that identifier.
    pub fn get_versioned_account(&self, account_id: AccountId) -> (r: Option<VersionedAccount>)
        ensures
            match r {
                Some(v) => self@.accounts.dom().contains(account_id) && v@
                    == self@.accounts[account_id],
                None => !self@.accounts.dom().contains(account_id),
            },
    {
        dash_get(&self.accounts, account_id)
    }
}

/// Lazy creation of a single entry: insert an empty versioned account only
/// where the identifier is new.
pub open spec fn spec_ensure_one(m: Map<AccountId, AccountVersions>, id: AccountId) -> Map<
    AccountId,
    AccountVersions,
> {
    if m.dom().contains(id) {
        m
    } else {
        m.insert(id, AccountVersions::empty())
    }
}

/// Lazy creation of every entry of a working set, in order.
pub open spec fn spec_ensure_ids(m: Map<AccountId, AccountVersions>, ids: Seq<AccountId>) -> Map<
    AccountId,
    AccountVersions,
>
    decreases ids.len(),
{
    if ids.len() == 0 {
        m
    } else {
        spec_ensure_one(spec_ensure_ids(m, ids.drop_last()), ids.last())
    }
}

/// A transaction's locked working set: the handles a successful bulk
/// acquisition returns. The locks stay held until the set is handed back to
/// [`AccountsDb::release`].
pub struct LockedAccounts {
    pub read_ids: Vec<AccountId>,
    pub write_ids: Vec<AccountId>,
}

/// Whether a read-set and a write-set can be locked given the handles
/// currently held: shared access conflicts with an exclusive holder;
/// exclusive access conflicts with every holder, with the request's own
/// read-set and with a duplicate in its write-set.
pub open spec fn acquire_ok(
    shared: Seq<AccountId>,
    exclusive: Seq<AccountId>,
    reads: Seq<AccountId>,
    writes: Seq<AccountId>,
) -> bool {
    &&& forall|k: int| 0 <= k < reads.len() ==> !exclusive.contains(#[trigger] reads[k])
    &&& forall|k: int|
        0 <= k < writes.len() ==> !exclusive.contains(#[trigger] writes[k]) && !shared.contains(
            writes[k],
        ) && !reads.contains(writes[k])
    &&& writes.no_duplicates()
}

/// Whether the first `end` elements of the vector hold the given value.
fn contains_value_up_to(values: &Vec<u64>, end: usize, x: u64) -> (r: bool)
    requires
        end <= values@.len(),
    ensures
        r == values@.take(end as int).contains(x),
{
    let mut i: usize = 0;
    while i < end
        invariant
            i <= end <= values@.len(),
            forall|j: int| 0 <= j < i ==> values@[j] != x,
        decreases end - i,
    {
        if values[i] == x {
            assert(values@.take(end as int)[i as int] == x);
            return true;
        }
        i += 1;
    }
    proof {
        assert forall|j: int| 0 <= j < end implies values@.take(end as int)[j] != x by {
            assert(values@[j] != x);
        }
    }
    false
}

/// A copy of an identifier list, element for element.
pub(crate) fn copy_ids(values: &Vec<AccountId>) -> (r: Vec<AccountId>)
    ensures
        r@ == values@,
{
    let mut r: Vec<AccountId> = Vec::new();
    let mut i: usize = 0;
    while i < values.len()
        invariant
            i <= values@.len(),
            r@ == values@.take(i as int),
        decreases values@.len() - i,
    {
        r.push(values[i]);
        proof {
            assert(values@.take(i as int + 1) =~= values@.take(i as int).push(values@[i as int]));
        }
        i += 1;
    }
    proof {
        assert(values@.take(values@.len() as int) =~= values@);
    }
    r
}

/// Two duplicate-free sequences with no element in common concatenate to a
/// duplicate-free sequence.
proof fn lemma_concat_no_duplicates(a: Seq<AccountId>, b: Seq<AccountId>)
    requires
        a.no_duplicates(),
        b.no_duplicates(),
        forall|k: int| 0 <= k < b.len() ==> !a.contains(#[trigger] b[k]),
    ensures
        (a + b).no_duplicates(),
{
    let c = a + b;
    assert forall|i: int, j: int|
        0 <= i < c.len() && 0 <= j < c.len() && i != j implies c[i] != c[j] by {
        if i < a.len() && j < a.len() {
        } else if i >= a.len() && j >= a.len() {
        } else if i < a.len() && j >= a.len() {
            if c[i] == c[j] {
                assert(a.contains(b[j - a.len()])) by {
                    assert(a[i] == b[j - a.len()]);
                }
            }
        } else {
            if c[i] == c[j] {
                assert(a.contains(b[i - a.len()])) by {
                    assert(a[j] == b[i - a.len()]);
                }
            }
        }
    }
}

impl AccountsDb {
    /// Bulk-acquire a transaction's working set: ensure an entry for every
    /// requested identifier, then take a shared lock on each read id and an
    /// exclusive lock on each write id. Non-blocking and all-or-nothing: if
    /// any account is already held incompatibly, `Locked` comes back and no
    /// lock is taken (the fresh empty entries remain).
    pub fn load_versioned_accounts(
        &mut self,
        read_account_ids: &Vec<AccountId>,
        write_account_ids: &Vec<AccountId>,
    ) -> (r: Result<LockedAccounts, LoadError>)
        requires
            old(self).inv(),
        ensures
            final(self).inv(),
            final(self)@.finalized_slot == old(self)@.finalized_slot,
            final(self)@.accounts == spec_ensure_ids(
                old(self)@.accounts,
                read_account_ids@ + write_account_ids@,
            ),
            r is Ok <==> acquire_ok(
                old(self)@.shared_locks,
                old(self)@.exclusive_locks,
                read_account_ids@,
                write_account_ids@,
            ),
            r matches Ok(locked) ==> locked.read_ids@ == read_account_ids@ && locked.write_ids@
                == write_account_ids@ && final(self)@.shared_locks == old(self)@.shared_locks
                + read_account_ids@ && final(self)@.exclusive_locks == old(self)@.exclusive_locks
                + write_account_ids@,
            r is Err ==> final(self)@.shared_locks == old(self)@.shared_locks
                && final(self)@.exclusive_locks == old(self)@.exclusive_locks,

    {
        let ghost reads = read_account_ids@;
        let ghost writes = write_account_ids@;
        let ghost all = reads + writes;

        let mut k: usize = 0;
        while k < read_account_ids.len()
            invariant
                old(self).inv(),
                k <= reads.len(),
                reads == read_account_ids@,
                self.inv(),
                self@.finalized_slot == old(self)@.finalized_slot,
                self@.shared_locks == old(self)@.shared_locks,
                self@.exclusive_locks == old(self)@.exclusive_locks,
                self@.accounts == spec_ensure_ids(old(self)@.accounts, reads.take(k as int)),
            decreases reads.len() - k,
        {
            self.initialize_empty_versioned_account(read_account_ids[k]);
            proof {
                assert(reads.take(k as int + 1).drop_last() =~= reads.take(k as int));
                assert(reads.take(k as int + 1).last() == reads[k as int]);
            }
            k += 1;
        }
        proof {
            assert(reads.take(reads.len() as int) =~= reads);
        }
        let mut k: usize = 0;
        while k < write_account_ids.len()
            invariant
                old(self).inv(),
                k <= writes.len(),
                reads == read_account_ids@,
                writes == write_account_ids@,
                self.inv(),
                self@.finalized_slot == old(self)@.finalized_slot,
                self@.shared_locks == old(self)@.shared_locks,
                self@.exclusive_locks == old(self)@.exclusive_locks,
                self@.accounts == spec_ensure_ids(
                    old(self)@.accounts,
                    reads + writes.take(k as int),
                ),
            decreases writes.len() - k,
        {
            self.initialize_empty_versioned_account(write_account_ids[k]);
            proof {
                assert((reads + writes.take(k as int + 1)).drop_last() =~= reads + writes.take(
                    k as int,
                ));
                assert((reads + writes.take(k as int + 1)).last() == writes[k as int]);
            }
            k += 1;
        }
        proof {
            assert(reads + writes.take(writes.len() as int) =~= reads + writes);
        }
        let mut k: usize = 0;
        while k < read_account_ids.len()
            invariant
                old(self).inv(),
                k <= reads.len(),
                reads == read_account_ids@,
                writes == write_account_ids@,
                self.inv(),
                self@.finalized_slot == old(self)@.finalized_slot,
                self@.shared_locks == old(self)@.shared_locks,
                self@.exclusive_locks == old(self)@.exclusive_locks,
                self@.accounts == spec_ensure_ids(old(self)@.accounts, reads + writes),
                forall|j: int| 0 <= j < k ==> !self@.exclusive_locks.contains(#[trigger] reads[j]),
            decreases reads.len() - k,
        {
            if contains_value(&self.exclusive_locks, read_account_ids[k]) {
                return Err(LoadError::OneOrMoreAccountsLocked);
            }
            k += 1;
        }
        let mut k: usize = 0;
        while k < write_account_ids.len()
            invariant
                old(self).inv(),
                k <= writes.len(),
                reads == read_account_ids@,
                writes == write_account_ids@,
                self.inv(),
                self@.finalized_slot == old(self)@.finalized_slot,
                self@.shared_locks == old(self)@.shared_locks,
                self@.exclusive_locks == old(self)@.exclusive_locks,
                self@.accounts == spec_ensure_ids(old(self)@.accounts, reads + writes),
                forall|j: int| 0 <= j < reads.len() ==> !self@.exclusive_locks.contains(
                    #[trigger] reads[j],
                ),
                forall|j: int|
                    0 <= j < k ==> !self@.exclusive_locks.contains(#[trigger] writes[j])
                        && !self@.shared_locks.contains(writes[j]) && !reads.contains(writes[j]),
                forall|i: int, j: int| 0 <= i < j < k ==> writes[i] != writes[j],
            decreases writes.len() - k,
        {
            let w = write_account_ids[k];
            if contains_value(&self.exclusive_locks, w) {
                return Err(LoadError::OneOrMoreAccountsLocked);
            }
            if contains_value(&self.shared_locks, w) {
                return Err(LoadError::OneOrMoreAccountsLocked);
            }
            if contains_value(read_account_ids, w) {
                return Err(LoadError::OneOrMoreAccountsLocked);
            }
            if contains_value_up_to(write_account_ids, k, w) {
                proof {
                    let i = choose|i: int|
                        0 <= i < writes.take(k as int).len() && writes.take(k as int)[i] == w;
                    assert(writes[i] == writes[k as int]);
                    assert(!writes.no_duplicates());
                }
                return Err(LoadError::OneOrMoreAccountsLocked);
            }
            proof {
                assert forall|i: int| 0 <= i < k implies writes[i] != writes[k as int] by {
                    assert(writes.take(k as int)[i] == writes[i]);
                    if writes[i] == writes[k as int] {
                        assert(writes.take(k as int).contains(writes[k as int]));
                    }
                }
            }
            k += 1;
        }
        proof {
            assert(writes.no_duplicates()) by {
                assert forall|i: int, j: int|
                    0 <= i < writes.len() && 0 <= j < writes.len() && i != j implies writes[i]
                    != writes[j] by {
                    if i < j {
                    } else {
                        assert(writes[j] != writes[i]);
                    }
                }
            }
            assert(acquire_ok(
                old(self)@.shared_locks,
                old(self)@.exclusive_locks,
                reads,
                writes,
            ));
        }
        let ghost old_shared = self@.shared_locks;
        let ghost old_exclusive = self@.exclusive_locks;
        let mut k: usize = 0;
        while k < read_account_ids.len()
            invariant
                k <= reads.len(),
                reads == read_account_ids@,
                self.shared_locks@ == old_shared + reads.take(k as int),
                self.exclusive_locks@ == old_exclusive,
                self.finalized_slot == old(self)@.finalized_slot,
                self.ids_ok(),
                self@.accounts == spec_ensure_ids(old(self)@.accounts, reads + writes),
            decreases reads.len() - k,
        {
            self.shared_locks.push(read_account_ids[k]);
            proof {
                assert(old_shared + reads.take(k as int + 1) =~= (old_shared + reads.take(
                    k as int,
                )).push(reads[k as int]));
            }
            k += 1;
        }
        proof {
            assert(old_shared + reads.take(reads.len() as int) =~= old_shared + reads);
        }
        let mut k: usize = 0;
        while k < write_account_ids.len()
            invariant
                k <= writes.len(),
                writes == write_account_ids@,
                self.shared_locks@ == old_shared + reads,
                self.exclusive_locks@ == old_exclusive + writes.take(k as int),
                self.finalized_slot == old(self)@.finalized_slot,
                self.ids_ok(),
                self@.accounts == spec_ensure_ids(old(self)@.accounts, reads + writes),
            decreases writes.len() - k,
        {
            self.exclusive_locks.push(write_account_ids[k]);
            proof {
                assert(old_exclusive + writes.take(k as int + 1) =~= (old_exclusive + writes.take(
                    k as int,
                )).push(writes[k as int]));
            }
            k += 1;
        }
        proof {
            assert(old_exclusive + writes.take(writes.len() as int) =~= old_exclusive + writes);
            broadcast use vstd::seq_lib::lemma_seq_concat_contains_all_elements;

            lemma_ensure_ids_effect(old(self)@.accounts, all);
            assert forall|j: int| 0 <= j < writes.len() implies !old_exclusive.contains(
                #[trigger] writes[j],
            ) by {}
            lemma_concat_no_duplicates(old_exclusive, writes);
            assert forall|x: AccountId|
                self@.shared_locks.contains(x) implies self@.accounts.dom().contains(x) by {
                if old_shared.contains(x) {
                    assert(old(self)@.accounts.dom().contains(x));
                } else {
                    let j = choose|j: int| 0 <= j < reads.len() && reads[j] == x;
                    assert(all[j] == x);
                    assert(all.to_set().contains(x));
                }
            }
            assert forall|x: AccountId|
                self@.exclusive_locks.contains(x) implies self@.accounts.dom().contains(x) by {
                if old_exclusive.contains(x) {
                    assert(old(self)@.accounts.dom().contains(x));
                } else {
                    let j = choose|j: int| 0 <= j < writes.len() && writes[j] == x;
                    assert(all[reads.len() + j] == x);
                    assert(all.to_set().contains(x));
                }
            }
            assert forall|x: AccountId|
                !(self@.shared_locks.contains(x) && self@.exclusive_locks.contains(x)) by {
                if self@.shared_locks.contains(x) && self@.exclusive_locks.contains(x) {
                    if old_shared.contains(x) {
                        if old_exclusive.contains(x) {
                            assert(!(old(self)@.shared_locks.contains(x)
                                && old(self)@.exclusive_locks.contains(x)));
                        } else {
                            let j = choose|j: int| 0 <= j < writes.len() && writes[j] == x;
                            assert(!old_shared.contains(writes[j]));
                        }
                    } else {
                        let i = choose|i: int| 0 <= i < reads.len() && reads[i] == x;
                        if old_exclusive.contains(x) {
                            assert(!old_exclusive.contains(reads[i]));
                        } else {
                            let j = choose|j: int| 0 <= j < writes.len() && writes[j] == x;
                            assert(!reads.contains(writes[j]));
                            assert(reads[i] == x);
                        }
                    }
                }
            }
        }
        Ok(
            LockedAccounts {
                read_ids: copy_ids(read_account_ids),
                write_ids: copy_ids(write_account_ids),
            },
        )
    }
}

/// A lock table with the first occurrence of `x` removed; unchanged when no
/// occurrence exists.
pub open spec fn remove_first(s: Seq<AccountId>, x: AccountId) -> Seq<AccountId>
    decreases s.len(),
{
    if s.len() == 0 {
        s
    } else if s.first() == x {
        s.drop_first()
    } else {
        seq![s.first()] + remove_first(s.drop_first(), x)
    }
}

/// A lock table after handing back each of the given handles in turn.
pub open spec fn remove_all(s: Seq<AccountId>, xs: Seq<AccountId>) -> Seq<AccountId>
    decreases xs.len(),
{
    if xs.len() == 0 {
        s
    } else {
        remove_first(remove_all(s, xs.drop_last()), xs.last())
    }
}

/// Removing the first occurrence found at index `i` is removing index `i`.
proof fn lemma_remove_first_at(s: Seq<AccountId>, x: AccountId, i: int)
    requires
        0 <= i < s.len(),
        s[i] == x,
        forall|j: int| 0 <= j < i ==> s[j] != x,
    ensures
        remove_first(s, x) == s.remove(i),
    decreases i,
{
    if i == 0 {
        assert(s.remove(0) =~= s.drop_first());
    } else {
        lemma_remove_first_at(s.drop_first(), x, i - 1);
        assert(seq![s.first()] + s.drop_first().remove(i - 1) =~= s.remove(i));
    }
}

/// Removing a value that does not occur changes nothing.
proof fn lemma_remove_first_absent(s: Seq<AccountId>, x: AccountId)
    requires
        !s.contains(x),
    ensures
        remove_first(s, x) == s,
    decreases s.len(),
{
    if s.len() > 0 {
        assert(s[0] != x);
        assert(!s.drop_first().contains(x)) by {
            if s.drop_first().contains(x) {
                let j = choose|j: int|
                    0 <= j < s.drop_first().len() && s.drop_first()[j] == x;
                assert(s[j + 1] == x);
            }
        }
        lemma_remove_first_absent(s.drop_first(), x);
        assert(seq![s.first()] + s.drop_first() =~= s);
    }
}

/// Removal only drops elements: whatever remains was there before, and a
/// duplicate-free table stays duplicate-free.
proof fn lemma_remove_first_keeps(s: Seq<AccountId>, x: AccountId)
    ensures
        forall|y: AccountId| #[trigger]
            remove_first(s, x).contains(y) ==> s.contains(y),
        s.no_duplicates() ==> remove_first(s, x).no_duplicates(),
    decreases s.len(),
{
    broadcast use vstd::seq_lib::lemma_seq_concat_contains_all_elements;

    if s.len() == 0 {
    } else if s.first() == x {
        assert forall|y: AccountId| #[trigger]
            remove_first(s, x).contains(y) implies s.contains(y) by {
            let j = choose|j: int| 0 <= j < s.drop_first().len() && s.drop_first()[j] == y;
            assert(s[j + 1] == y);
        }
        assert(s.no_duplicates() ==> s.drop_first().no_duplicates());
    } else {
        lemma_remove_first_keeps(s.drop_first(), x);
        let r = seq![s.first()] + remove_first(s.drop_first(), x);
        assert forall|y: AccountId| #[trigger] r.contains(y) implies s.contains(y) by {
            if seq![s.first()].contains(y) {
                assert(s[0] == y);
            } else {
                assert(s.drop_first().contains(y));
                let j = choose|j: int|
                    0 <= j < s.drop_first().len() && s.drop_first()[j] == y;
                assert(s[j + 1] == y);
            }
        }
        if s.no_duplicates() {
            assert(s.drop_first().no_duplicates());
            assert(!s.drop_first().contains(s.first())) by {
                if s.drop_first().contains(s.first()) {
                    let j = choose|j: int|
                        0 <= j < s.drop_first().len() && s.drop_first()[j] == s.first();
                    assert(s[j + 1] == s[0]);
                }
            }
            assert(r.no_duplicates()) by {
                assert forall|i: int, j: int|
                    0 <= i < r.len() && 0 <= j < r.len() && i != j implies r[i] != r[j] by {
                    if i > 0 && j > 0 {
                        assert(r[i] == remove_first(s.drop_first(), x)[i - 1]);
                        assert(r[j] == remove_first(s.drop_first(), x)[j - 1]);
                    } else if i == 0 && j > 0 {
                        if r[i] == r[j] {
                            assert(remove_first(s.drop_first(), x).contains(s.first())) by {
                                assert(remove_first(s.drop_first(), x)[j - 1] == r[j]);
                            }
                        }
                    } else if j == 0 && i > 0 {
                        if r[i] == r[j] {
                            assert(remove_first(s.drop_first(), x).contains(s.first())) by {
                                assert(remove_first(s.drop_first(), x)[i - 1] == r[i]);
                            }
                        }
                    }
                }
            }
        }
    }
}

/// The same, over a whole working set.
proof fn lemma_remove_all_keeps(s: Seq<AccountId>, xs: Seq<AccountId>)
    ensures
        forall|y: AccountId| #[trigger]
            remove_all(s, xs).contains(y) ==> s.contains(y),
        s.no_duplicates() ==> remove_all(s, xs).no_duplicates(),
    decreases xs.len(),
{
    if xs.len() > 0 {
        lemma_remove_all_keeps(s, xs.drop_last());
        lemma_remove_first_keeps(remove_all(s, xs.drop_last()), xs.last());
    }
}

/// Remove the first occurrence of `x` from a lock table, if one exists.
fn remove_first_id(ids: &mut Vec<AccountId>, x: AccountId)
    ensures
        final(ids)@ == remove_first(old(ids)@, x),
{
    let mut i: usize = 0;
    while i < ids.len()
        invariant
            i <= ids@.len(),
            ids@ == old(ids)@,
            forall|j: int| 0 <= j < i ==> ids@[j] != x,
        decreases ids@.len() - i,
    {
        if ids[i] == x {
            ids.remove(i);
            proof {
                lemma_remove_first_at(old(ids)@, x, i as int);
            }
            return ;
        }
        i += 1;
    }
    proof {
        lemma_remove_first_absent(ids@, x);
    }
}

impl AccountsDb {
    /// Hand back a locked working set: release the shared lock of each read
    /// id and the exclusive lock of each write id. Lock release is
    /// infallible; the accounts themselves are untouched.
    pub fn release(&mut self, locked: LockedAccounts)
        requires
            old(self).inv(),
        ensures
            final(self).inv(),
            final(self)@.accounts == old(self)@.accounts,
            final(self)@.finalized_slot == old(self)@.finalized_slot,
            final(self)@.shared_locks == remove_all(old(self)@.shared_locks, locked.read_ids@),
            final(self)@.exclusive_locks == remove_all(
                old(self)@.exclusive_locks,
                locked.write_ids@,
            ),
    {
        let ghost reads = locked.read_ids@;
        let ghost writes = locked.write_ids@;
        let mut k: usize = 0;
        while k < locked.read_ids.len()
            invariant
                k <= reads.len(),
                reads == locked.read_ids@,
                self.shared_locks@ == remove_all(old(self)@.shared_locks, reads.take(k as int)),
                self.exclusive_locks@ == old(self)@.exclusive_locks,
                self.finalized_slot == old(self)@.finalized_slot,
                self.ids_ok(),
                self@.accounts == old(self)@.accounts,
            decreases reads.len() - k,
        {
            remove_first_id(&mut self.shared_locks, locked.read_ids[k]);
            proof {
                assert(reads.take(k as int + 1).drop_last() =~= reads.take(k as int));
                assert(reads.take(k as int + 1).last() == reads[k as int]);
            }
            k += 1;
        }
        proof {
            assert(reads.take(reads.len() as int) =~= reads);
        }
        let mut k: usize = 0;
        while k < locked.write_ids.len()
            invariant
                k <= writes.len(),
                writes == locked.write_ids@,
                self.shared_locks@ == remove_all(old(self)@.shared_locks, reads),
                self.exclusive_locks@ == remove_all(
                    old(self)@.exclusive_locks,
                    writes.take(k as int),
                ),
                self.finalized_slot == old(self)@.finalized_slot,
                self.ids_ok(),
                self@.accounts == old(self)@.accounts,
            decreases writes.len() - k,
        {
            remove_first_id(&mut self.exclusive_locks, locked.write_ids[k]);
            proof {
                assert(writes.take(k as int + 1).drop_last() =~= writes.take(k as int));
                assert(writes.take(k as int + 1).last() == writes[k as int]);
            }
            k += 1;
        }
        proof {
            assert(writes.take(writes.len() as int) =~= writes);
            lemma_remove_all_keeps(old(self)@.shared_locks, reads);
            lemma_remove_all_keeps(old(self)@.exclusive_locks, writes);
            assert forall|x: AccountId|
                self@.shared_locks.contains(x) implies self@.accounts.dom().contains(x) by {
                assert(old(self)@.shared_locks.contains(x));
            }
            assert forall|x: AccountId|
                self@.exclusive_locks.contains(x) implies self@.accounts.dom().contains(x) by {
                assert(old(self)@.exclusive_locks.contains(x));
            }
            assert forall|x: AccountId|
                !(self@.shared_locks.contains(x) && self@.exclusive_locks.contains(x)) by {
                if self@.shared_locks.contains(x) && self@.exclusive_locks.contains(x) {
                    assert(old(self)@.shared_locks.contains(x));
                    assert(old(self)@.exclusive_locks.contains(x));
                }
            }
        }
    }
}

/// The whole store after finalization of the fork `slots`: a stale tip (at
/// or below the finalized slot) changes nothing; otherwise every account is
/// collapsed and the tip becomes the finalized slot. The lock table is not
/// touched.
pub open spec fn spec_finalize_db(d: DbView, slots: Seq<Slot>) -> DbView {
    let tip = slots.last();
    if tip <= d.finalized_slot {
        d
    } else {
        DbView {
            finalized_slot: tip,
            accounts: d.accounts.map_values(
                |v: AccountVersions| spec_collapse_entry(v, slots, tip),
            ),
            shared_locks: d.shared_locks,
            exclusive_locks: d.exclusive_locks,
        }
    }
}

impl AccountsDb {
    /// Copy-on-write load of the working value of `account_id` at the tip of
    /// the fork `ancestors`, through an exclusively locked handle. After the
    /// call, a read of the account on the same fork sees exactly the
    /// returned value.
    pub fn load_account(
        &mut self,
        locked: &LockedAccounts,
        account_id: AccountId,
        ancestors: &Vec<Slot>,
    ) -> (r: Account)
        requires
            old(self).inv(),
            locked.write_ids@.contains(account_id),
            old(self)@.exclusive_locks.contains(account_id),
            ancestors@.len() > 0,
            slot_above_finalized(old(self)@.finalized_slot, ancestors@.last()),
            forall|k: int|
                0 <= k < old(self)@.accounts[account_id].inflight.len() ==> (#[trigger] old(
                    self,
                )@.accounts[account_id].inflight[k]).0 <= ancestors@.last(),
        ensures
            final(self).inv(),
            final(self)@.accounts == old(self)@.accounts.insert(
                account_id,
                spec_load(old(self)@.accounts[account_id], ancestors@),
            ),
            final(self)@.finalized_slot == old(self)@.finalized_slot,
            final(self)@.shared_locks == old(self)@.shared_locks,
            final(self)@.exclusive_locks == old(self)@.exclusive_locks,
            r == loaded_value(old(self)@.accounts[account_id], ancestors@),
            final(self)@.accounts[account_id].read(ancestors@) == Some(r),
    {
        let mut va = match dash_get(&self.accounts, account_id) {
            Some(va) => va,
            None => unreached(),
        };
        let r = va.load_account(ancestors);
        dash_insert(&mut self.accounts, account_id, va);
        proof {
            assert(self@.accounts.dom() =~= old(self)@.accounts.dom());
            assert(self.ids_ok());
            assert forall|x: AccountId|
                self@.shared_locks.contains(x) implies self@.accounts.dom().contains(x) by {
                assert(old(self)@.shared_locks.contains(x));
                assert(old(self)@.accounts.dom().contains(x));
            }
            assert forall|x: AccountId|
                !(self@.shared_locks.contains(x) && self@.exclusive_locks.contains(x)) by {
                assert(!(old(self)@.shared_locks.contains(x)
                    && old(self)@.exclusive_locks.contains(x)));
            }
            assert forall|id2: AccountId, k: int|
                self@.accounts.dom().contains(id2) && 0 <= k
                    < self@.accounts[id2].inflight.len() implies slot_above_finalized(
                self@.finalized_slot,
                (#[trigger] self@.accounts[id2].inflight[k]).0,
            ) by {
                if id2 == account_id {
                    if k < old(self)@.accounts[account_id].inflight.len() {
                        assert(self@.accounts[id2].inflight[k] == old(
                            self,
                        )@.accounts[account_id].inflight[k]);
                    }
                } else {
                    assert(self@.accounts[id2].inflight[k] == old(
                        self,
                    )@.accounts[id2].inflight[k]);
                }
            }
        }
        r
    }

    /// Write `account` at `slot` into `account_id`'s inflight queue, through
    /// an exclusively locked handle: the tail edit is replaced in place when
    /// it is already at `slot`, else the edit is appended.
    pub fn set_account(
        &mut self,
        locked: &LockedAccounts,
        account_id: AccountId,
        account: Account,
        slot: Slot,
    )
        requires
            old(self).inv(),
            locked.write_ids@.contains(account_id),
            old(self)@.exclusive_locks.contains(account_id),
            slot_above_finalized(old(self)@.finalized_slot, slot),
            forall|k: int|
                0 <= k < old(self)@.accounts[account_id].inflight.len() ==> (#[trigger] old(
                    self,
                )@.accounts[account_id].inflight[k]).0 <= slot,
        ensures
            final(self).inv(),
            final(self)@.accounts == old(self)@.accounts.insert(
                account_id,
                spec_set(old(self)@.accounts[account_id], account, slot),
            ),
            final(self)@.finalized_slot == old(self)@.finalized_slot,
            final(self)@.shared_locks == old(self)@.shared_locks,
            final(self)@.exclusive_locks == old(self)@.exclusive_locks,
    {
        let mut va = match dash_get(&self.accounts, account_id) {
            Some(va) => va,
            None => unreached(),
        };
        va.set_account(account, slot);
        dash_insert(&mut self.accounts, account_id, va);
        proof {
            assert(self@.accounts.dom() =~= old(self)@.accounts.dom());
            assert(self.ids_ok());
            assert forall|x: AccountId|
                self@.shared_locks.contains(x) implies self@.accounts.dom().contains(x) by {
                assert(old(self)@.shared_locks.contains(x));
                assert(old(self)@.accounts.dom().contains(x));
            }
            assert forall|x: AccountId|
                !(self@.shared_locks.contains(x) && self@.exclusive_locks.contains(x)) by {
                assert(!(old(self)@.shared_locks.contains(x)
                    && old(self)@.exclusive_locks.contains(x)));
            }
            assert forall|id2: AccountId, k: int|
                self@.accounts.dom().contains(id2) && 0 <= k
                    < self@.accounts[id2].inflight.len() implies slot_above_finalized(
                self@.finalized_slot,
                (#[trigger] self@.accounts[id2].inflight[k]).0,
            ) by {
                if id2 == account_id {
                    if k < old(self)@.accounts[account_id].inflight.len() {
                        assert(self@.accounts[id2].inflight[k].0 == old(
                            self,
                        )@.accounts[account_id].inflight[k].0 || self@.accounts[id2].inflight[k].0
                            == slot);
                    }
                } else {
                    assert(self@.accounts[id2].inflight[k] == old(
                        self,
                    )@.accounts[id2].inflight[k]);
                }
            }
        }
    }

    /// Promote the winning fork identified by `slots` — whose tip becomes
    /// the new finalized slot — and prune losing siblings: every account is
    /// collapsed in one pass from the oldest edit. A stale call, with a tip
    /// at or below the finalized slot, is a silent no-op, which also makes
    /// finalization idempotent.
    pub fn finalize(&mut self, slots: &Vec<Slot>)
        requires
            old(self).inv(),
            slots@.len() > 0,
        ensures
            final(self).inv(),
            final(self)@ == spec_finalize_db(old(self)@, slots@),
    {
        let tip = slots[slots.len() - 1];
        if tip <= self.finalized_slot {
            return ;
        }
        let n = self.account_ids.len();
        let mut i: usize = 0;
        while i < n
            invariant
                old(self).inv(),
                i <= n,
                n == self.account_ids@.len(),
                slots@.len() > 0,
                tip == slots@.last(),
                tip > old(self)@.finalized_slot,
                self.account_ids@ == old(self).account_ids@,
                self.shared_locks@ == old(self)@.shared_locks,
                self.exclusive_locks@ == old(self)@.exclusive_locks,
                self.finalized_slot == old(self)@.finalized_slot,
                self@.accounts.dom() == old(self)@.accounts.dom(),
                forall|id: AccountId|
                    old(self)@.accounts.dom().contains(id) ==> #[trigger] self@.accounts[id] == (
                    if old(self).account_ids@.take(i as int).contains(id) {
                        spec_collapse_entry(old(self)@.accounts[id], slots@, tip)
                    } else {
                        old(self)@.accounts[id]
                    }),
            decreases n - i,
        {
            let id = self.account_ids[i];
            proof {
                assert(old(self).account_ids@.contains(id)) by {
                    assert(old(self).account_ids@[i as int] == id);
                }
                assert(old(self).account_ids@.to_set().contains(id));
                assert(!old(self).account_ids@.take(i as int).contains(id)) by {
                    if old(self).account_ids@.take(i as int).contains(id) {
                        let j = choose|j: int|
                            0 <= j < i && old(self).account_ids@.take(i as int)[j] == id;
                        assert(old(self).account_ids@[j] == old(self).account_ids@[i as int]);
                    }
                }
            }
            let va = match dash_get(&self.accounts, id) {
                Some(va) => va,
                None => unreached(),
            };
            let nv = va.collapsed(slots, tip);
            dash_insert(&mut self.accounts, id, nv);
            proof {
                assert(self@.accounts.dom() =~= old(self)@.accounts.dom());
                assert forall|x: AccountId|
                    old(self).account_ids@.take(i as int + 1).contains(x) <==> (old(
                        self,
                    ).account_ids@.take(i as int).contains(x) || x == id) by {
                    let t = old(self).account_ids@.take(i as int + 1);
                    if t.contains(x) {
                        let j = choose|j: int| 0 <= j < t.len() && t[j] == x;
                        if j < i {
                            assert(old(self).account_ids@.take(i as int)[j] == x);
                        }
                    }
                    if old(self).account_ids@.take(i as int).contains(x) {
                        let j = choose|j: int|
                            0 <= j < i && old(self).account_ids@.take(i as int)[j] == x;
                        assert(t[j] == x);
                    }
                    if x == id {
                        assert(t[i as int] == x);
                    }
                }
            }
            i += 1;
        }
        self.finalized_slot = tip;
        proof {
            assert(old(self).account_ids@.take(n as int) =~= old(self).account_ids@);
            assert forall|id: AccountId|
                old(self)@.accounts.dom().contains(id) implies self@.accounts[id]
                == spec_collapse_entry(old(self)@.accounts[id], slots@, tip) by {
                assert(old(self).account_ids@.to_set().contains(id));
            }
            assert(self@.accounts =~= old(self)@.accounts.map_values(
                |v: AccountVersions| spec_collapse_entry(v, slots@, tip),
            ));
            assert forall|id: AccountId|
                self@.accounts.dom().contains(id) implies (#[trigger] self@.accounts[id]).wf()
                && (forall|k: int|
                    0 <= k < self@.accounts[id].inflight.len() ==> (
                    #[trigger] self@.accounts[id].inflight[k]).0 > tip) by {
                let v = old(self)@.accounts[id];
                lemma_collapse_pruned(v.finalized, v.inflight, slots@, tip);
            }
            assert(self.ids_ok());
            assert(view_inv(self@));
        }
    }
}

/// Ensuring entries only grows the domain by the given identifiers and
/// never changes an entry that already exists.
pub proof fn lemma_ensure_ids_effect(m: Map<AccountId, AccountVersions>, ids: Seq<AccountId>)
    ensures
        spec_ensure_ids(m, ids).dom() == m.dom() + ids.to_set(),
        forall|id: AccountId|
            m.dom().contains(id) ==> spec_ensure_ids(m, ids)[id] == #[trigger] m[id],
        forall|id: AccountId|
            !m.dom().contains(id) && #[trigger] ids.to_set().contains(id) ==> spec_ensure_ids(
                m,
                ids,
            )[id] == AccountVersions::empty(),
    decreases ids.len(),
{
    if ids.len() == 0 {
        assert(spec_ensure_ids(m, ids).dom() =~= m.dom() + ids.to_set());
    } else {
        lemma_ensure_ids_effect(m, ids.drop_last());
        ids.drop_last().lemma_push_to_set_commute(ids.last());
        assert(ids.drop_last().push(ids.last()) =~= ids);
        assert(ids.drop_last().to_set().insert(ids.last()) =~= ids.to_set());
        assert(spec_ensure_ids(m, ids).dom() =~= m.dom() + ids.to_set());
    }
}


/// Every account's inflight queue is strictly increasing in slot.
pub proof fn lemma_inflight_slots_increasing(d: DbView, id: AccountId)
    requires
        view_inv(d),
        d.accounts.dom().contains(id),
    ensures
        d.accounts[id].wf(),
{
}

/// Every inflight slot is at least the finalized slot, and strictly above it
/// whenever anything has been finalized. (A genesis-slot edit made while the
/// finalized slot was still 0 sits exactly at it.)
pub proof fn lemma_inflight_above_finalized(d: DbView, id: AccountId, k: int)
    requires
        view_inv(d),
        d.accounts.dom().contains(id),
        0 <= k < d.accounts[id].inflight.len(),
    ensures
        d.accounts[id].inflight[k].0 >= d.finalized_slot,
        d.finalized_slot > 0 ==> d.accounts[id].inflight[k].0 > d.finalized_slot,
{
    assert(slot_above_finalized(d.finalized_slot, d.accounts[id].inflight[k].0));
}

/// After finalization the finalized slot is at least the requested tip and —
/// except for a stale genesis-tip call on a store that has finalized
/// nothing — no account keeps an inflight edit at or below that tip.
pub proof fn lemma_finalize_prunes_store(d: DbView, slots: Seq<Slot>)
    requires
        view_inv(d),
        slots.len() > 0,
    ensures
        spec_finalize_db(d, slots).finalized_slot >= slots.last(),
        slots.last() > 0 || d.finalized_slot > 0 ==> forall|id: AccountId, k: int|
            spec_finalize_db(d, slots).accounts.dom().contains(id) && 0 <= k < spec_finalize_db(
                d,
                slots,
            ).accounts[id].inflight.len() ==> (#[trigger] spec_finalize_db(
                d,
                slots,
            ).accounts[id].inflight[k]).0 > slots.last(),
{
    let d2 = spec_finalize_db(d, slots);
    let tip = slots.last();
    if tip <= d.finalized_slot {
        if tip > 0 || d.finalized_slot > 0 {
            assert forall|id: AccountId, k: int|
                d2.accounts.dom().contains(id) && 0 <= k
                    < d2.accounts[id].inflight.len() implies (
            #[trigger] d2.accounts[id].inflight[k]).0 > tip by {
                assert(slot_above_finalized(d.finalized_slot, d.accounts[id].inflight[k].0));
            }
        }
    } else {
        assert forall|id: AccountId, k: int|
            d2.accounts.dom().contains(id) && 0 <= k < d2.accounts[id].inflight.len() implies (
        #[trigger] d2.accounts[id].inflight[k]).0 > tip by {
            let v = d.accounts[id];
            assert(d2.accounts[id] == spec_collapse_entry(v, slots, tip));
            lemma_collapse_pruned(v.finalized, v.inflight, slots, tip);
        }
    }
}

/// Finalize is idempotent: finalizing the same fork twice leaves the store
/// exactly as one call left it.
pub proof fn lemma_finalize_idempotent(d: DbView, slots: Seq<Slot>)
    requires
        slots.len() > 0,
    ensures
        spec_finalize_db(spec_finalize_db(d, slots), slots) == spec_finalize_db(d, slots),
{
}

/// Finalization does not change what the winning fork reads: for every
/// account, a read on the finalized fork after the call returns exactly what
/// it returned just before.
pub proof fn lemma_finalize_preserves_winner_reads(d: DbView, slots: Seq<Slot>, id: AccountId)
    requires
        view_inv(d),
        slots.len() > 0,
        forall|k: int| 0 <= k < slots.len() ==> #[trigger] slots[k] <= slots.last(),
        d.accounts.dom().contains(id),
    ensures
        spec_finalize_db(d, slots).accounts[id].read(slots) == d.accounts[id].read(slots),
{
    let tip = slots.last();
    if tip > d.finalized_slot {
        assert(spec_finalize_db(d, slots).accounts[id] == spec_collapse_entry(
            d.accounts[id],
            slots,
            tip,
        ));
        lemma_finalize_preserves_winner_read(d.accounts[id], slots, tip);
    }
}

/// Sibling prune: after finalizing a winning fork, any fork lying entirely
/// at or below the new tip reads the new finalized baseline — a value
/// written only on a losing sibling is no longer recoverable.
pub proof fn lemma_finalize_prunes_sibling(
    d: DbView,
    slots: Seq<Slot>,
    other: Seq<Slot>,
    id: AccountId,
)
    requires
        view_inv(d),
        slots.len() > 0,
        slots.last() > d.finalized_slot,
        forall|k: int| 0 <= k < other.len() ==> #[trigger] other[k] <= slots.last(),
        d.accounts.dom().contains(id),
    ensures
        spec_finalize_db(d, slots).accounts[id].read(other) == spec_finalize_db(
            d,
            slots,
        ).accounts[id].finalized,
{
    let tip = slots.last();
    assert(spec_finalize_db(d, slots).accounts[id] == spec_collapse_entry(
        d.accounts[id],
        slots,
        tip,
    ));
    lemma_sibling_pruned(d.accounts[id], slots, tip, other);
}


/// Removing a value absent from a prefix removes it from the suffix alone.
proof fn lemma_remove_first_concat(s: Seq<AccountId>, t: Seq<AccountId>, x: AccountId)
    requires
        !s.contains(x),
    ensures
        remove_first(s + t, x) == s + remove_first(t, x),
    decreases s.len(),
{
    if s.len() == 0 {
        assert(s + t =~= t);
        assert(s + remove_first(t, x) =~= remove_first(t, x));
    } else {
        assert(s[0] != x);
        assert((s + t).first() == s.first());
        assert((s + t).drop_first() =~= s.drop_first() + t);
        assert(!s.drop_first().contains(x)) by {
            if s.drop_first().contains(x) {
                let j = choose|j: int| 0 <= j < s.drop_first().len() && s.drop_first()[j] == x;
                assert(s[j + 1] == x);
            }
        }
        lemma_remove_first_concat(s.drop_first(), t, x);
        assert(seq![s.first()] + (s.drop_first() + remove_first(t, x)) =~= s + remove_first(
            t,
            x,
        ));
    }
}

proof fn lemma_remove_appended_rec(s: Seq<AccountId>, xs: Seq<AccountId>, n: int)
    requires
        0 <= n <= xs.len(),
        xs.no_duplicates(),
        forall|k: int| 0 <= k < xs.len() ==> !s.contains(#[trigger] xs[k]),
    ensures
        remove_all(s + xs, xs.take(n)) == s + xs.skip(n),
    decreases n,
{
    if n == 0 {
        assert(xs.skip(0) =~= xs);
    } else {
        lemma_remove_appended_rec(s, xs, n - 1);
        assert(xs.take(n).drop_last() =~= xs.take(n - 1));
        assert(xs.take(n).last() == xs[n - 1]);
        assert(!s.contains(xs[n - 1]));
        lemma_remove_first_concat(s, xs.skip(n - 1), xs[n - 1]);
        assert(xs.skip(n - 1).first() == xs[n - 1]);
        assert(xs.skip(n - 1).drop_first() =~= xs.skip(n));
    }
}

/// Handing back exactly the handles an acquisition appended restores the
/// lock table it started from, provided none of them was already held.
pub proof fn lemma_remove_appended(s: Seq<AccountId>, xs: Seq<AccountId>)
    requires
        xs.no_duplicates(),
        forall|k: int| 0 <= k < xs.len() ==> !s.contains(#[trigger] xs[k]),
    ensures
        remove_all(s + xs, xs) == s,
{
    lemma_remove_appended_rec(s, xs, xs.len() as int);
    assert(xs.take(xs.len() as int) =~= xs);
    assert(xs.skip(xs.len() as int) =~= Seq::<AccountId>::empty());
    assert(s + Seq::<AccountId>::empty() =~= s);
}

} // verus!
