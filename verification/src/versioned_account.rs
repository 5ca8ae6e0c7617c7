//! Per-account multi-version container: one finalized value plus a
//! chronologically ordered queue of inflight `(slot, value)` edits, with
//! fork-qualified read, write and copy-on-write load operations.

use vstd::prelude::*;

use crate::{Account, Slot};

verus! {

/// Slots of the inflight queue are strictly increasing.
pub open spec fn slots_increasing(entries: Seq<(Slot, Account)>) -> bool {
    forall|i: int, j: int|
        0 <= i < j < entries.len() ==> (#[trigger] entries[i]).0 < (#[trigger] entries[j]).0
}

/// The mathematical model of a [`VersionedAccount`].
#[verifier::ext_equal]
pub ghost struct AccountVersions {
    /// The value as of the most recently finalized slot, absent iff the
    /// account has never existed at or before finalization.
    pub finalized: Option<Account>,
    /// Uncommitted per-slot edits, oldest first.
    pub inflight: Seq<(Slot, Account)>,
}

/// The most recent inflight edit whose slot lies on the given fork, if any.
pub open spec fn latest_match(entries: Seq<(Slot, Account)>, ancestors: Seq<Slot>) -> Option<
    Account,
>
    decreases entries.len(),
{
    if entries.len() == 0 {
        None
    } else if ancestors.contains(entries.last().0) {
        Some(entries.last().1)
    } else {
        latest_match(entries.drop_last(), ancestors)
    }
}

impl AccountVersions {
    /// A versioned account that has never been referenced.
    pub open spec fn empty() -> AccountVersions {
        AccountVersions { finalized: None, inflight: Seq::empty() }
    }

    pub open spec fn wf(self) -> bool {
        slots_increasing(self.inflight)
    }

    /// The value visible on the fork identified by `ancestors`: the most
    /// recent matching inflight edit, else the finalized value.
    pub open spec fn read(self, ancestors: Seq<Slot>) -> Option<Account> {
        match latest_match(self.inflight, ancestors) {
            Some(a) => Some(a),
            None => self.finalized,
        }
    }
}

/// The value a copy-on-write load starts from on the given fork: what `read`
/// returns, or a default account if the account has never existed.
pub open spec fn loaded_value(v: AccountVersions, ancestors: Seq<Slot>) -> Account {
    match v.read(ancestors) {
        Some(a) => a,
        None => Account { balance: 0 },
    }
}

/// The effect of a write at `slot`: replace the tail edit in place if it is
/// already at `slot`, otherwise append.
pub open spec fn spec_set(v: AccountVersions, account: Account, slot: Slot) -> AccountVersions {
    if v.inflight.len() > 0 && v.inflight.last().0 == slot {
        AccountVersions {
            finalized: v.finalized,
            inflight: v.inflight.update(v.inflight.len() - 1, (slot, account)),
        }
    } else {
        AccountVersions { finalized: v.finalized, inflight: v.inflight.push((slot, account)) }
    }
}

/// The effect of a copy-on-write load on the fork `ancestors`: if the tail
/// edit is already at the tip slot it is left alone, otherwise the value
/// `read` would return (or a default account) is appended at the tip.
pub open spec fn spec_load(v: AccountVersions, ancestors: Seq<Slot>) -> AccountVersions {
    let tip = ancestors.last();
    if v.inflight.len() > 0 && v.inflight.last().0 == tip {
        v
    } else {
        AccountVersions {
            finalized: v.finalized,
            inflight: v.inflight.push((tip, loaded_value(v, ancestors))),
        }
    }
}

/// Per-account container holding one finalized value plus the ordered queue
/// of uncommitted per-fork edits.
#[derive(Clone, Debug)]
pub struct VersionedAccount {
    finalized_acc: Option<Account>,
    inflight_updates: Vec<(Slot, Account)>,
}

impl View for VersionedAccount {
    type V = AccountVersions;

    closed spec fn view(&self) -> AccountVersions {
        AccountVersions { finalized: self.finalized_acc, inflight: self.inflight_updates@ }
    }
}

impl Default for VersionedAccount {
    /// A fresh, never-referenced versioned account.
    fn default() -> (r: Self)
        ensures
            r@ == AccountVersions::empty(),
    {
        VersionedAccount { finalized_acc: None, inflight_updates: Vec::new() }
    }
}

/// Whether the vector holds the given value.
pub(crate) fn contains_value(values: &Vec<u64>, x: u64) -> (r: bool)
    ensures
        r == values@.contains(x),
{
    let mut i: usize = 0;
    while i < values.len()
        invariant
            i <= values@.len(),
            forall|j: int| 0 <= j < i ==> values@[j] != x,
        decreases values@.len() - i,
    {
        if values[i] == x {
            assert(values@[i as int] == x);
            return true;
        }
        i += 1;
    }
    false
}

impl VersionedAccount {
    /// A versioned account whose finalized value is already known, as seeded
    /// at genesis.
    pub(crate) fn with_finalized(account: Account) -> (r: Self)
        ensures
            r@ == (AccountVersions { finalized: Some(account), inflight: Seq::empty() }),
    {
        VersionedAccount { finalized_acc: Some(account), inflight_updates: Vec::new() }
    }

    /// The value visible on the fork identified by `slots_to_include`: the
    /// most recent inflight edit on an ancestor slot, else the finalized
    /// value, else nothing.
    pub fn get_account(&self, slots_to_include: &Vec<Slot>) -> (r: Option<Account>)
        ensures
            r == self@.read(slots_to_include@),
    {
        let n = self.inflight_updates.len();
        let mut i = n;
        proof {
            assert(self@.inflight.take(n as int) =~= self@.inflight);
        }
        while i > 0
            invariant
                i <= n,
                n == self.inflight_updates@.len(),
                latest_match(self@.inflight, slots_to_include@) == latest_match(
                    self@.inflight.take(i as int),
                    slots_to_include@,
                ),
            decreases i,
        {
            let idx = i - 1;
            let entry = self.inflight_updates[idx];
            proof {
                assert(self@.inflight.take(i as int).last() == entry);
            }
            if contains_value(slots_to_include, entry.0) {
                return Some(entry.1);
            }
            proof {
                assert(self@.inflight.take(i as int).drop_last() =~= self@.inflight.take(
                    idx as int,
                ));
            }
            i = idx;
        }
        self.finalized_acc
    }

    /// Append the edit at `slot`, or overwrite the tail edit in place when
    /// the tail is already at `slot`. The caller must write slots in order:
    /// `slot` must be no less than every slot already inflight.
    pub fn set_account(&mut self, account: Account, slot: Slot)
        requires
            old(self)@.wf(),
            forall|k: int|
                0 <= k < old(self)@.inflight.len() ==> (#[trigger] old(self)@.inflight[k]).0
                    <= slot,
        ensures
            final(self)@ == spec_set(old(self)@, account, slot),
            final(self)@.wf(),
            final(self)@.inflight.len() > 0,
            final(self)@.inflight.last() == (slot, account),
            final(self)@.finalized == old(self)@.finalized,
    {
        let n = self.inflight_updates.len();
        if n > 0 {
            let last_slot = self.inflight_updates[n - 1].0;
            if last_slot == slot {
                self.inflight_updates[n - 1] = (slot, account);
                return ;
            }
        }
        self.inflight_updates.push((slot, account));
        proof {
            lemma_push_keeps_increasing(old(self)@, account, slot);
        }
    }

    /// Copy-on-write load of the working value at the fork's tip slot (the
    /// last element of `slots_to_include`). If the tail edit is already at
    /// the tip it is reused; otherwise the value `read` would return (or a
    /// default account) is cloned and appended at the tip. Afterwards a read
    /// on the same fork sees exactly the returned value.
    pub fn load_account(&mut self, slots_to_include: &Vec<Slot>) -> (r: Account)
        requires
            slots_to_include@.len() > 0,
            old(self)@.wf(),
            forall|k: int|
                0 <= k < old(self)@.inflight.len() ==> (#[trigger] old(self)@.inflight[k]).0
                    <= slots_to_include@.last(),
        ensures
            final(self)@ == spec_load(old(self)@, slots_to_include@),
            r == loaded_value(old(self)@, slots_to_include@),
            final(self)@.wf(),
            final(self)@.inflight.len() > 0,
            final(self)@.inflight.last() == (slots_to_include@.last(), r),
            final(self)@.read(slots_to_include@) == Some(r),
            final(self)@.finalized == old(self)@.finalized,
    {
        let tip = slots_to_include[slots_to_include.len() - 1];
        proof {
            assert(slots_to_include@.contains(tip)) by {
                assert(slots_to_include@[slots_to_include@.len() - 1] == tip);
            }
        }
        let n = self.inflight_updates.len();
        if n > 0 {
            let last = self.inflight_updates[n - 1];
            if last.0 == tip {
                return last.1;
            }
        }
        let value = match self.get_account(slots_to_include) {
            Some(a) => a,
            None => Account::default(),
        };
        self.inflight_updates.push((tip, value));
        proof {
            lemma_push_keeps_increasing(old(self)@, value, tip);
        }
        value
    }
}

/// Finalization of a single account: consume inflight edits from the oldest
/// end while their slot is at most `tip`; an edit whose slot lies on the
/// winning fork overwrites the finalized value, an edit of a losing sibling
/// is dropped; the first edit above `tip` and everything after it stay.
pub open spec fn spec_collapse(
    finalized: Option<Account>,
    entries: Seq<(Slot, Account)>,
    slots: Seq<Slot>,
    tip: Slot,
) -> (Option<Account>, Seq<(Slot, Account)>)
    decreases entries.len(),
{
    if entries.len() == 0 {
        (finalized, entries)
    } else if entries.first().0 <= tip {
        let promoted = if slots.contains(entries.first().0) {
            Some(entries.first().1)
        } else {
            finalized
        };
        spec_collapse(promoted, entries.drop_first(), slots, tip)
    } else {
        (finalized, entries)
    }
}

/// A whole versioned account after finalization of the fork `slots`.
pub open spec fn spec_collapse_entry(
    v: AccountVersions,
    slots: Seq<Slot>,
    tip: Slot,
) -> AccountVersions {
    AccountVersions {
        finalized: spec_collapse(v.finalized, v.inflight, slots, tip).0,
        inflight: spec_collapse(v.finalized, v.inflight, slots, tip).1,
    }
}

impl VersionedAccount {
    /// This account as it stands after the fork `slots`, whose tip is `tip`,
    /// is finalized.
    pub(crate) fn collapsed(&self, slots: &Vec<Slot>, tip: Slot) -> (r: VersionedAccount)
        ensures
            r@ == spec_collapse_entry(self@, slots@, tip),
    {
        let n = self.inflight_updates.len();
        let mut finalized = self.finalized_acc;
        let mut idx: usize = 0;
        proof {
            assert(self@.inflight.skip(0) =~= self@.inflight);
        }
        while idx < n && self.inflight_updates[idx].0 <= tip
            invariant
                idx <= n,
                n == self.inflight_updates@.len(),
                spec_collapse(self@.finalized, self@.inflight, slots@, tip) == spec_collapse(
                    finalized,
                    self@.inflight.skip(idx as int),
                    slots@,
                    tip,
                ),
            decreases n - idx,
        {
            let entry = self.inflight_updates[idx];
            proof {
                assert(self@.inflight.skip(idx as int).first() == entry);
                assert(self@.inflight.skip(idx as int).drop_first() =~= self@.inflight.skip(
                    idx as int + 1,
                ));
            }
            if contains_value(slots, entry.0) {
                finalized = Some(entry.1);
            }
            idx += 1;
        }
        let mut rest: Vec<(Slot, Account)> = Vec::new();
        let mut j = idx;
        while j < n
            invariant
                idx <= j <= n,
                n == self.inflight_updates@.len(),
                rest@ == self.inflight_updates@.subrange(idx as int, j as int),
            decreases n - j,
        {
            let entry = self.inflight_updates[j];
            rest.push(entry);
            proof {
                assert(self@.inflight.subrange(idx as int, j as int + 1) =~= self@.inflight
                    .subrange(idx as int, j as int).push(self@.inflight[j as int]));
            }
            j += 1;
        }
        proof {
            assert(rest@ =~= self@.inflight.skip(idx as int));
        }
        VersionedAccount { finalized_acc: finalized, inflight_updates: rest }
    }
}

/// A fork that no inflight slot lies on matches no inflight edit.
proof fn lemma_latest_match_none(entries: Seq<(Slot, Account)>, ancestors: Seq<Slot>)
    requires
        forall|k: int| 0 <= k < entries.len() ==> !ancestors.contains((#[trigger] entries[k]).0),
    ensures
        latest_match(entries, ancestors) is None,
    decreases entries.len(),
{
    if entries.len() > 0 {
        assert(forall|k: int|
            0 <= k < entries.drop_last().len() ==> entries.drop_last()[k] == entries[k]);
        lemma_latest_match_none(entries.drop_last(), ancestors);
    }
}

/// A fork that has never written the account reads the finalized value (or
/// absence): a value written only on sibling forks is never returned.
pub proof fn lemma_read_unwritten_fork(v: AccountVersions, ancestors: Seq<Slot>)
    requires
        forall|k: int|
            0 <= k < v.inflight.len() ==> !ancestors.contains((#[trigger] v.inflight[k]).0),
    ensures
        v.read(ancestors) == v.finalized,
{
    lemma_latest_match_none(v.inflight, ancestors);
}

/// Write then read on the same fork: after a write of `account` at `slot`, a
/// read on any fork that includes `slot` returns exactly that value.
pub proof fn lemma_write_read(
    v: AccountVersions,
    account: Account,
    slot: Slot,
    ancestors: Seq<Slot>,
)
    requires
        ancestors.contains(slot),
    ensures
        spec_set(v, account, slot).read(ancestors) == Some(account),
{
    let w = spec_set(v, account, slot);
    assert(w.inflight.last() == (slot, account));
}

/// Fork isolation for writes: a write at a slot that another fork does not
/// include leaves that fork's read unchanged.
pub proof fn lemma_write_isolated(
    v: AccountVersions,
    account: Account,
    slot: Slot,
    other: Seq<Slot>,
)
    requires
        !other.contains(slot),
    ensures
        spec_set(v, account, slot).read(other) == v.read(other),
{
    let w = spec_set(v, account, slot);
    if v.inflight.len() > 0 && v.inflight.last().0 == slot {
        assert(w.inflight.last().0 == slot);
        assert(w.inflight.drop_last() =~= v.inflight.drop_last());
    } else {
        assert(w.inflight.drop_last() =~= v.inflight);
    }
}

/// Fork isolation for loads: a copy-on-write load on one fork leaves the
/// reads of a fork that does not include the loading fork's tip unchanged.
pub proof fn lemma_load_isolated(v: AccountVersions, ancestors: Seq<Slot>, other: Seq<Slot>)
    requires
        ancestors.len() > 0,
        !other.contains(ancestors.last()),
    ensures
        spec_load(v, ancestors).read(other) == v.read(other),
{
    let w = spec_load(v, ancestors);
    if !(v.inflight.len() > 0 && v.inflight.last().0 == ancestors.last()) {
        assert(w.inflight.last().0 == ancestors.last());
        assert(w.inflight.drop_last() =~= v.inflight);
    }
}

/// Collapsing keeps the queue strictly increasing and leaves only edits
/// whose slot is above `tip`.
pub proof fn lemma_collapse_pruned(
    finalized: Option<Account>,
    entries: Seq<(Slot, Account)>,
    slots: Seq<Slot>,
    tip: Slot,
)
    requires
        slots_increasing(entries),
    ensures
        ({
            let rest = spec_collapse(finalized, entries, slots, tip).1;
            &&& slots_increasing(rest)
            &&& forall|k: int| 0 <= k < rest.len() ==> (#[trigger] rest[k]).0 > tip
        }),
    decreases entries.len(),
{
    if entries.len() == 0 {
    } else if entries.first().0 <= tip {
        let promoted = if slots.contains(entries.first().0) {
            Some(entries.first().1)
        } else {
            finalized
        };
        assert(forall|k: int|
            0 <= k < entries.drop_first().len() ==> entries.drop_first()[k] == entries[k + 1]);
        lemma_collapse_pruned(promoted, entries.drop_first(), slots, tip);
    } else {
        assert forall|k: int| 0 <= k < entries.len() implies (#[trigger] entries[k]).0 > tip by {
            if k > 0 {
                assert(entries[0].0 < entries[k].0);
            }
        }
    }
}

/// Unfolding a reverse-chronological scan from the front: the most recent
/// match in a queue is the most recent match of its tail, else the head.
proof fn lemma_latest_match_front(entries: Seq<(Slot, Account)>, ancestors: Seq<Slot>)
    requires
        entries.len() > 0,
    ensures
        latest_match(entries, ancestors) == (match latest_match(
            entries.drop_first(),
            ancestors,
        ) {
            Some(a) => Some(a),
            None => if ancestors.contains(entries.first().0) {
                Some(entries.first().1)
            } else {
                None
            },
        }),
    decreases entries.len(),
{
    if entries.len() == 1 {
        assert(entries.drop_first() =~= Seq::<(Slot, Account)>::empty());
        assert(entries.last() == entries.first());
    } else {
        lemma_latest_match_front(entries.drop_last(), ancestors);
        assert(entries.drop_last().drop_first() =~= entries.drop_first().drop_last());
        assert(entries.drop_first().last() == entries.last());
        assert(entries.drop_last().first() == entries.first());
    }
}

/// The value promoted by a collapse is exactly the most recent inflight edit
/// on the winning fork, else the old finalized value — provided every slot
/// of the fork is at most `tip`.
proof fn lemma_collapse_promotes(
    finalized: Option<Account>,
    entries: Seq<(Slot, Account)>,
    slots: Seq<Slot>,
    tip: Slot,
)
    requires
        slots_increasing(entries),
        forall|k: int| 0 <= k < slots.len() ==> #[trigger] slots[k] <= tip,
    ensures
        spec_collapse(finalized, entries, slots, tip).0 == (match latest_match(entries, slots) {
            Some(a) => Some(a),
            None => finalized,
        }),
    decreases entries.len(),
{
    if entries.len() == 0 {
    } else if entries.first().0 <= tip {
        let promoted = if slots.contains(entries.first().0) {
            Some(entries.first().1)
        } else {
            finalized
        };
        assert(forall|k: int|
            0 <= k < entries.drop_first().len() ==> entries.drop_first()[k] == entries[k + 1]);
        lemma_collapse_promotes(promoted, entries.drop_first(), slots, tip);
        lemma_latest_match_front(entries, slots);
    } else {
        assert forall|k: int|
            0 <= k < entries.len() implies !slots.contains((#[trigger] entries[k]).0) by {
            if k > 0 {
                assert(entries[0].0 < entries[k].0);
            }
            if slots.contains(entries[k].0) {
                let i = choose|i: int| 0 <= i < slots.len() && slots[i] == entries[k].0;
                assert(slots[i] <= tip);
            }
        }
        lemma_latest_match_none(entries, slots);
    }
}

/// Finalizing collapses inflight edits without changing what the winning
/// fork reads: after the collapse, a read on that fork returns exactly what
/// it returned just before.
pub proof fn lemma_finalize_preserves_winner_read(v: AccountVersions, slots: Seq<Slot>, tip: Slot)
    requires
        v.wf(),
        forall|k: int| 0 <= k < slots.len() ==> #[trigger] slots[k] <= tip,
    ensures
        spec_collapse_entry(v, slots, tip).read(slots) == v.read(slots),
{
    let c = spec_collapse_entry(v, slots, tip);
    lemma_collapse_pruned(v.finalized, v.inflight, slots, tip);
    lemma_collapse_promotes(v.finalized, v.inflight, slots, tip);
    assert forall|k: int|
        0 <= k < c.inflight.len() implies !slots.contains((#[trigger] c.inflight[k]).0) by {
        if slots.contains(c.inflight[k].0) {
            let i = choose|i: int| 0 <= i < slots.len() && slots[i] == c.inflight[k].0;
            assert(slots[i] <= tip);
        }
    }
    lemma_latest_match_none(c.inflight, slots);
}

/// Sibling prune: after a collapse with tip `tip`, a fork made only of slots
/// at or below `tip` reads the new finalized baseline — any value specific
/// to a losing sibling is no longer recoverable.
pub proof fn lemma_sibling_pruned(v: AccountVersions, slots: Seq<Slot>, tip: Slot, other: Seq<Slot>)
    requires
        v.wf(),
        forall|k: int| 0 <= k < other.len() ==> #[trigger] other[k] <= tip,
    ensures
        spec_collapse_entry(v, slots, tip).read(other) == spec_collapse_entry(
            v,
            slots,
            tip,
        ).finalized,
{
    let c = spec_collapse_entry(v, slots, tip);
    lemma_collapse_pruned(v.finalized, v.inflight, slots, tip);
    assert forall|k: int|
        0 <= k < c.inflight.len() implies !other.contains((#[trigger] c.inflight[k]).0) by {
        if other.contains(c.inflight[k].0) {
            let i = choose|i: int| 0 <= i < other.len() && other[i] == c.inflight[k].0;
            assert(other[i] <= tip);
        }
    }
    lemma_latest_match_none(c.inflight, other);
}

/// Appending an edit at a slot no less than every inflight slot, and distinct
/// from the tail slot, keeps the queue strictly increasing.
proof fn lemma_push_keeps_increasing(v: AccountVersions, account: Account, slot: Slot)
    requires
        v.wf(),
        forall|k: int| 0 <= k < v.inflight.len() ==> (#[trigger] v.inflight[k]).0 <= slot,
        v.inflight.len() > 0 ==> v.inflight.last().0 != slot,
    ensures
        slots_increasing(v.inflight.push((slot, account))),
{
    let s = v.inflight.push((slot, account));
    assert forall|i: int, j: int| 0 <= i < j < s.len() implies (#[trigger] s[i]).0 < (
    #[trigger] s[j]).0 by {
        if j < s.len() - 1 {
            assert(v.inflight[i].0 < v.inflight[j].0);
        } else {
            assert(s[j].0 == slot);
            if i < v.inflight.len() - 1 {
                assert(v.inflight[i].0 < v.inflight[v.inflight.len() - 1].0);
                assert(v.inflight.last().0 <= slot);
            }
        }
    }
}

} // verus!
