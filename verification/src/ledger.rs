//! The asset-ledger model: per (asset, account) slots of free and locked
//! balance, with the four capabilities the escrow core consumes — deposit,
//! lock, transfer-from-lock and unlock. Every mutation is all-or-nothing and
//! keeps each slot's total (free + locked) representable.

use vstd::prelude::*;

verus! {

use crate::types::{AccountId, AssetId, Balance, PaymentError};

/// One balance slot: the free and locked quantity of one asset for one account.
#[derive(Clone, Copy, Debug)]
pub struct LedgerEntry {
    pub asset: AssetId,
    pub account: AccountId,
    pub free: Balance,
    pub locked: Balance,
}

/// Whether `e` is the slot for `account`'s balance of `asset`.
pub open spec fn slot_matches(e: LedgerEntry, asset: AssetId, account: AccountId) -> bool {
    e.asset == asset && e.account == account
}

/// The free balance recorded for (asset, account) in `s`; zero when no slot exists.
pub open spec fn free_in(s: Seq<LedgerEntry>, asset: AssetId, account: AccountId) -> int
    decreases s.len(),
{
    if s.len() == 0 {
        0
    } else if slot_matches(s.last(), asset, account) {
        s.last().free as int
    } else {
        free_in(s.drop_last(), asset, account)
    }
}

/// The locked balance recorded for (asset, account) in `s`; zero when no slot exists.
pub open spec fn locked_in(s: Seq<LedgerEntry>, asset: AssetId, account: AccountId) -> int
    decreases s.len(),
{
    if s.len() == 0 {
        0
    } else if slot_matches(s.last(), asset, account) {
        s.last().locked as int
    } else {
        locked_in(s.drop_last(), asset, account)
    }
}

/// No two slots share an (asset, account) key.
pub open spec fn distinct_slots(s: Seq<LedgerEntry>) -> bool {
    forall|i: int, j: int| #![trigger s[i], s[j]]
        0 <= i < j < s.len() ==> !(s[i].asset == s[j].asset && s[i].account == s[j].account)
}

/// In a ledger with distinct slots, the recorded balances for a key are the
/// fields of the one slot carrying that key.
proof fn lemma_value_at(s: Seq<LedgerEntry>, asset: AssetId, account: AccountId, i: int)
    requires
        distinct_slots(s),
        0 <= i < s.len(),
        slot_matches(s[i], asset, account),
    ensures
        free_in(s, asset, account) == s[i].free as int,
        locked_in(s, asset, account) == s[i].locked as int,
    decreases s.len(),
{
    if i == s.len() - 1 {
        assert(s.last() == s[i]);
    } else {
        assert(s[i].asset == asset && s[i].account == account);
        assert(!(s[i].asset == s[s.len() - 1].asset && s[i].account == s[s.len() - 1].account));
        assert(!slot_matches(s.last(), asset, account));
        let t = s.drop_last();
        assert forall|p: int, q: int| #![trigger t[p], t[q]]
            0 <= p < q < t.len() implies !(t[p].asset == t[q].asset && t[p].account == t[q].account) by {
            assert(t[p] == s[p]);
            assert(t[q] == s[q]);
        }
        assert(t[i] == s[i]);
        lemma_value_at(t, asset, account, i);
    }
}

/// A key carried by no slot has zero free and zero locked balance.
proof fn lemma_value_absent(s: Seq<LedgerEntry>, asset: AssetId, account: AccountId)
    requires
        forall|k: int| 0 <= k < s.len() ==> !slot_matches(#[trigger] s[k], asset, account),
    ensures
        free_in(s, asset, account) == 0,
        locked_in(s, asset, account) == 0,
    decreases s.len(),
{
    if s.len() > 0 {
        assert(!slot_matches(s[s.len() - 1], asset, account));
        let t = s.drop_last();
        assert forall|k: int| 0 <= k < t.len() implies !slot_matches(#[trigger] t[k], asset, account) by {
            assert(t[k] == s[k]);
        }
        lemma_value_absent(t, asset, account);
    }
}

/// Replacing slot `i` by a slot with the same key leaves every other key's
/// recorded balances unchanged.
proof fn lemma_value_update_other(
    s: Seq<LedgerEntry>,
    i: int,
    e: LedgerEntry,
    asset: AssetId,
    account: AccountId,
)
    requires
        0 <= i < s.len(),
        e.asset == s[i].asset,
        e.account == s[i].account,
        !slot_matches(s[i], asset, account),
    ensures
        free_in(s.update(i, e), asset, account) == free_in(s, asset, account),
        locked_in(s.update(i, e), asset, account) == locked_in(s, asset, account),
    decreases s.len(),
{
    let t = s.update(i, e);
    if i == s.len() - 1 {
        assert(t.last() == e);
        assert(!slot_matches(e, asset, account));
        assert(t.drop_last() =~= s.drop_last());
    } else {
        assert(t.last() == s.last());
        if !slot_matches(s.last(), asset, account) {
            assert(t.drop_last() =~= s.drop_last().update(i, e));
            assert(s.drop_last()[i] == s[i]);
            lemma_value_update_other(s.drop_last(), i, e, asset, account);
        }
    }
}

/// Appending a slot determines the appended key's balances and leaves every
/// other key's balances unchanged.
proof fn lemma_value_push(s: Seq<LedgerEntry>, e: LedgerEntry, asset: AssetId, account: AccountId)
    ensures
        free_in(s.push(e), asset, account) == if slot_matches(e, asset, account) {
            e.free as int
        } else {
            free_in(s, asset, account)
        },
        locked_in(s.push(e), asset, account) == if slot_matches(e, asset, account) {
            e.locked as int
        } else {
            locked_in(s, asset, account)
        },
{
    assert(s.push(e).last() == e);
    assert(s.push(e).drop_last() =~= s);
}

/// Recorded balances are never negative.
proof fn lemma_values_in_nonneg(s: Seq<LedgerEntry>, asset: AssetId, account: AccountId)
    ensures
        free_in(s, asset, account) >= 0,
        locked_in(s, asset, account) >= 0,
    decreases s.len(),
{
    if s.len() > 0 && !slot_matches(s.last(), asset, account) {
        lemma_values_in_nonneg(s.drop_last(), asset, account);
    }
}

/// The ledger: a set of balance slots with pairwise distinct keys.
pub struct Ledger {
    pub entries: Vec<LedgerEntry>,
}

impl Ledger {
    /// Slots have pairwise distinct keys and each slot's total is representable.
    pub open spec fn wf(self) -> bool {
        &&& distinct_slots(self.entries@)
        &&& forall|k: int|
            0 <= k < self.entries@.len() ==> (#[trigger] self.entries@[k]).free
                + self.entries@[k].locked <= u128::MAX
    }

    /// The free balance of (asset, account); zero when no slot exists.
    pub open spec fn free_of(self, asset: AssetId, account: AccountId) -> int {
        free_in(self.entries@, asset, account)
    }

    /// The locked balance of (asset, account); zero when no slot exists.
    pub open spec fn locked_of(self, asset: AssetId, account: AccountId) -> int {
        locked_in(self.entries@, asset, account)
    }

    /// An empty ledger: every balance is zero.
    pub fn new() -> (r: Ledger)
        ensures
            r.wf(),
            forall|a: AssetId, c: AccountId| #[trigger] r.free_of(a, c) == 0,
            forall|a: AssetId, c: AccountId| #[trigger] r.locked_of(a, c) == 0,
    {
        let r = Ledger { entries: Vec::new() };
        proof {
            assert forall|a: AssetId, c: AccountId| #[trigger] r.free_of(a, c) == 0 by {
                lemma_value_absent(r.entries@, a, c);
            }
            assert forall|a: AssetId, c: AccountId| #[trigger] r.locked_of(a, c) == 0 by {
                lemma_value_absent(r.entries@, a, c);
            }
        }
        r
    }

    /// Index of the slot for (asset, account), if one exists.
    fn find(&self, asset: AssetId, account: AccountId) -> (r: Option<usize>)
        ensures
            match r {
                Some(i) => i < self.entries@.len() && slot_matches(
                    self.entries@[i as int],
                    asset,
                    account,
                ),
                None => forall|k: int|
                    0 <= k < self.entries@.len() ==> !slot_matches(
                        #[trigger] self.entries@[k],
                        asset,
                        account,
                    ),
            },
    {
        let n = self.entries.len();
        let mut i: usize = 0;
        while i < n
            invariant
                n == self.entries@.len(),
                i <= n,
                forall|k: int|
                    0 <= k < i ==> !slot_matches(#[trigger] self.entries@[k], asset, account),
            decreases n - i,
        {
            let e = &self.entries[i];
            if e.asset == asset && e.account == account {
                return Some(i);
            }
            i = i + 1;
        }
        None
    }

    /// The (free, locked) pair currently recorded for (asset, account).
    fn slot_values(&self, asset: AssetId, account: AccountId) -> (r: (Balance, Balance))
        requires
            self.wf(),
        ensures
            r.0 as int == self.free_of(asset, account),
            r.1 as int == self.locked_of(asset, account),
            r.0 + r.1 <= u128::MAX,
    {
        match self.find(asset, account) {
            Some(i) => {
                proof {
                    lemma_value_at(self.entries@, asset, account, i as int);
                }
                (self.entries[i].free, self.entries[i].locked)
            }
            None => {
                proof {
                    lemma_value_absent(self.entries@, asset, account);
                }
                (0, 0)
            }
        }
    }

    /// Overwrite the (free, locked) pair of one key, creating its slot on
    /// demand; every other key's balances are untouched.
    fn set_slot(&mut self, asset: AssetId, account: AccountId, new_free: Balance, new_locked: Balance)
        requires
            old(self).wf(),
            new_free + new_locked <= u128::MAX,
        ensures
            final(self).wf(),
            final(self).free_of(asset, account) == new_free as int,
            final(self).locked_of(asset, account) == new_locked as int,
            forall|a: AssetId, c: AccountId|
                !(a == asset && c == account) ==> #[trigger] final(self).free_of(a, c) == old(self).free_of(a, c),
            forall|a: AssetId, c: AccountId|
                !(a == asset && c == account) ==> #[trigger] final(self).locked_of(a, c) == old(self).locked_of(a, c),
    {
        let new_entry = LedgerEntry { asset, account, free: new_free, locked: new_locked };
        match self.find(asset, account) {
            Some(i) => {
                let ghost s0 = self.entries@;
                self.entries[i] = new_entry;
                proof {
                    let s1 = self.entries@;
                    assert(s1 =~= s0.update(i as int, new_entry));
                    assert forall|p: int, q: int| #![trigger s1[p], s1[q]]
                        0 <= p < q < s1.len() implies !(s1[p].asset == s1[q].asset && s1[p].account
                        == s1[q].account) by {
                        assert(s0[p].asset == s1[p].asset && s0[p].account == s1[p].account);
                        assert(s0[q].asset == s1[q].asset && s0[q].account == s1[q].account);
                    }
                    lemma_value_at(s1, asset, account, i as int);
                    assert forall|a: AssetId, c: AccountId|
                        !(a == asset && c == account) implies #[trigger] final(self).free_of(a, c)
                        == old(self).free_of(a, c) by {
                        lemma_value_update_other(s0, i as int, new_entry, a, c);
                    }
                    assert forall|a: AssetId, c: AccountId|
                        !(a == asset && c == account) implies #[trigger] final(self).locked_of(a, c)
                        == old(self).locked_of(a, c) by {
                        lemma_value_update_other(s0, i as int, new_entry, a, c);
                    }
                }
            }
            None => {
                proof {
                    lemma_value_absent(self.entries@, asset, account);
                }
                if new_free == 0 && new_locked == 0 {
                    // The key has no slot and both balances stay zero.
                } else {
                    let ghost s0 = self.entries@;
                    self.entries.push(new_entry);
                    proof {
                        let s1 = self.entries@;
                        assert(s1 =~= s0.push(new_entry));
                        assert forall|p: int, q: int| #![trigger s1[p], s1[q]]
                            0 <= p < q < s1.len() implies !(s1[p].asset == s1[q].asset
                            && s1[p].account == s1[q].account) by {
                            if q < s1.len() - 1 {
                                assert(s1[p] == s0[p]);
                                assert(s1[q] == s0[q]);
                            } else {
                                assert(s1[p] == s0[p]);
                                assert(!slot_matches(s0[p], asset, account));
                            }
                        }
                        assert forall|a: AssetId, c: AccountId|
                            !(a == asset && c == account) implies #[trigger] final(self).free_of(
                            a,
                            c,
                        ) == old(self).free_of(a, c) by {
                            lemma_value_push(s0, new_entry, a, c);
                        }
                        assert forall|a: AssetId, c: AccountId|
                            !(a == asset && c == account) implies #[trigger] final(self).locked_of(
                            a,
                            c,
                        ) == old(self).locked_of(a, c) by {
                            lemma_value_push(s0, new_entry, a, c);
                        }
                        lemma_value_push(s0, new_entry, asset, account);
                    }
                }
            }
        }
    }

    /// A key's balances are never negative.
    pub proof fn lemma_values_nonneg(self, asset: AssetId, account: AccountId)
        ensures
            self.free_of(asset, account) >= 0,
            self.locked_of(asset, account) >= 0,
    {
        lemma_values_in_nonneg(self.entries@, asset, account);
    }

    /// A key's two balances together always fit the balance type.
    pub proof fn lemma_totals_bounded(self, asset: AssetId, account: AccountId)
        requires
            self.wf(),
        ensures
            self.free_of(asset, account) + self.locked_of(asset, account) <= u128::MAX,
    {
        let s = self.entries@;
        if exists|k: int| 0 <= k < s.len() && slot_matches(#[trigger] s[k], asset, account) {
            let k = choose|k: int| 0 <= k < s.len() && slot_matches(#[trigger] s[k], asset, account);
            lemma_value_at(s, asset, account, k);
        } else {
            assert forall|k: int| 0 <= k < s.len() implies !slot_matches(
                #[trigger] s[k],
                asset,
                account,
            ) by {}
            lemma_value_absent(s, asset, account);
        }
    }

    /// The free balance of (asset, account).
    pub fn free_balance(&self, asset: AssetId, account: AccountId) -> (r: Balance)
        requires
            self.wf(),
        ensures
            r as int == self.free_of(asset, account),
    {
        self.slot_values(asset, account).0
    }

    /// The locked balance of (asset, account).
    pub fn locked_balance(&self, asset: AssetId, account: AccountId) -> (r: Balance)
        requires
            self.wf(),
        ensures
            r as int == self.locked_of(asset, account),
    {
        self.slot_values(asset, account).1
    }

    /// Whether the account can take in `amount` more of `asset` without its
    /// slot total exceeding the representable range.
    pub fn can_receive(&self, asset: AssetId, account: AccountId, amount: Balance) -> (r: bool)
        requires
            self.wf(),
        ensures
            r == (self.free_of(asset, account) + self.locked_of(asset, account) + amount
                <= u128::MAX),
    {
        let (f, l) = self.slot_values(asset, account);
        amount <= u128::MAX - f - l
    }

    /// Mint `amount` of `asset` into the account's free balance.
    pub fn deposit(&mut self, asset: AssetId, account: AccountId, amount: Balance) -> (r: Result<
        (),
        PaymentError,
    >)
        requires
            old(self).wf(),
        ensures
            final(self).wf(),
            r is Ok <==> old(self).free_of(asset, account) + old(self).locked_of(asset, account)
                + amount <= u128::MAX,
            r is Ok ==> final(self).free_of(asset, account) == old(self).free_of(asset, account)
                + amount && final(self).locked_of(asset, account) == old(self).locked_of(
                asset,
                account,
            ),
            r is Err ==> r == Err::<(), PaymentError>(PaymentError::Overflow) && final(self).entries@ == old(self).entries@,
            forall|a: AssetId, c: AccountId|
                !(a == asset && c == account) ==> #[trigger] final(self).free_of(a, c) == old(self).free_of(a, c),
            forall|a: AssetId, c: AccountId|
                !(a == asset && c == account) ==> #[trigger] final(self).locked_of(a, c) == old(self).locked_of(a, c),
    {
        let (f, l) = self.slot_values(asset, account);
        if amount <= u128::MAX - f - l {
            self.set_slot(asset, account, f + amount, l);
            Ok(())
        } else {
            Err(PaymentError::Overflow)
        }
    }

    /// Move `amount` of the account's free balance into its locked balance.
    pub fn lock(&mut self, asset: AssetId, from: AccountId, amount: Balance) -> (r: Result<
        (),
        PaymentError,
    >)
        requires
            old(self).wf(),
        ensures
            final(self).wf(),
            r is Ok <==> old(self).free_of(asset, from) >= amount,
            r is Ok ==> final(self).free_of(asset, from) == old(self).free_of(asset, from) - amount
                && final(self).locked_of(asset, from) == old(self).locked_of(asset, from) + amount,
            r is Err ==> r == Err::<(), PaymentError>(PaymentError::InsufficientFunds) && final(self).entries@ == old(self).entries@,
            forall|a: AssetId, c: AccountId|
                !(a == asset && c == from) ==> #[trigger] final(self).free_of(a, c) == old(self).free_of(a, c),
            forall|a: AssetId, c: AccountId|
                !(a == asset && c == from) ==> #[trigger] final(self).locked_of(a, c) == old(self).locked_of(a, c),
    {
        let (f, l) = self.slot_values(asset, from);
        if f >= amount {
            self.set_slot(asset, from, f - amount, l + amount);
            Ok(())
        } else {
            Err(PaymentError::InsufficientFunds)
        }
    }

    /// Move `amount` of the account's locked balance back to its free balance.
    pub fn unlock(&mut self, asset: AssetId, account: AccountId, amount: Balance) -> (r: Result<
        (),
        PaymentError,
    >)
        requires
            old(self).wf(),
        ensures
            final(self).wf(),
            r is Ok <==> old(self).locked_of(asset, account) >= amount,
            r is Ok ==> final(self).locked_of(asset, account) == old(self).locked_of(asset, account)
                - amount && final(self).free_of(asset, account) == old(self).free_of(asset, account)
                + amount,
            r is Err ==> r == Err::<(), PaymentError>(PaymentError::InsufficientFunds) && final(self).entries@ == old(self).entries@,
            forall|a: AssetId, c: AccountId|
                !(a == asset && c == account) ==> #[trigger] final(self).free_of(a, c) == old(self).free_of(a, c),
            forall|a: AssetId, c: AccountId|
                !(a == asset && c == account) ==> #[trigger] final(self).locked_of(a, c) == old(self).locked_of(a, c),
    {
        let (f, l) = self.slot_values(asset, account);
        if l >= amount {
            self.set_slot(asset, account, f + amount, l - amount);
            Ok(())
        } else {
            Err(PaymentError::InsufficientFunds)
        }
    }

    /// Move `amount` out of `from`'s locked balance into `to`'s free balance.
    pub fn transfer_from_lock(
        &mut self,
        asset: AssetId,
        from: AccountId,
        to: AccountId,
        amount: Balance,
    ) -> (r: Result<(), PaymentError>)
        requires
            old(self).wf(),
        ensures
            final(self).wf(),
            r is Ok <==> old(self).locked_of(asset, from) >= amount && (from != to ==> old(self).free_of(asset, to) + old(self).locked_of(asset, to) + amount <= u128::MAX),
            r is Ok ==> final(self).locked_of(asset, from) == old(self).locked_of(asset, from)
                - amount && final(self).free_of(asset, to) == old(self).free_of(asset, to) + amount
                && (from != to ==> final(self).free_of(asset, from) == old(self).free_of(
                asset,
                from,
            ) && final(self).locked_of(asset, to) == old(self).locked_of(asset, to)),
            match r {
                Ok(_) => true,
                Err(e) => final(self).entries@ == old(self).entries@ && ((e
                    == PaymentError::InsufficientFunds && old(self).locked_of(asset, from)
                    < amount) || (e == PaymentError::Overflow && old(self).locked_of(asset, from)
                    >= amount && from != to && old(self).free_of(asset, to) + old(self).locked_of(
                    asset,
                    to,
                ) + amount > u128::MAX)),
            },
            forall|a: AssetId, c: AccountId|
                !(a == asset && (c == from || c == to)) ==> #[trigger] final(self).free_of(a, c)
                    == old(self).free_of(a, c),
            forall|a: AssetId, c: AccountId|
                !(a == asset && (c == from || c == to)) ==> #[trigger] final(self).locked_of(a, c)
                    == old(self).locked_of(a, c),
    {
        let (ff, fl) = self.slot_values(asset, from);
        if fl < amount {
            return Err(PaymentError::InsufficientFunds);
        }
        if from == to {
            self.set_slot(asset, from, ff + amount, fl - amount);
            return Ok(());
        }
        let (tf, tl) = self.slot_values(asset, to);
        if !(amount <= u128::MAX - tf - tl) {
            return Err(PaymentError::Overflow);
        }
        self.set_slot(asset, from, ff, fl - amount);
        self.set_slot(asset, to, tf + amount, tl);
        Ok(())
    }
}

} // verus!
