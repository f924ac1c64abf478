//! The payment store: the authoritative association from an ordered
//! (payer, recipient) pair to its live escrow record, together with the
//! spec-level sum of locked amounts per (asset, payer) that ties the store to
//! the ledger.

use vstd::prelude::*;

verus! {

use crate::types::{AccountId, AssetId, Balance, PaymentDetail, PaymentState, MAX_REMARK_LEN};

/// One stored escrow record with its key.
pub struct PaymentEntry {
    pub payer: AccountId,
    pub recipient: AccountId,
    pub detail: PaymentDetail,
}

/// Whether `e` is keyed by the ordered pair (payer, recipient).
pub open spec fn key_matches(e: PaymentEntry, payer: AccountId, recipient: AccountId) -> bool {
    e.payer == payer && e.recipient == recipient
}

/// The record stored for (payer, recipient) in `s`, if any.
pub open spec fn record_in(s: Seq<PaymentEntry>, payer: AccountId, recipient: AccountId) -> Option<
    PaymentDetail,
>
    decreases s.len(),
{
    if s.len() == 0 {
        None
    } else if key_matches(s.last(), payer, recipient) {
        Some(s.last().detail)
    } else {
        record_in(s.drop_last(), payer, recipient)
    }
}

/// What one entry adds to the locked total of (asset, account): its amount
/// when the entry locks that asset from that account, zero otherwise.
pub open spec fn contribution(e: PaymentEntry, asset: AssetId, account: AccountId) -> int {
    if e.payer == account && e.detail.asset == asset {
        e.detail.amount as int
    } else {
        0
    }
}

/// The total amount the records in `s` lock of `asset` from `account`.
pub open spec fn locked_sum(s: Seq<PaymentEntry>, asset: AssetId, account: AccountId) -> int
    decreases s.len(),
{
    if s.len() == 0 {
        0
    } else {
        locked_sum(s.drop_last(), asset, account) + contribution(s.last(), asset, account)
    }
}

/// No two entries share a (payer, recipient) key.
pub open spec fn distinct_keys(s: Seq<PaymentEntry>) -> bool {
    forall|i: int, j: int| #![trigger s[i], s[j]]
        0 <= i < j < s.len() ==> !(s[i].payer == s[j].payer && s[i].recipient == s[j].recipient)
}

/// With distinct keys, the stored record for a key is the one entry carrying it.
proof fn lemma_record_at(s: Seq<PaymentEntry>, payer: AccountId, recipient: AccountId, i: int)
    requires
        distinct_keys(s),
        0 <= i < s.len(),
        key_matches(s[i], payer, recipient),
    ensures
        record_in(s, payer, recipient) == Some(s[i].detail),
    decreases s.len(),
{
    if i == s.len() - 1 {
        assert(s.last() == s[i]);
    } else {
        assert(!(s[i].payer == s[s.len() - 1].payer && s[i].recipient == s[s.len() - 1].recipient));
        let t = s.drop_last();
        assert forall|p: int, q: int| #![trigger t[p], t[q]]
            0 <= p < q < t.len() implies !(t[p].payer == t[q].payer && t[p].recipient
            == t[q].recipient) by {
            assert(t[p] == s[p]);
            assert(t[q] == s[q]);
        }
        assert(t[i] == s[i]);
        lemma_record_at(t, payer, recipient, i);
    }
}

/// A key carried by no entry has no record.
proof fn lemma_record_absent(s: Seq<PaymentEntry>, payer: AccountId, recipient: AccountId)
    requires
        forall|k: int| 0 <= k < s.len() ==> !key_matches(#[trigger] s[k], payer, recipient),
    ensures
        record_in(s, payer, recipient) is None,
    decreases s.len(),
{
    if s.len() > 0 {
        assert(!key_matches(s[s.len() - 1], payer, recipient));
        let t = s.drop_last();
        assert forall|k: int| 0 <= k < t.len() implies !key_matches(
            #[trigger] t[k],
            payer,
            recipient,
        ) by {
            assert(t[k] == s[k]);
        }
        lemma_record_absent(t, payer, recipient);
    }
}

/// A key with no record is carried by no entry.
proof fn lemma_no_record_means_absent(s: Seq<PaymentEntry>, payer: AccountId, recipient: AccountId)
    requires
        record_in(s, payer, recipient) is None,
    ensures
        forall|k: int| 0 <= k < s.len() ==> !key_matches(#[trigger] s[k], payer, recipient),
    decreases s.len(),
{
    if s.len() > 0 {
        let t = s.drop_last();
        lemma_no_record_means_absent(t, payer, recipient);
        assert forall|k: int| 0 <= k < s.len() implies !key_matches(
            #[trigger] s[k],
            payer,
            recipient,
        ) by {
            if k < s.len() - 1 {
                assert(t[k] == s[k]);
            }
        }
    }
}

/// Appending an entry stores its record and leaves other keys' records alone.
proof fn lemma_record_push(
    s: Seq<PaymentEntry>,
    e: PaymentEntry,
    payer: AccountId,
    recipient: AccountId,
)
    ensures
        record_in(s.push(e), payer, recipient) == if key_matches(e, payer, recipient) {
            Some(e.detail)
        } else {
            record_in(s, payer, recipient)
        },
{
    assert(s.push(e).last() == e);
    assert(s.push(e).drop_last() =~= s);
}

/// Appending an entry raises a locked total by exactly its contribution.
proof fn lemma_sum_push(s: Seq<PaymentEntry>, e: PaymentEntry, asset: AssetId, account: AccountId)
    ensures
        locked_sum(s.push(e), asset, account) == locked_sum(s, asset, account) + contribution(
            e,
            asset,
            account,
        ),
{
    assert(s.push(e).last() == e);
    assert(s.push(e).drop_last() =~= s);
}

/// Replacing entry `i` by one with the same key leaves other keys' records alone.
proof fn lemma_record_update_other(
    s: Seq<PaymentEntry>,
    i: int,
    e: PaymentEntry,
    payer: AccountId,
    recipient: AccountId,
)
    requires
        0 <= i < s.len(),
        e.payer == s[i].payer,
        e.recipient == s[i].recipient,
        !key_matches(s[i], payer, recipient),
    ensures
        record_in(s.update(i, e), payer, recipient) == record_in(s, payer, recipient),
    decreases s.len(),
{
    let t = s.update(i, e);
    if i == s.len() - 1 {
        assert(t.last() == e);
        assert(!key_matches(e, payer, recipient));
        assert(t.drop_last() =~= s.drop_last());
    } else {
        assert(t.last() == s.last());
        if !key_matches(s.last(), payer, recipient) {
            assert(t.drop_last() =~= s.drop_last().update(i, e));
            assert(s.drop_last()[i] == s[i]);
            lemma_record_update_other(s.drop_last(), i, e, payer, recipient);
        }
    }
}

/// Replacing entry `i` shifts a locked total by the difference of contributions.
proof fn lemma_sum_update(
    s: Seq<PaymentEntry>,
    i: int,
    e: PaymentEntry,
    asset: AssetId,
    account: AccountId,
)
    requires
        0 <= i < s.len(),
    ensures
        locked_sum(s.update(i, e), asset, account) == locked_sum(s, asset, account) - contribution(
            s[i],
            asset,
            account,
        ) + contribution(e, asset, account),
    decreases s.len(),
{
    let t = s.update(i, e);
    if i == s.len() - 1 {
        assert(t.last() == e);
        assert(t.drop_last() =~= s.drop_last());
    } else {
        assert(t.last() == s.last());
        assert(t.drop_last() =~= s.drop_last().update(i, e));
        assert(s.drop_last()[i] == s[i]);
        lemma_sum_update(s.drop_last(), i, e, asset, account);
    }
}

/// Removing an entry leaves other keys' records alone.
proof fn lemma_record_remove_other(
    s: Seq<PaymentEntry>,
    i: int,
    payer: AccountId,
    recipient: AccountId,
)
    requires
        0 <= i < s.len(),
        !key_matches(s[i], payer, recipient),
    ensures
        record_in(s.remove(i), payer, recipient) == record_in(s, payer, recipient),
    decreases s.len(),
{
    let t = s.remove(i);
    if i == s.len() - 1 {
        assert(t =~= s.drop_last());
    } else {
        assert(t.last() == s.last());
        assert(t.drop_last() =~= s.drop_last().remove(i));
        assert(s.drop_last()[i] == s[i]);
        lemma_record_remove_other(s.drop_last(), i, payer, recipient);
    }
}

/// Removing an entry lowers a locked total by exactly its contribution.
proof fn lemma_sum_remove(s: Seq<PaymentEntry>, i: int, asset: AssetId, account: AccountId)
    requires
        0 <= i < s.len(),
    ensures
        locked_sum(s.remove(i), asset, account) == locked_sum(s, asset, account) - contribution(
            s[i],
            asset,
            account,
        ),
    decreases s.len(),
{
    let t = s.remove(i);
    if i == s.len() - 1 {
        assert(t =~= s.drop_last());
    } else {
        assert(t.last() == s.last());
        assert(t.drop_last() =~= s.drop_last().remove(i));
        assert(s.drop_last()[i] == s[i]);
        lemma_sum_remove(s.drop_last(), i, asset, account);
    }
}

/// Locked totals are never negative.
proof fn lemma_sum_nonneg(s: Seq<PaymentEntry>, asset: AssetId, account: AccountId)
    ensures
        locked_sum(s, asset, account) >= 0,
    decreases s.len(),
{
    if s.len() > 0 {
        lemma_sum_nonneg(s.drop_last(), asset, account);
    }
}

/// A locked total covers each single entry's contribution.
proof fn lemma_sum_at_least(s: Seq<PaymentEntry>, i: int, asset: AssetId, account: AccountId)
    requires
        0 <= i < s.len(),
    ensures
        locked_sum(s, asset, account) >= contribution(s[i], asset, account),
    decreases s.len(),
{
    if i == s.len() - 1 {
        lemma_sum_nonneg(s.drop_last(), asset, account);
    } else {
        assert(s.drop_last()[i] == s[i]);
        lemma_sum_at_least(s.drop_last(), i, asset, account);
        if contribution(s.last(), asset, account) < 0 {
            assert(false);
        }
    }
}

/// The payment store.
pub struct PaymentStore {
    pub entries: Vec<PaymentEntry>,
}

impl PaymentStore {
    /// Keys are pairwise distinct, every live amount is positive, and every
    /// remark respects the length bound.
    pub open spec fn wf(self) -> bool {
        &&& distinct_keys(self.entries@)
        &&& forall|k: int|
            0 <= k < self.entries@.len() ==> (#[trigger] self.entries@[k]).detail.amount > 0
        &&& forall|k: int|
            0 <= k < self.entries@.len() ==> ((#[trigger] self.entries@[k]).detail.remark matches
            Some(v) ==> v@.len() <= MAX_REMARK_LEN)
    }

    /// The record stored for (payer, recipient), if any.
    pub open spec fn record_of(self, payer: AccountId, recipient: AccountId) -> Option<
        PaymentDetail,
    > {
        record_in(self.entries@, payer, recipient)
    }

    /// The total amount the store locks of `asset` from `account`.
    pub open spec fn locked_total(self, asset: AssetId, account: AccountId) -> int {
        locked_sum(self.entries@, asset, account)
    }

    /// An empty store: no records, zero locked totals.
    pub fn new() -> (r: PaymentStore)
        ensures
            r.wf(),
            forall|p: AccountId, q: AccountId| #[trigger] r.record_of(p, q) is None,
            forall|a: AssetId, c: AccountId| #[trigger] r.locked_total(a, c) == 0,
            r.entries@.len() == 0,
    {
        let r = PaymentStore { entries: Vec::new() };
        proof {
            assert forall|p: AccountId, q: AccountId| #[trigger] r.record_of(p, q) is None by {
                lemma_record_absent(r.entries@, p, q);
            }
        }
        r
    }

    /// Index of the entry for (payer, recipient), if one exists.
    fn find(&self, payer: AccountId, recipient: AccountId) -> (r: Option<usize>)
        requires
            self.wf(),
        ensures
            match r {
                Some(i) => i < self.entries@.len() && key_matches(
                    self.entries@[i as int],
                    payer,
                    recipient,
                ) && self.record_of(payer, recipient) == Some(self.entries@[i as int].detail),
                None => self.record_of(payer, recipient) is None,
            },
    {
        let n = self.entries.len();
        let mut i: usize = 0;
        while i < n
            invariant
                self.wf(),
                n == self.entries@.len(),
                i <= n,
                forall|k: int|
                    0 <= k < i ==> !key_matches(#[trigger] self.entries@[k], payer, recipient),
            decreases n - i,
        {
            let e = &self.entries[i];
            if e.payer == payer && e.recipient == recipient {
                proof {
                    lemma_record_at(self.entries@, payer, recipient, i as int);
                }
                return Some(i);
            }
            i = i + 1;
        }
        proof {
            lemma_record_absent(self.entries@, payer, recipient);
        }
        None
    }

    /// The scalar fields (asset, amount, state, resolver) of the record for
    /// (payer, recipient), if any.
    pub fn scalar_fields(&self, payer: AccountId, recipient: AccountId) -> (r: Option<
        (AssetId, Balance, PaymentState, AccountId),
    >)
        requires
            self.wf(),
        ensures
            match (r, self.record_of(payer, recipient)) {
                (Some(t), Some(d)) => t.0 == d.asset && t.1 == d.amount && t.2 == d.state && t.3
                    == d.resolver,
                (None, None) => true,
                _ => false,
            },
    {
        match self.find(payer, recipient) {
            Some(i) => {
                let e = &self.entries[i];
                Some((e.detail.asset, e.detail.amount, e.detail.state, e.detail.resolver))
            }
            None => None,
        }
    }

    /// Store a fresh record under a key that has none.
    pub fn insert(&mut self, payer: AccountId, recipient: AccountId, detail: PaymentDetail)
        requires
            old(self).wf(),
            old(self).record_of(payer, recipient) is None,
            detail.amount > 0,
            detail.remark matches Some(v) ==> v@.len() <= MAX_REMARK_LEN,
        ensures
            final(self).wf(),
            final(self).record_of(payer, recipient) == Some(detail),
            forall|p: AccountId, q: AccountId|
                !(p == payer && q == recipient) ==> #[trigger] final(self).record_of(p, q) == old(self).record_of(p, q),
            forall|a: AssetId, c: AccountId| #[trigger]
                final(self).locked_total(a, c) == old(self).locked_total(a, c) + (
                if c == payer && a == detail.asset {
                    detail.amount as int
                } else {
                    0
                }),
    {
        let e = PaymentEntry { payer, recipient, detail };
        let ghost s0 = self.entries@;
        proof {
            lemma_no_record_means_absent(s0, payer, recipient);
        }
        self.entries.push(e);
        proof {
            let s1 = self.entries@;
            assert(s1 =~= s0.push(e));
            assert forall|p: int, q: int| #![trigger s1[p], s1[q]]
                0 <= p < q < s1.len() implies !(s1[p].payer == s1[q].payer && s1[p].recipient
                == s1[q].recipient) by {
                if q < s1.len() - 1 {
                    assert(s1[p] == s0[p]);
                    assert(s1[q] == s0[q]);
                } else {
                    assert(s1[p] == s0[p]);
                    assert(!key_matches(s0[p], payer, recipient));
                }
            }
            lemma_record_push(s0, e, payer, recipient);
            assert forall|p: AccountId, q: AccountId|
                !(p == payer && q == recipient) implies #[trigger] final(self).record_of(p, q)
                == old(self).record_of(p, q) by {
                lemma_record_push(s0, e, p, q);
            }
            assert forall|a: AssetId, c: AccountId| #[trigger]
                final(self).locked_total(a, c) == old(self).locked_total(a, c) + (
            if c == payer && a == detail.asset {
                detail.amount as int
            } else {
                0
            }) by {
                lemma_sum_push(s0, e, a, c);
            }
        }
    }

    /// Delete and return the record for (payer, recipient), if any.
    pub fn remove_entry(&mut self, payer: AccountId, recipient: AccountId) -> (r: Option<
        PaymentDetail,
    >)
        requires
            old(self).wf(),
        ensures
            final(self).wf(),
            r == old(self).record_of(payer, recipient),
            final(self).record_of(payer, recipient) is None,
            forall|p: AccountId, q: AccountId|
                !(p == payer && q == recipient) ==> #[trigger] final(self).record_of(p, q) == old(self).record_of(p, q),
            forall|a: AssetId, c: AccountId| #[trigger]
                final(self).locked_total(a, c) == old(self).locked_total(a, c) - (
                match old(self).record_of(payer, recipient) {
                    Some(d) => if c == payer && a == d.asset {
                        d.amount as int
                    } else {
                        0
                    },
                    None => 0,
                }),
    {
        match self.find(payer, recipient) {
            Some(i) => {
                let ghost s0 = self.entries@;
                let e = self.entries.remove(i);
                proof {
                    let s1 = self.entries@;
                    assert(s1 =~= s0.remove(i as int));
                    assert forall|p: int, q: int| #![trigger s1[p], s1[q]]
                        0 <= p < q < s1.len() implies !(s1[p].payer == s1[q].payer
                        && s1[p].recipient == s1[q].recipient) by {
                        let p0: int = if p < i as int { p } else { p + 1 };
                        let q0: int = if q < i as int { q } else { q + 1 };
                        assert(s1[p] == s0[p0]);
                        assert(s1[q] == s0[q0]);
                    }
                    assert forall|k: int| 0 <= k < s1.len() implies !key_matches(
                        #[trigger] s1[k],
                        payer,
                        recipient,
                    ) by {
                        let k0: int = if k < i as int { k } else { k + 1 };
                        assert(s1[k] == s0[k0]);
                        assert(!(s0[k0].payer == payer && s0[k0].recipient == recipient));
                    }
                    lemma_record_absent(s1, payer, recipient);
                    assert forall|p: AccountId, q: AccountId|
                        !(p == payer && q == recipient) implies #[trigger] final(self).record_of(
                        p,
                        q,
                    ) == old(self).record_of(p, q) by {
                        lemma_record_remove_other(s0, i as int, p, q);
                    }
                    assert forall|a: AssetId, c: AccountId| #[trigger]
                        final(self).locked_total(a, c) == old(self).locked_total(a, c) - (
                    match old(self).record_of(payer, recipient) {
                        Some(d) => if c == payer && a == d.asset {
                            d.amount as int
                        } else {
                            0
                        },
                        None => 0,
                    }) by {
                        lemma_sum_remove(s0, i as int, a, c);
                    }
                }
                Some(e.detail)
            }
            None => None,
        }
    }

    /// Move the record for (payer, recipient) into a new lifecycle state,
    /// leaving its other fields and every locked total untouched.
    pub fn set_state(&mut self, payer: AccountId, recipient: AccountId, new_state: PaymentState)
        requires
            old(self).wf(),
            old(self).record_of(payer, recipient) is Some,
        ensures
            final(self).wf(),
            match old(self).record_of(payer, recipient) {
                Some(d) => final(self).record_of(payer, recipient) == Some(
                    PaymentDetail {
                        asset: d.asset,
                        amount: d.amount,
                        state: new_state,
                        resolver: d.resolver,
                        remark: d.remark,
                    },
                ),
                None => false,
            },
            forall|p: AccountId, q: AccountId|
                !(p == payer && q == recipient) ==> #[trigger] final(self).record_of(p, q) == old(self).record_of(p, q),
            forall|a: AssetId, c: AccountId| #[trigger]
                final(self).locked_total(a, c) == old(self).locked_total(a, c),
    {
        match self.find(payer, recipient) {
            Some(i) => {
                let ghost s0 = self.entries@;
                self.entries[i].detail.state = new_state;
                proof {
                    let s1 = self.entries@;
                    let e1 = s1[i as int];
                    assert(s1 =~= s0.update(i as int, e1));
                    assert(e1.payer == s0[i as int].payer && e1.recipient == s0[i as int].recipient);
                    assert(e1.detail.asset == s0[i as int].detail.asset && e1.detail.amount == s0[
                        i as int
                    ].detail.amount);
                    assert forall|p: int, q: int| #![trigger s1[p], s1[q]]
                        0 <= p < q < s1.len() implies !(s1[p].payer == s1[q].payer
                        && s1[p].recipient == s1[q].recipient) by {
                        assert(s0[p].payer == s1[p].payer && s0[p].recipient == s1[p].recipient);
                        assert(s0[q].payer == s1[q].payer && s0[q].recipient == s1[q].recipient);
                    }
                    lemma_record_at(s1, payer, recipient, i as int);
                    assert forall|p: AccountId, q: AccountId|
                        !(p == payer && q == recipient) implies #[trigger] final(self).record_of(
                        p,
                        q,
                    ) == old(self).record_of(p, q) by {
                        lemma_record_update_other(s0, i as int, e1, p, q);
                    }
                    assert forall|a: AssetId, c: AccountId| #[trigger]
                        final(self).locked_total(a, c) == old(self).locked_total(a, c) by {
                        lemma_sum_update(s0, i as int, e1, a, c);
                    }
                }
            }
            None => {
                proof {
                    assert(false);
                }
            }
        }
    }

    /// A live record's amount never exceeds the locked total of its asset and
    /// payer: the ledger lock backing one payment covers it.
    pub proof fn lemma_record_within_total(
        self,
        payer: AccountId,
        recipient: AccountId,
        d: PaymentDetail,
    )
        requires
            self.wf(),
            self.record_of(payer, recipient) == Some(d),
        ensures
            self.locked_total(d.asset, payer) >= d.amount,
            d.amount > 0,
    {
        let s = self.entries@;
        let i = choose|i: int| 0 <= i < s.len() && key_matches(s[i], payer, recipient);
        assert(exists|i: int| 0 <= i < s.len() && key_matches(s[i], payer, recipient)) by {
            if forall|k: int| 0 <= k < s.len() ==> !key_matches(#[trigger] s[k], payer, recipient) {
                lemma_record_absent(s, payer, recipient);
            }
        }
        lemma_record_at(s, payer, recipient, i);
        lemma_sum_at_least(s, i, d.asset, payer);
    }
}

} // verus!
