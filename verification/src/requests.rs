//! The payment-request store: recipient-initiated requests that hold no funds
//! until the payer accepts them.

use vstd::prelude::*;

verus! {

use crate::types::{AccountId, AssetId, Balance};

/// What a recipient asked a payer for.
#[derive(Clone, Copy, Debug, PartialEq, Eq, Structural)]
pub struct RequestDetail {
    /// The requested currency.
    pub asset: AssetId,
    /// The requested quantity; always positive.
    pub amount: Balance,
}

/// One stored request with its key.
pub struct RequestEntry {
    pub payer: AccountId,
    pub recipient: AccountId,
    pub detail: RequestDetail,
}

/// Whether `e` is keyed by the ordered pair (payer, recipient).
pub open spec fn request_key_matches(
    e: RequestEntry,
    payer: AccountId,
    recipient: AccountId,
) -> bool {
    e.payer == payer && e.recipient == recipient
}

/// The request stored for (payer, recipient) in `s`, if any.
pub open spec fn request_in(s: Seq<RequestEntry>, payer: AccountId, recipient: AccountId) -> Option<
    RequestDetail,
>
    decreases s.len(),
{
    if s.len() == 0 {
        None
    } else if request_key_matches(s.last(), payer, recipient) {
        Some(s.last().detail)
    } else {
        request_in(s.drop_last(), payer, recipient)
    }
}

/// No two entries share a (payer, recipient) key.
pub open spec fn distinct_request_keys(s: Seq<RequestEntry>) -> bool {
    forall|i: int, j: int| #![trigger s[i], s[j]]
        0 <= i < j < s.len() ==> !(s[i].payer == s[j].payer && s[i].recipient == s[j].recipient)
}

/// With distinct keys, the stored request for a key is the one entry carrying it.
proof fn lemma_request_at(s: Seq<RequestEntry>, payer: AccountId, recipient: AccountId, i: int)
    requires
        distinct_request_keys(s),
        0 <= i < s.len(),
        request_key_matches(s[i], payer, recipient),
    ensures
        request_in(s, payer, recipient) == Some(s[i].detail),
    decreases s.len(),
{
    if i == s.len() - 1 {
        assert(s.last() == s[i]);
    } else {
        assert(!(s[i].payer == s[s.len() - 1].payer && s[i].recipient == s[s.len() - 1].recipient));
        let t = s.drop_last();
        assert forall|p: int, q: int| #![trigger t[p], t[q]]
            0 <= p < q < t.len() implies !(t[p].payer == t[q].payer && t[p].recipient
            == t[q].recipient) by {
            assert(t[p] == s[p]);
            assert(t[q] == s[q]);
        }
        assert(t[i] == s[i]);
        lemma_request_at(t, payer, recipient, i);
    }
}

/// A key carried by no entry has no request.
proof fn lemma_request_absent(s: Seq<RequestEntry>, payer: AccountId, recipient: AccountId)
    requires
        forall|k: int| 0 <= k < s.len() ==> !request_key_matches(#[trigger] s[k], payer, recipient),
    ensures
        request_in(s, payer, recipient) is None,
    decreases s.len(),
{
    if s.len() > 0 {
        assert(!request_key_matches(s[s.len() - 1], payer, recipient));
        let t = s.drop_last();
        assert forall|k: int| 0 <= k < t.len() implies !request_key_matches(
            #[trigger] t[k],
            payer,
            recipient,
        ) by {
            assert(t[k] == s[k]);
        }
        lemma_request_absent(t, payer, recipient);
    }
}

/// A key with no request is carried by no entry.
proof fn lemma_no_request_means_absent(
    s: Seq<RequestEntry>,
    payer: AccountId,
    recipient: AccountId,
)
    requires
        request_in(s, payer, recipient) is None,
    ensures
        forall|k: int| 0 <= k < s.len() ==> !request_key_matches(#[trigger] s[k], payer, recipient),
    decreases s.len(),
{
    if s.len() > 0 {
        let t = s.drop_last();
        lemma_no_request_means_absent(t, payer, recipient);
        assert forall|k: int| 0 <= k < s.len() implies !request_key_matches(
            #[trigger] s[k],
            payer,
            recipient,
        ) by {
            if k < s.len() - 1 {
                assert(t[k] == s[k]);
            }
        }
    }
}

/// Appending an entry stores its request and leaves other keys alone.
proof fn lemma_request_push(
    s: Seq<RequestEntry>,
    e: RequestEntry,
    payer: AccountId,
    recipient: AccountId,
)
    ensures
        request_in(s.push(e), payer, recipient) == if request_key_matches(e, payer, recipient) {
            Some(e.detail)
        } else {
            request_in(s, payer, recipient)
        },
{
    assert(s.push(e).last() == e);
    assert(s.push(e).drop_last() =~= s);
}

/// Removing an entry leaves other keys' requests alone.
proof fn lemma_request_remove_other(
    s: Seq<RequestEntry>,
    i: int,
    payer: AccountId,
    recipient: AccountId,
)
    requires
        0 <= i < s.len(),
        !request_key_matches(s[i], payer, recipient),
    ensures
        request_in(s.remove(i), payer, recipient) == request_in(s, payer, recipient),
    decreases s.len(),
{
    let t = s.remove(i);
    if i == s.len() - 1 {
        assert(t =~= s.drop_last());
    } else {
        assert(t.last() == s.last());
        assert(t.drop_last() =~= s.drop_last().remove(i));
        assert(s.drop_last()[i] == s[i]);
        lemma_request_remove_other(s.drop_last(), i, payer, recipient);
    }
}

/// The request store.
pub struct RequestStore {
    pub entries: Vec<RequestEntry>,
}

impl RequestStore {
    /// Keys are pairwise distinct and every requested amount is positive.
    pub open spec fn wf(self) -> bool {
        &&& distinct_request_keys(self.entries@)
        &&& forall|k: int|
            0 <= k < self.entries@.len() ==> (#[trigger] self.entries@[k]).detail.amount > 0
    }

    /// The request stored for (payer, recipient), if any.
    pub open spec fn request_of(self, payer: AccountId, recipient: AccountId) -> Option<
        RequestDetail,
    > {
        request_in(self.entries@, payer, recipient)
    }

    /// An empty store.
    pub fn new() -> (r: RequestStore)
        ensures
            r.wf(),
            forall|p: AccountId, q: AccountId| #[trigger] r.request_of(p, q) is None,
    {
        let r = RequestStore { entries: Vec::new() };
        proof {
            assert forall|p: AccountId, q: AccountId| #[trigger] r.request_of(p, q) is None by {
                lemma_request_absent(r.entries@, p, q);
            }
        }
        r
    }

    /// Index of the entry for (payer, recipient), if one exists.
    fn find(&self, payer: AccountId, recipient: AccountId) -> (r: Option<usize>)
        requires
            self.wf(),
        ensures
            match r {
                Some(i) => i < self.entries@.len() && request_key_matches(
                    self.entries@[i as int],
                    payer,
                    recipient,
                ) && self.request_of(payer, recipient) == Some(self.entries@[i as int].detail),
                None => self.request_of(payer, recipient) is None,
            },
    {
        let n = self.entries.len();
        let mut i: usize = 0;
        while i < n
            invariant
                self.wf(),
                n == self.entries@.len(),
                i <= n,
                forall|k: int|
                    0 <= k < i ==> !request_key_matches(
                        #[trigger] self.entries@[k],
                        payer,
                        recipient,
                    ),
            decreases n - i,
        {
            let e = &self.entries[i];
            if e.payer == payer && e.recipient == recipient {
                proof {
                    lemma_request_at(self.entries@, payer, recipient, i as int);
                }
                return Some(i);
            }
            i = i + 1;
        }
        proof {
            lemma_request_absent(self.entries@, payer, recipient);
        }
        None
    }

    /// The request stored for (payer, recipient), if any.
    pub fn lookup(&self, payer: AccountId, recipient: AccountId) -> (r: Option<RequestDetail>)
        requires
            self.wf(),
        ensures
            r == self.request_of(payer, recipient),
    {
        match self.find(payer, recipient) {
            Some(i) => Some(self.entries[i].detail),
            None => None,
        }
    }

    /// Store a fresh request under a key that has none.
    pub fn insert(&mut self, payer: AccountId, recipient: AccountId, detail: RequestDetail)
        requires
            old(self).wf(),
            old(self).request_of(payer, recipient) is None,
            detail.amount > 0,
        ensures
            final(self).wf(),
            final(self).request_of(payer, recipient) == Some(detail),
            forall|p: AccountId, q: AccountId|
                !(p == payer && q == recipient) ==> #[trigger] final(self).request_of(p, q) == old(self).request_of(p, q),
    {
        let e = RequestEntry { payer, recipient, detail };
        let ghost s0 = self.entries@;
        proof {
            lemma_no_request_means_absent(s0, payer, recipient);
        }
        self.entries.push(e);
        proof {
            let s1 = self.entries@;
            assert(s1 =~= s0.push(e));
            assert forall|p: int, q: int| #![trigger s1[p], s1[q]]
                0 <= p < q < s1.len() implies !(s1[p].payer == s1[q].payer && s1[p].recipient
                == s1[q].recipient) by {
                if q < s1.len() - 1 {
                    assert(s1[p] == s0[p]);
                    assert(s1[q] == s0[q]);
                } else {
                    assert(s1[p] == s0[p]);
                    assert(!request_key_matches(s0[p], payer, recipient));
                }
            }
            lemma_request_push(s0, e, payer, recipient);
            assert forall|p: AccountId, q: AccountId|
                !(p == payer && q == recipient) implies #[trigger] final(self).request_of(p, q)
                == old(self).request_of(p, q) by {
                lemma_request_push(s0, e, p, q);
            }
        }
    }

    /// Delete and return the request for (payer, recipient), if any.
    pub fn remove_entry(&mut self, payer: AccountId, recipient: AccountId) -> (r: Option<
        RequestDetail,
    >)
        requires
            old(self).wf(),
        ensures
            final(self).wf(),
            r == old(self).request_of(payer, recipient),
            final(self).request_of(payer, recipient) is None,
            forall|p: AccountId, q: AccountId|
                !(p == payer && q == recipient) ==> #[trigger] final(self).request_of(p, q) == old(self).request_of(p, q),
    {
        match self.find(payer, recipient) {
            Some(i) => {
                let ghost s0 = self.entries@;
                let e = self.entries.remove(i);
                proof {
                    let s1 = self.entries@;
                    assert(s1 =~= s0.remove(i as int));
                    assert forall|p: int, q: int| #![trigger s1[p], s1[q]]
                        0 <= p < q < s1.len() implies !(s1[p].payer == s1[q].payer
                        && s1[p].recipient == s1[q].recipient) by {
                        let p0: int = if p < i as int { p } else { p + 1 };
                        let q0: int = if q < i as int { q } else { q + 1 };
                        assert(s1[p] == s0[p0]);
                        assert(s1[q] == s0[q0]);
                    }
                    assert forall|k: int| 0 <= k < s1.len() implies !request_key_matches(
                        #[trigger] s1[k],
                        payer,
                        recipient,
                    ) by {
                        let k0: int = if k < i as int { k } else { k + 1 };
                        assert(s1[k] == s0[k0]);
                        assert(!(s0[k0].payer == payer && s0[k0].recipient == recipient));
                    }
                    lemma_request_absent(s1, payer, recipient);
                    assert forall|p: AccountId, q: AccountId|
                        !(p == payer && q == recipient) implies #[trigger] final(self).request_of(
                        p,
                        q,
                    ) == old(self).request_of(p, q) by {
                        lemma_request_remove_other(s0, i as int, p, q);
                    }
                }
                Some(e.detail)
            }
            None => None,
        }
    }
}

} // verus!
