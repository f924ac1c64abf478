//! The scheduled-task registry: a bounded association from a
//! (payer, recipient) pair to one pending deferred action and its due time.

use vstd::prelude::*;

verus! {

use crate::types::{AccountId, Moment, PaymentError, ScheduledTask, MAX_SCHEDULED_TASKS};

/// One registered deferred action with its key.
pub struct TaskEntry {
    pub payer: AccountId,
    pub recipient: AccountId,
    pub entry: ScheduledTask,
}

/// Whether `e` is keyed by the ordered pair (payer, recipient).
pub open spec fn task_key_matches(e: TaskEntry, payer: AccountId, recipient: AccountId) -> bool {
    e.payer == payer && e.recipient == recipient
}

/// The task registered for (payer, recipient) in `s`, if any.
pub open spec fn task_in(s: Seq<TaskEntry>, payer: AccountId, recipient: AccountId) -> Option<
    ScheduledTask,
>
    decreases s.len(),
{
    if s.len() == 0 {
        None
    } else if task_key_matches(s.last(), payer, recipient) {
        Some(s.last().entry)
    } else {
        task_in(s.drop_last(), payer, recipient)
    }
}

/// No two entries share a (payer, recipient) key.
pub open spec fn distinct_task_keys(s: Seq<TaskEntry>) -> bool {
    forall|i: int, j: int| #![trigger s[i], s[j]]
        0 <= i < j < s.len() ==> !(s[i].payer == s[j].payer && s[i].recipient == s[j].recipient)
}

/// With distinct keys, the registered task for a key is the one entry carrying it.
proof fn lemma_task_at(s: Seq<TaskEntry>, payer: AccountId, recipient: AccountId, i: int)
    requires
        distinct_task_keys(s),
        0 <= i < s.len(),
        task_key_matches(s[i], payer, recipient),
    ensures
        task_in(s, payer, recipient) == Some(s[i].entry),
    decreases s.len(),
{
    if i == s.len() - 1 {
        assert(s.last() == s[i]);
    } else {
        assert(!(s[i].payer == s[s.len() - 1].payer && s[i].recipient == s[s.len() - 1].recipient));
        let t = s.drop_last();
        assert forall|p: int, q: int| #![trigger t[p], t[q]]
            0 <= p < q < t.len() implies !(t[p].payer == t[q].payer && t[p].recipient
            == t[q].recipient) by {
            assert(t[p] == s[p]);
            assert(t[q] == s[q]);
        }
        assert(t[i] == s[i]);
        lemma_task_at(t, payer, recipient, i);
    }
}

/// A key carried by no entry has no registered task.
proof fn lemma_task_absent(s: Seq<TaskEntry>, payer: AccountId, recipient: AccountId)
    requires
        forall|k: int| 0 <= k < s.len() ==> !task_key_matches(#[trigger] s[k], payer, recipient),
    ensures
        task_in(s, payer, recipient) is None,
    decreases s.len(),
{
    if s.len() > 0 {
        assert(!task_key_matches(s[s.len() - 1], payer, recipient));
        let t = s.drop_last();
        assert forall|k: int| 0 <= k < t.len() implies !task_key_matches(
            #[trigger] t[k],
            payer,
            recipient,
        ) by {
            assert(t[k] == s[k]);
        }
        lemma_task_absent(t, payer, recipient);
    }
}

/// A key with no registered task is carried by no entry.
proof fn lemma_no_task_means_absent(s: Seq<TaskEntry>, payer: AccountId, recipient: AccountId)
    requires
        task_in(s, payer, recipient) is None,
    ensures
        forall|k: int| 0 <= k < s.len() ==> !task_key_matches(#[trigger] s[k], payer, recipient),
    decreases s.len(),
{
    if s.len() > 0 {
        let t = s.drop_last();
        lemma_no_task_means_absent(t, payer, recipient);
        assert forall|k: int| 0 <= k < s.len() implies !task_key_matches(
            #[trigger] s[k],
            payer,
            recipient,
        ) by {
            if k < s.len() - 1 {
                assert(t[k] == s[k]);
            }
        }
    }
}

/// A registered task is carried by some entry.
proof fn lemma_task_present(s: Seq<TaskEntry>, payer: AccountId, recipient: AccountId)
    requires
        task_in(s, payer, recipient) is Some,
    ensures
        exists|k: int|
            0 <= k < s.len() && task_key_matches(#[trigger] s[k], payer, recipient) && s[k].entry
                == task_in(s, payer, recipient)->Some_0,
    decreases s.len(),
{
    if task_key_matches(s.last(), payer, recipient) {
        assert(s[s.len() - 1] == s.last());
    } else {
        let t = s.drop_last();
        lemma_task_present(t, payer, recipient);
        let k = choose|k: int|
            0 <= k < t.len() && task_key_matches(#[trigger] t[k], payer, recipient) && t[k].entry
                == task_in(t, payer, recipient)->Some_0;
        assert(s[k] == t[k]);
    }
}

/// Appending an entry registers its task and leaves other keys alone.
proof fn lemma_task_push(
    s: Seq<TaskEntry>,
    e: TaskEntry,
    payer: AccountId,
    recipient: AccountId,
)
    ensures
        task_in(s.push(e), payer, recipient) == if task_key_matches(e, payer, recipient) {
            Some(e.entry)
        } else {
            task_in(s, payer, recipient)
        },
{
    assert(s.push(e).last() == e);
    assert(s.push(e).drop_last() =~= s);
}

/// Removing an entry leaves other keys' tasks alone.
proof fn lemma_task_remove_other(
    s: Seq<TaskEntry>,
    i: int,
    payer: AccountId,
    recipient: AccountId,
)
    requires
        0 <= i < s.len(),
        !task_key_matches(s[i], payer, recipient),
    ensures
        task_in(s.remove(i), payer, recipient) == task_in(s, payer, recipient),
    decreases s.len(),
{
    let t = s.remove(i);
    if i == s.len() - 1 {
        assert(t =~= s.drop_last());
    } else {
        assert(t.last() == s.last());
        assert(t.drop_last() =~= s.drop_last().remove(i));
        assert(s.drop_last()[i] == s[i]);
        lemma_task_remove_other(s.drop_last(), i, payer, recipient);
    }
}

/// The bounded registry of pending deferred actions.
pub struct TaskRegistry {
    pub entries: Vec<TaskEntry>,
}

impl TaskRegistry {
    /// Keys are pairwise distinct and the registry respects its size cap.
    pub open spec fn wf(self) -> bool {
        &&& distinct_task_keys(self.entries@)
        &&& self.entries@.len() <= MAX_SCHEDULED_TASKS
    }

    /// The task registered for (payer, recipient), if any.
    pub open spec fn task_of(self, payer: AccountId, recipient: AccountId) -> Option<
        ScheduledTask,
    > {
        task_in(self.entries@, payer, recipient)
    }

    /// An empty registry.
    pub fn new() -> (r: TaskRegistry)
        ensures
            r.wf(),
            forall|p: AccountId, q: AccountId| #[trigger] r.task_of(p, q) is None,
            r.entries@.len() == 0,
    {
        let r = TaskRegistry { entries: Vec::new() };
        proof {
            assert forall|p: AccountId, q: AccountId| #[trigger] r.task_of(p, q) is None by {
                lemma_task_absent(r.entries@, p, q);
            }
        }
        r
    }

    /// Index of the entry for (payer, recipient), if one exists.
    fn find(&self, payer: AccountId, recipient: AccountId) -> (r: Option<usize>)
        requires
            self.wf(),
        ensures
            match r {
                Some(i) => i < self.entries@.len() && task_key_matches(
                    self.entries@[i as int],
                    payer,
                    recipient,
                ) && self.task_of(payer, recipient) == Some(self.entries@[i as int].entry),
                None => self.task_of(payer, recipient) is None,
            },
    {
        let n = self.entries.len();
        let mut i: usize = 0;
        while i < n
            invariant
                self.wf(),
                n == self.entries@.len(),
                i <= n,
                forall|k: int|
                    0 <= k < i ==> !task_key_matches(#[trigger] self.entries@[k], payer, recipient),
            decreases n - i,
        {
            let e = &self.entries[i];
            if e.payer == payer && e.recipient == recipient {
                proof {
                    lemma_task_at(self.entries@, payer, recipient, i as int);
                }
                return Some(i);
            }
            i = i + 1;
        }
        proof {
            lemma_task_absent(self.entries@, payer, recipient);
        }
        None
    }

    /// The task registered for (payer, recipient), if any.
    pub fn lookup(&self, payer: AccountId, recipient: AccountId) -> (r: Option<ScheduledTask>)
        requires
            self.wf(),
        ensures
            r == self.task_of(payer, recipient),
    {
        match self.find(payer, recipient) {
            Some(i) => Some(self.entries[i].entry),
            None => None,
        }
    }

    /// Register a task under a key that has none, refusing when full.
    pub fn try_insert(
        &mut self,
        payer: AccountId,
        recipient: AccountId,
        entry: ScheduledTask,
    ) -> (r: Result<(), PaymentError>)
        requires
            old(self).wf(),
            old(self).task_of(payer, recipient) is None,
        ensures
            final(self).wf(),
            r is Ok <==> old(self).entries@.len() < MAX_SCHEDULED_TASKS,
            r is Ok ==> final(self).task_of(payer, recipient) == Some(entry) && final(self).entries@.len() == old(self).entries@.len() + 1,
            r is Err ==> r == Err::<(), PaymentError>(PaymentError::CapacityExceeded) && final(self).entries@ == old(self).entries@,
            forall|p: AccountId, q: AccountId|
                !(p == payer && q == recipient) ==> #[trigger] final(self).task_of(p, q) == old(self).task_of(p, q),
    {
        if self.entries.len() < MAX_SCHEDULED_TASKS {
            let e = TaskEntry { payer, recipient, entry };
            let ghost s0 = self.entries@;
            proof {
                lemma_no_task_means_absent(s0, payer, recipient);
            }
            self.entries.push(e);
            proof {
                let s1 = self.entries@;
                assert(s1 =~= s0.push(e));
                assert forall|p: int, q: int| #![trigger s1[p], s1[q]]
                    0 <= p < q < s1.len() implies !(s1[p].payer == s1[q].payer && s1[p].recipient
                    == s1[q].recipient) by {
                    if q < s1.len() - 1 {
                        assert(s1[p] == s0[p]);
                        assert(s1[q] == s0[q]);
                    } else {
                        assert(s1[p] == s0[p]);
                        assert(!task_key_matches(s0[p], payer, recipient));
                    }
                }
                lemma_task_push(s0, e, payer, recipient);
                assert forall|p: AccountId, q: AccountId|
                    !(p == payer && q == recipient) implies #[trigger] final(self).task_of(p, q)
                    == old(self).task_of(p, q) by {
                    lemma_task_push(s0, e, p, q);
                }
            }
            Ok(())
        } else {
            Err(PaymentError::CapacityExceeded)
        }
    }

    /// Drop the entry for (payer, recipient), if any; a no-op otherwise.
    pub fn remove(&mut self, payer: AccountId, recipient: AccountId)
        requires
            old(self).wf(),
        ensures
            final(self).wf(),
            final(self).task_of(payer, recipient) is None,
            old(self).task_of(payer, recipient) is Some ==> final(self).entries@.len() == old(self).entries@.len() - 1,
            old(self).task_of(payer, recipient) is None ==> final(self).entries@ == old(self).entries@,
            forall|p: AccountId, q: AccountId|
                !(p == payer && q == recipient) ==> #[trigger] final(self).task_of(p, q) == old(self).task_of(p, q),
    {
        match self.find(payer, recipient) {
            Some(i) => {
                let ghost s0 = self.entries@;
                let _ = self.entries.remove(i);
                proof {
                    let s1 = self.entries@;
                    assert(s1 =~= s0.remove(i as int));
                    assert forall|p: int, q: int| #![trigger s1[p], s1[q]]
                        0 <= p < q < s1.len() implies !(s1[p].payer == s1[q].payer
                        && s1[p].recipient == s1[q].recipient) by {
                        let p0: int = if p < i as int { p } else { p + 1 };
                        let q0: int = if q < i as int { q } else { q + 1 };
                        assert(s1[p] == s0[p0]);
                        assert(s1[q] == s0[q0]);
                    }
                    assert forall|k: int| 0 <= k < s1.len() implies !task_key_matches(
                        #[trigger] s1[k],
                        payer,
                        recipient,
                    ) by {
                        let k0: int = if k < i as int { k } else { k + 1 };
                        assert(s1[k] == s0[k0]);
                        assert(!(s0[k0].payer == payer && s0[k0].recipient == recipient));
                    }
                    lemma_task_absent(s1, payer, recipient);
                    assert forall|p: AccountId, q: AccountId|
                        !(p == payer && q == recipient) implies #[trigger] final(self).task_of(
                        p,
                        q,
                    ) == old(self).task_of(p, q) by {
                        lemma_task_remove_other(s0, i as int, p, q);
                    }
                }
            }
            None => {},
        }
    }

    /// A pair whose task is due at `now`, if any remains.
    pub fn find_due(&self, now: Moment) -> (r: Option<(AccountId, AccountId)>)
        requires
            self.wf(),
        ensures
            match r {
                Some(pair) => self.task_of(pair.0, pair.1) matches Some(t) && t.when <= now,
                None => forall|p: AccountId, q: AccountId|
                    #[trigger] self.task_of(p, q) matches Some(t) ==> t.when > now,
            },
    {
        let n = self.entries.len();
        let mut i: usize = 0;
        while i < n
            invariant
                self.wf(),
                n == self.entries@.len(),
                i <= n,
                forall|k: int| 0 <= k < i ==> (#[trigger] self.entries@[k]).entry.when > now,
            decreases n - i,
        {
            let e = &self.entries[i];
            if e.entry.when <= now {
                proof {
                    lemma_task_at(self.entries@, e.payer, e.recipient, i as int);
                }
                return Some((e.payer, e.recipient));
            }
            i = i + 1;
        }
        proof {
            assert forall|p: AccountId, q: AccountId| #[trigger] self.task_of(p, q) is Some implies
                self.task_of(p, q)->Some_0.when > now by {
                lemma_task_present(self.entries@, p, q);
            }
        }
        None
    }
}

} // verus!
