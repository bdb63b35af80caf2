use vstd::prelude::*;

use crate::data::{
    has_key, idx_of, lemma_idx_of_at, lemma_idx_of_none, lemma_idx_of_push, lemma_idx_of_range,
    lemma_idx_of_update, lookup, unique_keys,
};

verus! {

/// The per-chat pacing clock: each chat maps to the earliest instant the
/// next privileged call may go out, in milliseconds.
pub struct RateSlots {
    pub slots: Vec<(i64, u64)>,
}

/// A privileged call reserves the chat for this long.
pub const BLOCK_MILLIS: u64 = 100000;

/// The standard gap between completed privileged calls.
pub const RELEASE_MILLIS: u64 = 1000;

impl RateSlots {
    pub open spec fn inv(&self) -> bool {
        unique_keys(self.slots@)
    }

    pub fn new() -> (r: RateSlots)
        ensures
            r.inv(),
            r.slots@.len() == 0,
    {
        RateSlots { slots: Vec::new() }
    }

    fn find_slot(&self, chat: i64) -> (res: Option<usize>)
        ensures
            match res {
                Some(i) => i < self.slots@.len() && idx_of(self.slots@, chat) == i,
                None => !has_key(self.slots@, chat),
            },
    {
        let n = self.slots.len();
        let mut i: usize = 0;
        while i < n
            invariant
                n == self.slots@.len(),
                i <= n,
                forall|j: int| 0 <= j < i ==> (#[trigger] self.slots@[j]).0 != chat,
            decreases n - i,
        {
            if self.slots[i].0 == chat {
                proof {
                    lemma_idx_of_at(self.slots@, chat, i as int);
                }
                return Some(i);
            }
            i += 1;
        }
        proof {
            lemma_idx_of_none(self.slots@, chat);
        }
        None
    }

    /// When the next call to this chat may go out: its recorded slot, or
    /// right now for an unknown or expired chat.
    pub fn deadline(&self, chat: i64, now: u64) -> (r: u64)
        ensures
            r == (match lookup(self.slots@, chat) {
                Some(t) => if t > now {
                    t
                } else {
                    now
                },
                None => now,
            }),
    {
        match self.find_slot(chat) {
            None => now,
            Some(i) => {
                proof {
                    lemma_idx_of_range(self.slots@, chat);
                }
                let t = self.slots[i].1;
                if t > now {
                    t
                } else {
                    now
                }
            },
        }
    }

    /// Records a slot for one chat, leaving every other chat's slot alone.
    fn set_slot(&mut self, chat: i64, at: u64)
        requires
            old(self).inv(),
        ensures
            final(self).inv(),
            lookup(final(self).slots@, chat) == Some(at),
            forall|k: i64|
                k != chat ==> lookup(final(self).slots@, k) == lookup(old(self).slots@, k),
    {
        let ghost oldm = self.slots@;
        match self.find_slot(chat) {
            Some(i) => {
                self.slots[i] = (chat, at);
                proof {
                    lemma_idx_of_range(oldm, chat);
                    assert(self.slots@ =~= oldm.update(i as int, (chat, at)));
                    assert forall|k: i64| true implies idx_of(self.slots@, k) == idx_of(
                        oldm,
                        k,
                    ) by {
                        lemma_idx_of_update(oldm, i as int, (chat, at), k);
                    }
                    assert forall|k: i64|
                        k != chat implies lookup(final(self).slots@, k) == lookup(oldm, k) by {
                        lemma_idx_of_range(oldm, k);
                        if idx_of(oldm, k) >= 0 {
                            assert(idx_of(oldm, k) != i as int);
                            assert(self.slots@[idx_of(oldm, k)] == oldm[idx_of(oldm, k)]);
                        }
                    }
                    assert(unique_keys(self.slots@)) by {
                        assert forall|a: int, b: int|
                            0 <= a < b < self.slots@.len() implies (#[trigger] self.slots@[a]).0
                            != (#[trigger] self.slots@[b]).0 by {
                            assert(self.slots@[a].0 == oldm[a].0);
                            assert(self.slots@[b].0 == oldm[b].0);
                        }
                    }
                }
            },
            None => {
                self.slots.push((chat, at));
                proof {
                    assert(self.slots@ =~= oldm.push((chat, at)));
                    lemma_idx_of_push(oldm, (chat, at), chat);
                    assert forall|k: i64|
                        k != chat implies lookup(final(self).slots@, k) == lookup(oldm, k) by {
                        lemma_idx_of_push(oldm, (chat, at), k);
                        lemma_idx_of_range(oldm, k);
                        if idx_of(oldm, k) >= 0 {
                            assert(self.slots@[idx_of(oldm, k)] == oldm[idx_of(oldm, k)]);
                        }
                    }
                    lemma_idx_of_range(oldm, chat);
                    assert(unique_keys(self.slots@)) by {
                        assert forall|a: int, b: int|
                            0 <= a < b < self.slots@.len() implies (#[trigger] self.slots@[a]).0
                            != (#[trigger] self.slots@[b]).0 by {
                            if b < oldm.len() {
                                assert(self.slots@[a] == oldm[a]);
                                assert(self.slots@[b] == oldm[b]);
                            } else {
                                assert(self.slots@[b].0 == chat);
                                assert(self.slots@[a] == oldm[a]);
                            }
                        }
                    }
                }
            },
        }
    }

    /// Reserves the chat for a pending multi-step privileged call.
    pub fn block(&mut self, chat: i64, now: u64)
        requires
            old(self).inv(),
            now <= u64::MAX - BLOCK_MILLIS,
        ensures
            final(self).inv(),
            lookup(final(self).slots@, chat) == Some((now + BLOCK_MILLIS) as u64),
            forall|k: i64|
                k != chat ==> lookup(final(self).slots@, k) == lookup(old(self).slots@, k),
    {
        self.set_slot(chat, now + BLOCK_MILLIS);
    }

    /// Opens the chat again after the standard one-second gap.
    pub fn release(&mut self, chat: i64, now: u64)
        requires
            old(self).inv(),
            now <= u64::MAX - BLOCK_MILLIS,
        ensures
            final(self).inv(),
            lookup(final(self).slots@, chat) == Some((now + RELEASE_MILLIS) as u64),
            forall|k: i64|
                k != chat ==> lookup(final(self).slots@, k) == lookup(old(self).slots@, k),
    {
        self.set_slot(chat, now + RELEASE_MILLIS);
    }
}

} // verus!
