//! The pending-request table: a map from identifier to the single-slot
//! delivery state of the request that was sent under that identifier.
//! Entries are inserted at send time and leave exactly once: on the matching
//! response, or on teardown with a cancellation error. Identifiers are
//! unique among outstanding entries; a response is matched by identifier,
//! never by arrival order.

use vstd::prelude::*;

use crate::errors::ErrorKind;
use crate::msg::{id_eq, IdVal, Identifier, Outcome, OutcomeVal};

verus! {

/// The delivery state of one outstanding request.
#[derive(Debug, PartialEq, Eq)]
pub enum Slot {
    /// Sent; no response yet.
    Waiting,
    /// The matching response arrived with this outcome.
    Resolved(Outcome),
    /// Closed out without a response, with this terminal error.
    Cancelled(ErrorKind),
}

/// The mathematical value of a [`Slot`].
pub enum SlotVal {
    Waiting,
    Resolved(OutcomeVal),
    Cancelled(ErrorKind),
}

impl View for Slot {
    type V = SlotVal;

    open spec fn view(&self) -> SlotVal {
        match self {
            Slot::Waiting => SlotVal::Waiting,
            Slot::Resolved(o) => SlotVal::Resolved(o@),
            Slot::Cancelled(k) => SlotVal::Cancelled(*k),
        }
    }
}

pub struct PendingEntry {
    pub id: Identifier,
    pub slot: Slot,
}

/// The table of outstanding requests.
pub struct PendingTable {
    entries: Vec<PendingEntry>,
}

impl View for PendingTable {
    type V = Seq<(IdVal, SlotVal)>;

    closed spec fn view(&self) -> Seq<(IdVal, SlotVal)> {
        self.entries@.map(|i: int, e: PendingEntry| (e.id@, e.slot@))
    }
}

pub open spec fn has_id(s: Seq<(IdVal, SlotVal)>, id: IdVal) -> bool {
    exists|i: int| 0 <= i < s.len() && (#[trigger] s[i]).0 == id
}

pub open spec fn has_waiting(s: Seq<(IdVal, SlotVal)>, id: IdVal) -> bool {
    exists|i: int| 0 <= i < s.len() && (#[trigger] s[i]).0 == id && s[i].1 is Waiting
}

pub open spec fn distinct_ids(s: Seq<(IdVal, SlotVal)>) -> bool {
    forall|i: int, j: int|
        0 <= i < j < s.len() ==> (#[trigger] s[i]).0 != (#[trigger] s[j]).0
}

/// The table after a response with identifier `id` and outcome `out` is
/// dispatched: the waiting entry under that id (if any) becomes resolved;
/// everything else is untouched.
pub open spec fn resolve_spec(
    s: Seq<(IdVal, SlotVal)>,
    id: IdVal,
    out: OutcomeVal,
) -> Seq<(IdVal, SlotVal)> {
    s.map(
        |i: int, e: (IdVal, SlotVal)|
            if e.0 == id && e.1 is Waiting {
                (e.0, SlotVal::Resolved(out))
            } else {
                e
            },
    )
}

/// The table after teardown: every entry still waiting is cancelled with
/// `kind`; already-resolved or already-cancelled entries are untouched.
pub open spec fn cancel_spec(s: Seq<(IdVal, SlotVal)>, kind: ErrorKind) -> Seq<(IdVal, SlotVal)> {
    s.map(
        |i: int, e: (IdVal, SlotVal)|
            if e.1 is Waiting {
                (e.0, SlotVal::Cancelled(kind))
            } else {
                e
            },
    )
}

impl PendingTable {
    /// Identifiers of outstanding entries are pairwise distinct, so a
    /// response can match at most one of them.
    pub open spec fn wf(&self) -> bool {
        distinct_ids(self@)
    }

    pub fn new() -> (r: PendingTable)
        ensures
            r@ =~= Seq::<(IdVal, SlotVal)>::empty(),
            r.wf(),
    {
        PendingTable { entries: Vec::new() }
    }

    pub fn len(&self) -> (r: usize)
        ensures
            r == self@.len(),
    {
        self.entries.len()
    }

    /// The index of the entry under `id`, if any.
    fn find(&self, id: &Identifier) -> (r: Option<usize>)
        ensures
            match r {
                Option::Some(i) => i < self@.len() && self@[i as int].0 == id@,
                Option::None => !has_id(self@, id@),
            },
    {
        let mut i: usize = 0;
        while i < self.entries.len()
            invariant
                i <= self.entries.len(),
                self@.len() == self.entries@.len(),
                forall|j: int| 0 <= j < i ==> (#[trigger] self@[j]).0 != id@,
            decreases self.entries.len() - i,
        {
            if id_eq(&self.entries[i].id, id) {
                proof {
                    assert(self@[i as int].0 == self.entries@[i as int].id@);
                }
                return Option::Some(i);
            }
            proof {
                assert(self@[i as int].0 == self.entries@[i as int].id@);
            }
            i += 1;
        }
        Option::None
    }

    /// Registers a fresh outstanding request under `id`.
    pub fn insert(&mut self, id: Identifier)
        requires
            old(self).wf(),
            !has_id(old(self)@, id@),
        ensures
            final(self).wf(),
            final(self)@ == old(self)@.push((id@, SlotVal::Waiting)),
    {
        let ghost oldv = self@;
        let ghost idv = id@;
        self.entries.push(PendingEntry { id, slot: Slot::Waiting });
        proof {
            assert(self@ =~= oldv.push((idv, SlotVal::Waiting)));
            assert forall|i: int, j: int| 0 <= i < j < self@.len() implies (#[trigger] self@[i]).0
                != (#[trigger] self@[j]).0 by {
                if j == self@.len() - 1 {
                    assert(self@[i] == oldv[i]);
                }
            }
        }
    }

    /// Dispatches a response: if an entry under `id` is waiting, resolve it
    /// with `out` and report a match; otherwise the response is unmatched
    /// (stale or unknown id) and the table is untouched.
    pub fn resolve(&mut self, id: &Identifier, out: Outcome) -> (r: bool)
        requires
            old(self).wf(),
        ensures
            final(self).wf(),
            final(self)@ == resolve_spec(old(self)@, id@, out@),
            r == has_waiting(old(self)@, id@),
    {
        let ghost oldv = self@;
        let idx_opt = self.find(id);
        match idx_opt {
            Option::None => {
                proof {
                    assert forall|i: int| 0 <= i < oldv.len() implies !((#[trigger] oldv[i]).0
                        == id@ && oldv[i].1 is Waiting) by {}
                    assert(self@ =~= resolve_spec(oldv, id@, out@));
                }
                false
            }
            Option::Some(i) => {
                let waiting = match &self.entries[i].slot {
                    Slot::Waiting => true,
                    _ => false,
                };
                if waiting {
                    let id_copy = match id {
                        Identifier::Num(n) => Identifier::Num(*n),
                        Identifier::Str(s) => {
                            let mut c: Vec<u8> = Vec::new();
                            crate::codec::append_range(&mut c, s, 0, s.len());
                            proof {
                                assert(c@ =~= s@);
                            }
                            Identifier::Str(c)
                        }
                    };
                    self.entries[i] = PendingEntry { id: id_copy, slot: Slot::Resolved(out) };
                    proof {
                        assert(self@ =~= resolve_spec(oldv, id@, out@)) by {
                            assert forall|j: int| 0 <= j < oldv.len() implies self@[j]
                                == resolve_spec(oldv, id@, out@)[j] by {
                                if j != i {
                                    assert(oldv[j].0 != id@);
                                }
                            }
                        }
                        assert forall|a: int, b: int|
                            0 <= a < b < self@.len() implies (#[trigger] self@[a]).0
                            != (#[trigger] self@[b]).0 by {
                            assert(self@[a].0 == oldv[a].0);
                            assert(self@[b].0 == oldv[b].0);
                        }
                    }
                    true
                } else {
                    proof {
                        assert forall|j: int|
                            0 <= j < oldv.len() implies !((#[trigger] oldv[j]).0 == id@
                            && oldv[j].1 is Waiting) by {
                            if j != i as int {
                                assert(oldv[j].0 != id@);
                            }
                        }
                        assert(self@ =~= resolve_spec(oldv, id@, out@));
                    }
                    false
                }
            }
        }
    }

    /// Removes and returns the entry under `id` once it is terminal
    /// (resolved or cancelled); a waiting or absent entry is left alone.
    pub fn poll_remove(&mut self, id: &Identifier) -> (r: Option<Slot>)
        requires
            old(self).wf(),
        ensures
            final(self).wf(),
            match r {
                Option::Some(slot) => !(slot@ is Waiting) && exists|i: int|
                    0 <= i < old(self)@.len() && (#[trigger] old(self)@[i]).0 == id@ && old(
                        self,
                    )@[i].1 == slot@ && final(self)@ == old(self)@.remove(i),
                Option::None => final(self)@ == old(self)@ && (forall|i: int|
                    0 <= i < old(self)@.len() && (#[trigger] old(self)@[i]).0 == id@ ==> old(
                        self,
                    )@[i].1 is Waiting),
            },
    {
        let ghost oldv = self@;
        let idx_opt = self.find(id);
        match idx_opt {
            Option::None => Option::None,
            Option::Some(i) => {
                let waiting = match &self.entries[i].slot {
                    Slot::Waiting => true,
                    _ => false,
                };
                if waiting {
                    proof {
                        assert forall|j: int|
                            0 <= j < oldv.len() && (#[trigger] oldv[j]).0 == id@ implies oldv[j].1
                            is Waiting by {
                            if j != i as int {
                                assert(oldv[j].0 != id@);
                            }
                        }
                    }
                    Option::None
                } else {
                    let e = self.entries.remove(i);
                    proof {
                        assert(self@ =~= oldv.remove(i as int));
                        assert(oldv[i as int].1 == e.slot@);
                        assert forall|a: int, b: int|
                            0 <= a < b < self@.len() implies (#[trigger] self@[a]).0
                            != (#[trigger] self@[b]).0 by {
                            let a0: int = if a < i as int {
                                a
                            } else {
                                a + 1
                            };
                            let b0: int = if b < i as int {
                                b
                            } else {
                                b + 1
                            };
                            assert(self@[a].0 == oldv[a0].0);
                            assert(self@[b].0 == oldv[b0].0);
                        }
                    }
                    Option::Some(e.slot)
                }
            }
        }
    }

    /// Teardown: every entry still waiting is cancelled with `kind`, so no
    /// waiter is left suspended forever.
    pub fn cancel_waiting(&mut self, kind: ErrorKind)
        requires
            old(self).wf(),
        ensures
            final(self).wf(),
            final(self)@ == cancel_spec(old(self)@, kind),
    {
        let ghost oldv = self@;
        let mut i: usize = 0;
        while i < self.entries.len()
            invariant
                i <= self.entries.len(),
                self@.len() == oldv.len(),
                self.entries@.len() == oldv.len(),
                forall|j: int| 0 <= j < i ==> #[trigger] self@[j] == cancel_spec(oldv, kind)[j],
                forall|j: int| i <= j < oldv.len() ==> #[trigger] self@[j] == oldv[j],
            decreases self.entries.len() - i,
        {
            let ghost prev = self@;
            let ghost prev_entries = self.entries@;
            let waiting = match &self.entries[i].slot {
                Slot::Waiting => true,
                _ => false,
            };
            proof {
                assert(prev[i as int] == oldv[i as int]);
                assert(prev[i as int] == (prev_entries[i as int].id@, prev_entries[i as int].slot@));
                assert(waiting == (oldv[i as int].1 is Waiting));
            }
            if waiting {
                let id_moved = match &self.entries[i].id {
                    Identifier::Num(n) => Identifier::Num(*n),
                    Identifier::Str(s) => {
                        let mut c: Vec<u8> = Vec::new();
                        crate::codec::append_range(&mut c, s, 0, s.len());
                        proof {
                            assert(c@ =~= s@);
                        }
                        Identifier::Str(c)
                    }
                };
                proof {
                    assert(id_moved@ == prev[i as int].0);
                }
                self.entries[i] = PendingEntry { id: id_moved, slot: Slot::Cancelled(kind) };
                proof {
                    assert(self.entries@ == prev_entries.update(
                        i as int,
                        PendingEntry { id: id_moved, slot: Slot::Cancelled(kind) },
                    ));
                    assert(self@[i as int] == (self.entries@[i as int].id@, self.entries@[i as int].slot@));
                    assert(self@[i as int] == (oldv[i as int].0, SlotVal::Cancelled(kind)));
                    assert(self@[i as int] == cancel_spec(oldv, kind)[i as int]);
                    assert forall|j: int| 0 <= j < oldv.len() && j != i implies #[trigger] self@[j]
                        == prev[j] by {
                        assert(self@[j] == (self.entries@[j].id@, self.entries@[j].slot@));
                        assert(prev[j] == (prev_entries[j].id@, prev_entries[j].slot@));
                        assert(self.entries@[j] == prev_entries[j]);
                    }
                }
            } else {
                proof {
                    assert(self@ == prev);
                    assert(self@[i as int] == cancel_spec(oldv, kind)[i as int]);
                }
            }
            i += 1;
        }
        proof {
            assert(self@ =~= cancel_spec(oldv, kind));
            assert forall|a: int, b: int| 0 <= a < b < self@.len() implies (#[trigger] self@[a]).0
                != (#[trigger] self@[b]).0 by {
                assert(self@[a].0 == oldv[a].0);
                assert(self@[b].0 == oldv[b].0);
            }
        }
    }
}

/// Correlation: with pairwise-distinct identifiers, a response's id names at
/// most one entry; dispatching it resolves exactly that entry, and every
/// entry under a different id is untouched, whatever order responses arrive
/// in.
pub proof fn lemma_correlation(s: Seq<(IdVal, SlotVal)>, id: IdVal, out: OutcomeVal)
    requires
        distinct_ids(s),
    ensures
        forall|i: int|
            0 <= i < s.len() && (#[trigger] s[i]).0 != id ==> resolve_spec(s, id, out)[i] == s[i],
        forall|i: int|
            0 <= i < s.len() && (#[trigger] s[i]).0 == id && s[i].1 is Waiting ==> resolve_spec(
                s,
                id,
                out,
            )[i] == (id, SlotVal::Resolved(out)),
        forall|i: int, j: int|
            0 <= i < s.len() && 0 <= j < s.len() && (#[trigger] s[i]).0 == id && (
            #[trigger] s[j]).0 == id ==> i == j,
{
    assert forall|i: int, j: int|
        0 <= i < s.len() && 0 <= j < s.len() && (#[trigger] s[i]).0 == id && (#[trigger] s[j]).0
        == id implies i == j by {
        if i < j {
            assert(s[i].0 != s[j].0);
        }
        if j < i {
            assert(s[j].0 != s[i].0);
        }
    }
}

/// No entry of the table is still waiting: every outstanding request has a
/// terminal delivery state.
pub open spec fn no_waiting(s: Seq<(IdVal, SlotVal)>) -> bool {
    forall|i: int| 0 <= i < s.len() ==> !((#[trigger] s[i]).1 is Waiting)
}

/// Teardown leaves nobody suspended: after cancellation, no entry is still
/// waiting -- each one is resolved or carries the cancellation error.
pub proof fn lemma_cancel_leaves_no_waiting(s: Seq<(IdVal, SlotVal)>, kind: ErrorKind)
    ensures
        no_waiting(cancel_spec(s, kind)),
{
    assert forall|i: int|
        0 <= i < cancel_spec(s, kind).len() implies !((#[trigger] cancel_spec(s, kind)[i]).1
        is Waiting) by {
        if s[i].1 is Waiting {
            assert(cancel_spec(s, kind)[i] == (s[i].0, SlotVal::Cancelled(kind)));
        } else {
            assert(cancel_spec(s, kind)[i] == s[i]);
        }
    }
}

} // verus!
