use vstd::prelude::*;

use crate::errors::AckError;
use crate::json::Json;

verus! {

/// An acknowledgement payload: a JSON value plus its binary attachments.
#[derive(Debug)]
pub struct AckResponse {
    pub data: Json,
    pub binary: Vec<Vec<u8>>,
}

/// Abstract state of the per-socket acknowledgement correlator.
pub struct AckModel {
    /// Monotonic allocation counter; the last id handed out.
    pub counter: int,
    /// Ids with a live waiter.
    pub pending: Set<int>,
    /// Ids whose waiter has already been resolved.
    pub resolved: Set<int>,
    /// Whether the owning socket has been closed.
    pub closed: bool,
}

/// Correlator invariant.
pub open spec fn ack_inv(m: AckModel) -> bool {
    &&& m.counter >= 0
    &&& forall|id: int| m.pending.contains(id) ==> 1 <= id <= m.counter
    &&& forall|id: int| m.resolved.contains(id) ==> 1 <= id <= m.counter
    &&& forall|id: int| m.pending.contains(id) ==> !m.resolved.contains(id)
    &&& m.closed ==> m.pending =~= Set::<int>::empty()
}

/// Allocation: returns counter + 1 and advances the counter.
pub open spec fn alloc_step(m: AckModel) -> (AckModel, int) {
    (AckModel { counter: m.counter + 1, ..m }, m.counter + 1)
}

/// Registration of a one-shot waiter for a freshly allocated id.
pub open spec fn register_step(m: AckModel, id: int) -> AckModel {
    AckModel { pending: m.pending.insert(id), ..m }
}

/// Resolution of the waiter for `id`, by response or by timeout. The flag
/// says whether a waiter existed: a missing waiter is silently dropped.
pub open spec fn resolve_step(m: AckModel, id: int) -> (AckModel, bool) {
    if m.pending.contains(id) {
        (AckModel { pending: m.pending.remove(id), resolved: m.resolved.insert(id), ..m }, true)
    } else {
        (m, false)
    }
}

/// Teardown: every live waiter is resolved and no new one may be inserted.
pub open spec fn close_step(m: AckModel) -> AckModel {
    AckModel {
        pending: Set::<int>::empty(),
        resolved: m.resolved.union(m.pending),
        closed: true,
        ..m
    }
}

/// Per-socket structure correlating outbound requests with inbound
/// acknowledgements. Delivery slots themselves live with the caller; the
/// correlator decides, for each event, which waiter (if any) is resolved.
pub struct AckCorrelator {
    counter: i64,
    pending: Vec<i64>,
    closed: bool,
    resolved: Ghost<Set<int>>,
}

impl View for AckCorrelator {
    type V = AckModel;

    closed spec fn view(&self) -> AckModel {
        AckModel {
            counter: self.counter as int,
            pending: Set::new(|id: int| i64::MIN <= id <= i64::MAX && self.pending@.contains(id as i64)),
            resolved: self.resolved@,
            closed: self.closed,
        }
    }
}

impl AckCorrelator {
    /// The concrete pending list holds each live id exactly once.
    pub closed spec fn wf(&self) -> bool {
        &&& ack_inv(self@)
        &&& forall|i: int, j: int|
            0 <= i < j < self.pending@.len() ==> self.pending@[i] != self.pending@[j]
    }

    pub fn new() -> (c: Self)
        ensures
            c.wf(),
            c@.counter == 0,
            c@.pending =~= Set::<int>::empty(),
            c@.resolved =~= Set::<int>::empty(),
            !c@.closed,
    {
        let c = AckCorrelator {
            counter: 0,
            pending: Vec::new(),
            closed: false,
            resolved: Ghost(Set::empty()),
        };
        proof {
            assert(c@.pending =~= Set::<int>::empty());
        }
        c
    }

    pub open spec fn spec_counter(&self) -> int {
        self@.counter
    }

    /// The last id handed out; ids are allocated as counter + 1.
    pub fn counter(&self) -> (r: i64)
        ensures
            r as int == self@.counter,
    {
        self.counter
    }

    pub open spec fn spec_closed(&self) -> bool {
        self@.closed
    }

    pub fn is_closed(&self) -> (r: bool)
        ensures
            r == self@.closed,
    {
        self.closed
    }

    /// Allocates the next acknowledgement id. `None` reports counter
    /// saturation, an error condition that is practically unreachable.
    pub fn allocate(&mut self) -> (r: Option<i64>)
        requires
            old(self).wf(),
        ensures
            final(self).wf(),
            match r {
                Some(id) => {
                    &&& id as int == alloc_step(old(self)@).1
                    &&& id as int == old(self)@.counter + 1
                    &&& final(self)@ == alloc_step(old(self)@).0
                },
                None => old(self)@.counter == i64::MAX && final(self)@ == old(self)@,
            },
    {
        if self.counter == i64::MAX {
            return None;
        }
        self.counter = self.counter + 1;
        let ghost m = alloc_step(old(self)@).0;
        proof {
            assert(self@ =~= m) by {
                assert(self@.pending =~= m.pending);
            }
        }
        Some(self.counter)
    }

    /// Inserts the one-shot waiter for `id`, immediately after a successful
    /// send of the packet stamped with `id`.
    pub fn register(&mut self, id: i64)
        requires
            old(self).wf(),
            !old(self)@.closed,
            1 <= id as int <= old(self)@.counter,
            !old(self)@.pending.contains(id as int),
            !old(self)@.resolved.contains(id as int),
        ensures
            final(self).wf(),
            final(self)@ == register_step(old(self)@, id as int),
    {
        self.pending.push(id);
        let ghost m = register_step(old(self)@, id as int);
        proof {
            assert forall|x: int| self@.pending.contains(x) implies m.pending.contains(x) by {
                if x != id as int {
                    let i = choose|i: int|
                        0 <= i < self.pending@.len() && self.pending@[i] == x as i64;
                    assert(old(self).pending@[i] == x as i64);
                }
            }
            assert forall|x: int| m.pending.contains(x) implies self@.pending.contains(x) by {
                if x == id as int {
                    assert(self.pending@[self.pending@.len() - 1] == id);
                } else {
                    let i = choose|i: int|
                        0 <= i < old(self).pending@.len() && old(self).pending@[i] == x as i64;
                    assert(self.pending@[i] == x as i64);
                }
            }
            assert(self@ =~= m) by {
                assert(self@.pending =~= m.pending);
            }
        }
    }

    /// Removes the waiter for `id` and hands back what must be delivered to
    /// it: `Some(response)` if a waiter existed, `None` for a late arrival,
    /// which is silently dropped.
    pub fn complete(&mut self, id: i64, response: AckResponse) -> (r: Option<AckResponse>)
        requires
            old(self).wf(),
        ensures
            final(self).wf(),
            final(self)@ == resolve_step(old(self)@, id as int).0,
            r is Some <==> resolve_step(old(self)@, id as int).1,
            r is Some <==> old(self)@.pending.contains(id as int),
            r matches Some(resp) ==> resp == response,
    {
        let taken = self.take_pending(id);
        if taken {
            Some(response)
        } else {
            None
        }
    }

    /// Removes the waiter for `id` on a fired timeout and hands back the
    /// failure to deliver: `Some(Timeout)` if a waiter existed.
    pub fn timeout(&mut self, id: i64) -> (r: Option<AckError>)
        requires
            old(self).wf(),
        ensures
            final(self).wf(),
            final(self)@ == resolve_step(old(self)@, id as int).0,
            r is Some <==> resolve_step(old(self)@, id as int).1,
            r is Some <==> old(self)@.pending.contains(id as int),
            r matches Some(e) ==> e == AckError::Timeout,
    {
        let taken = self.take_pending(id);
        if taken {
            Some(AckError::Timeout)
        } else {
            None
        }
    }

    /// Records that the waiter for a freshly allocated id was resolved
    /// directly with a send failure, without ever being registered.
    pub fn resolve_unregistered(&mut self, id: i64)
        requires
            old(self).wf(),
            1 <= id as int <= old(self)@.counter,
            !old(self)@.pending.contains(id as int),
            !old(self)@.resolved.contains(id as int),
        ensures
            final(self).wf(),
            final(self)@ == (AckModel { resolved: old(self)@.resolved.insert(id as int), ..old(self)@ }),
    {
        let ghost m = AckModel { resolved: old(self)@.resolved.insert(id as int), ..old(self)@ };
        proof {
            self.resolved@ = self.resolved@.insert(id as int);
            assert(self@ =~= m) by {
                assert(self@.pending =~= m.pending);
            }
        }
    }

    /// Removes every live waiter and hands back their ids; the caller
    /// delivers a socket-closed failure to each. Idempotent: on a closed
    /// correlator nothing is drained.
    pub fn drain_on_close(&mut self) -> (drained: Vec<i64>)
        requires
            old(self).wf(),
        ensures
            final(self).wf(),
            final(self)@ == close_step(old(self)@),
            forall|i: int|
                0 <= i < drained@.len() ==> old(self)@.pending.contains(#[trigger] drained@[i] as int),
            forall|i: int, j: int| 0 <= i < j < drained@.len() ==> drained@[i] != drained@[j],
            forall|id: int|
                old(self)@.pending.contains(id) ==> exists|i: int|
                    0 <= i < drained@.len() && #[trigger] drained@[i] as int == id,
    {
        let mut drained: Vec<i64> = Vec::new();
        core::mem::swap(&mut drained, &mut self.pending);
        self.closed = true;
        let ghost m = close_step(old(self)@);
        proof {
            self.resolved@ = m.resolved;
            assert forall|i: int| 0 <= i < drained@.len() implies old(
                self,
            )@.pending.contains(#[trigger] drained@[i] as int) by {
                assert(old(self).pending@[i] == drained@[i]);
            }
            assert(self@ =~= m) by {
                assert(self@.pending =~= m.pending);
            }
        }
        drained
    }

    /// Removes `id` from the pending list if present; true iff it was there.
    fn take_pending(&mut self, id: i64) -> (taken: bool)
        requires
            old(self).wf(),
        ensures
            final(self).wf(),
            final(self)@ == resolve_step(old(self)@, id as int).0,
            taken <==> resolve_step(old(self)@, id as int).1,
            taken <==> old(self)@.pending.contains(id as int),
    {
        let n = self.pending.len();
        let mut i: usize = 0;
        while i < n
            invariant
                old(self).wf(),
                n == self.pending@.len(),
                i <= n,
                *self == *old(self),
                forall|k: int| 0 <= k < i ==> self.pending@[k] != id,
            decreases n - i,
        {
            if self.pending[i] == id {
                self.pending.remove(i);
                let ghost m = resolve_step(old(self)@, id as int).0;
                proof {
                    self.resolved@ = self.resolved@.insert(id as int);
                    let ghost oldp = old(self).pending@;
                    assert(self.pending@ == oldp.subrange(0, i as int) + oldp.subrange(
                        i as int + 1,
                        oldp.len() as int,
                    ));
                    assert forall|x: int| self@.pending.contains(x) implies m.pending.contains(
                        x,
                    ) by {
                        let k = choose|k: int|
                            0 <= k < self.pending@.len() && self.pending@[k] == x as i64;
                        if k < i {
                            assert(oldp[k] == x as i64);
                        } else {
                            assert(oldp[k + 1] == x as i64);
                        }
                    }
                    assert forall|x: int| m.pending.contains(x) implies self@.pending.contains(
                        x,
                    ) by {
                        let k = choose|k: int| 0 <= k < oldp.len() && oldp[k] == x as i64;
                        if k < i {
                            assert(self.pending@[k] == x as i64);
                        } else {
                            assert(k != i);
                            assert(self.pending@[k - 1] == x as i64);
                        }
                    }
                    assert(old(self)@.pending.contains(id as int)) by {
                        assert(oldp[i as int] == id);
                    }
                    assert(self@ =~= m) by {
                        assert(self@.pending =~= m.pending);
                    }
                }
                return true;
            }
            i += 1;
        }
        proof {
            assert(!old(self)@.pending.contains(id as int));
            assert(self@ =~= resolve_step(old(self)@, id as int).0);
        }
        false
    }
}

/// A well-formed correlator satisfies the abstract invariant; stated here
/// so that other modules can rely on it.
pub proof fn lemma_wf_implies_inv(c: &AckCorrelator)
    requires
        c.wf(),
    ensures
        ack_inv(c@),
{
}

/// Acknowledgement ids are strictly increasing per socket: of two
/// allocations, the later one hands out the larger id.
pub proof fn lemma_ack_ids_strictly_increase(m: AckModel)
    ensures
        alloc_step(m).1 < alloc_step(alloc_step(m).0).1,
{
}

/// A waiter is resolved at most once: after a resolution delivered for `id`,
/// any further resolution of the same id delivers nothing, whether it comes
/// from a response or from a timeout.
pub proof fn lemma_waiter_resolved_at_most_once(m: AckModel, id: int)
    ensures
        !resolve_step(resolve_step(m, id).0, id).1,
{
}

/// A timeout that fires first wins: the late response delivers nothing, and
/// the state it leaves is exactly the state the timeout left.
pub proof fn lemma_late_response_dropped(m: AckModel, id: int)
    ensures
        !resolve_step(resolve_step(m, id).0, id).1,
        resolve_step(resolve_step(m, id).0, id).0 == resolve_step(m, id).0,
{
}

/// After close, no waiter is pending and every previously pending waiter has
/// been resolved; a further resolution of any id delivers nothing.
pub proof fn lemma_close_resolves_all(m: AckModel, id: int)
    ensures
        close_step(m).pending =~= Set::<int>::empty(),
        forall|x: int| m.pending.contains(x) ==> close_step(m).resolved.contains(x),
        !resolve_step(close_step(m), id).1,
{
}

} // verus!
