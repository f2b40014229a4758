//! Request/response correlation for one multiplexed connection.
//!
//! Outbound calls draw strictly increasing identifiers from a
//! [`CallRegistry`] and park a pending entry per in-flight call; the inbound
//! demultiplexer routes each frame either to the matching pending call or to
//! the notification stream, strictly by identifier — responses may arrive in
//! any order.

use vstd::prelude::*;

verus! {

/// The venue's own error object, surfaced verbatim to the caller.
#[derive(Debug)]
pub struct RpcError {
    pub code: i64,
    pub message: String,
}

/// Why a call failed: a connection write failure, a response carrying
/// neither result nor error, a payload of the wrong shape, or the venue's
/// own error object.
#[derive(Debug)]
pub enum ApiError {
    Transport,
    Protocol,
    Decode,
    Rpc(RpcError),
}

/// A response envelope reduced to what correlation needs: the identifier it
/// answers, and the result/error discriminator.
pub struct ResponseEnvelope<R> {
    pub id: u64,
    pub result: Option<R>,
    pub error: Option<RpcError>,
}

/// An inbound frame as the demultiplexer sees it: a response carries the
/// identifier of the call it answers, a notification carries none.
#[derive(Debug, Copy, Clone, PartialEq, Eq, Structural)]
pub enum InboundKind {
    Response(u64),
    Notification,
}

/// Where one inbound frame went.
#[derive(Debug, Copy, Clone, PartialEq, Eq, Structural)]
pub enum Routed {
    /// The frame answered a pending call; its entry is now cleared.
    CompletedCall,
    /// The frame carried an identifier with no pending entry (late,
    /// duplicate or unexpected); it is dropped, not treated as fatal.
    UnknownId,
    /// The frame is a subscription push for the notification stream.
    Notification,
}

/// Identifier allocator and pending-call registry for one client instance.
pub struct CallRegistry {
    /// Next identifier to hand out; identifiers start at 0 and strictly
    /// increase for the life of the instance.
    pub next_id: u64,
    /// Identifiers of calls whose completion handle is still unfulfilled.
    pub pending: Vec<u64>,
}

impl CallRegistry {
    /// Every pending identifier was allocated, and at most one pending entry
    /// exists per identifier.
    pub open spec fn wf(self) -> bool {
        &&& forall|i: int|
            0 <= i < self.pending@.len() ==> (#[trigger] self.pending@[i]) < self.next_id
        &&& forall|i: int, j: int|
            0 <= i < j < self.pending@.len() ==> self.pending@[i] != self.pending@[j]
    }

    /// Whether a call with identifier `id` is in flight.
    pub open spec fn is_pending(self, id: u64) -> bool {
        exists|i: int| 0 <= i < self.pending@.len() && (#[trigger] self.pending@[i]) == id
    }

    /// A registry for a fresh client: no identifier handed out, no call in
    /// flight.
    pub fn new() -> (reg: CallRegistry)
        ensures
            reg.wf(),
            reg.next_id == 0,
            reg.pending@ == Seq::<u64>::empty(),
    {
        CallRegistry { next_id: 0, pending: Vec::new() }
    }

    /// Draw the next identifier. Identifiers strictly increase; running the
    /// space out is a fatal precondition violation, so the caller keeps the
    /// counter below the numeric maximum.
    pub fn allocate_id(&mut self) -> (id: u64)
        requires
            old(self).wf(),
            old(self).next_id < u64::MAX,
        ensures
            final(self).wf(),
            id == old(self).next_id,
            final(self).next_id == old(self).next_id + 1,
            final(self).pending == old(self).pending,
    {
        let id = self.next_id;
        self.next_id = self.next_id + 1;
        id
    }

    /// Whether a call with identifier `id` is in flight.
    pub fn pending_contains(&self, id: u64) -> (b: bool)
        ensures
            b == self.is_pending(id),
    {
        let mut i: usize = 0;
        while i < self.pending.len()
            invariant
                i <= self.pending@.len(),
                forall|j: int| 0 <= j < i ==> (#[trigger] self.pending@[j]) != id,
            decreases self.pending@.len() - i,
        {
            if self.pending[i] == id {
                return true;
            }
            i = i + 1;
        }
        false
    }

    /// Park a pending entry for an allocated identifier, once the request
    /// frame has been written. Reusing an identifier whose entry is not yet
    /// cleared is a programming error, ruled out by the precondition.
    pub fn register(&mut self, id: u64)
        requires
            old(self).wf(),
            id < old(self).next_id,
            !old(self).is_pending(id),
        ensures
            final(self).wf(),
            final(self).next_id == old(self).next_id,
            final(self).pending@ == old(self).pending@.push(id),
            final(self).is_pending(id),
            forall|x: u64| final(self).is_pending(x) <==> (old(self).is_pending(x) || x == id),
    {
        self.pending.push(id);
        proof {
            assert forall|x: u64| self.is_pending(x) implies (old(self).is_pending(x) || x
                == id) by {
                let i = choose|i: int|
                    0 <= i < self.pending@.len() && (#[trigger] self.pending@[i]) == x;
                if i < old(self).pending@.len() {
                    assert(old(self).pending@[i] == x);
                }
            }
            assert forall|x: u64| (old(self).is_pending(x) || x == id) implies self.is_pending(
                x,
            ) by {
                if old(self).is_pending(x) {
                    let i = choose|i: int|
                        0 <= i < old(self).pending@.len() && (#[trigger] old(
                            self,
                        ).pending@[i]) == x;
                    assert(self.pending@[i] == x);
                } else {
                    assert(self.pending@[old(self).pending@.len() as int] == id);
                }
            }
        }
    }

    /// Look up and clear the pending entry for `id`, if one exists. A second
    /// call with the same identifier finds nothing: a handle is fulfilled at
    /// most once.
    pub fn take_pending(&mut self, id: u64) -> (found: bool)
        requires
            old(self).wf(),
        ensures
            final(self).wf(),
            final(self).next_id == old(self).next_id,
            found <==> old(self).is_pending(id),
            !found ==> *final(self) == *old(self),
            forall|x: u64|
                final(self).is_pending(x) <==> (old(self).is_pending(x) && x != id),
            found ==> final(self).pending@.len() == old(self).pending@.len() - 1,
    {
        let mut i: usize = 0;
        while i < self.pending.len()
            invariant
                *self == *old(self),
                old(self).wf(),
                i <= self.pending@.len(),
                forall|j: int| 0 <= j < i ==> (#[trigger] self.pending@[j]) != id,
            decreases self.pending@.len() - i,
        {
            if self.pending[i] == id {
                proof {
                    assert(old(self).pending@[i as int] == id);
                    assert(old(self).is_pending(id));
                }
                self.pending.remove(i);
                proof {
                    assert forall|x: u64| self.is_pending(x) implies (old(self).is_pending(x) && x
                        != id) by {
                        let k = choose|k: int|
                            0 <= k < self.pending@.len() && (#[trigger] self.pending@[k]) == x;
                        if k < i {
                            assert(old(self).pending@[k] == x);
                        } else {
                            assert(old(self).pending@[k + 1] == x);
                        }
                    }
                    assert forall|x: u64| (old(self).is_pending(x) && x != id) implies self.is_pending(
                        x,
                    ) by {
                        let k = choose|k: int|
                            0 <= k < old(self).pending@.len() && (#[trigger] old(self).pending@[k]) == x;
                        if k < i {
                            assert(self.pending@[k] == x);
                        } else {
                            assert(self.pending@[k - 1] == x);
                        }
                    }
                }
                return true;
            }
            i = i + 1;
        }
        proof {
            assert forall|x: u64| self.is_pending(x) implies (old(self).is_pending(x) && x != id) by {
                let k = choose|k: int|
                    0 <= k < self.pending@.len() && (#[trigger] self.pending@[k]) == x;
                assert(old(self).pending@[k] == x);
            }
        }
        false
    }

    /// Demultiplex one inbound frame: a response is matched to its pending
    /// call strictly by identifier and clears that entry exactly once; an
    /// unknown identifier is dropped; a frame without an identifier goes to
    /// the notification stream. The registry is untouched except for the
    /// cleared entry.
    pub fn route(&mut self, frame: InboundKind) -> (r: Routed)
        requires
            old(self).wf(),
        ensures
            final(self).wf(),
            final(self).next_id == old(self).next_id,
            match frame {
                InboundKind::Response(id) => {
                    &&& (r == Routed::CompletedCall <==> old(self).is_pending(id))
                    &&& (r == Routed::CompletedCall || r == Routed::UnknownId)
                    &&& forall|x: u64|
                        final(self).is_pending(x) <==> (old(self).is_pending(x) && x != id)
                    &&& (r == Routed::UnknownId ==> *final(self) == *old(self))
                },
                InboundKind::Notification => r == Routed::Notification && *final(self) == *old(
                    self,
                ),
            },
    {
        match frame {
            InboundKind::Response(id) => {
                if self.take_pending(id) {
                    Routed::CompletedCall
                } else {
                    Routed::UnknownId
                }
            },
            InboundKind::Notification => Routed::Notification,
        }
    }
}

/// What a completed call hands its caller, given the envelope the venue
/// sent back: a carried result wins; otherwise the venue's error object is
/// the failure; a response carrying neither is a protocol violation.
pub open spec fn spec_resolve<R>(env: ResponseEnvelope<R>) -> Result<R, ApiError> {
    match env.result {
        Some(payload) => Ok(payload),
        None => match env.error {
            Some(e) => Err(ApiError::Rpc(e)),
            None => Err(ApiError::Protocol),
        },
    }
}

/// Decide the outcome of a completed call from its envelope. Never panics:
/// a response carrying neither result nor error fails the call instead.
pub fn resolve_envelope<R>(env: ResponseEnvelope<R>) -> (r: Result<R, ApiError>)
    ensures
        r == spec_resolve(env),
{
    match env.result {
        Some(payload) => Ok(payload),
        None => match env.error {
            Some(e) => Err(ApiError::Rpc(e)),
            None => Err(ApiError::Protocol),
        },
    }
}

} // verus!
