//! The event bridge: signals from the receive path to blocked callers, one
//! outstanding signal per connection and kind, so that none is overwritten.

use vstd::prelude::*;
use crate::socket::SockID;

verus! {

#[derive(Clone, Copy, Debug, PartialEq, Eq, Structural)]
pub enum TCPEventKind {
    ConnectionCompleted,
    Acked,
    DataArrived,
    ConnectionClosed,
    ConnectionAborted,
}

#[derive(Clone, Copy, Debug, PartialEq, Eq, Structural)]
pub struct TCPEvent {
    pub sock_id: SockID,
    pub kind: TCPEventKind,
}

#[derive(Debug, PartialEq, Eq, Structural)]
pub enum WaitError {
    /// The connection was aborted while the caller waited.
    Aborted,
}

pub struct EventBridge {
    pub pending: Vec<TCPEvent>,
}

impl EventBridge {
    /// No signal is held twice.
    pub open spec fn wf(&self) -> bool {
        forall|i: int, j: int|
            0 <= i < j < self.pending@.len() ==> self.pending@[i] != self.pending@[j]
    }

    pub open spec fn has(&self, e: TCPEvent) -> bool {
        self.pending@.contains(e)
    }

    pub fn new() -> (r: EventBridge)
        ensures
            r.wf(),
            forall|e: TCPEvent| !r.has(e),
    {
        EventBridge { pending: Vec::new() }
    }

    fn position(&self, e: TCPEvent) -> (r: Option<usize>)
        ensures
            r is None <==> !self.has(e),
            r matches Some(i) ==> i < self.pending@.len() && self.pending@[i as int] == e,
    {
        let mut i: usize = 0;
        while i < self.pending.len()
            invariant
                i <= self.pending@.len(),
                forall|j: int| 0 <= j < i ==> self.pending@[j] != e,
            decreases self.pending@.len() - i,
        {
            if self.pending[i] == e {
                return Some(i);
            }
            i += 1;
        }
        None
    }

    /// Records that `kind` happened on `id`.
    pub fn publish(&mut self, id: SockID, kind: TCPEventKind)
        requires
            old(self).wf(),
        ensures
            final(self).wf(),
            forall|e: TCPEvent|
                final(self).has(e) <==> (old(self).has(e) || e == (TCPEvent { sock_id: id, kind })),
    {
        let e = TCPEvent { sock_id: id, kind };
        if self.position(e).is_none() {
            self.pending.push(e);
            assert forall|x: TCPEvent| final(self).has(x) <==> (old(self).has(x) || x == e) by {
                if final(self).has(x) {
                    let k = choose|k: int| 0 <= k < self.pending@.len() && self.pending@[k] == x;
                    if k < old(self).pending@.len() {
                        assert(old(self).pending@[k] == x);
                    }
                }
                if old(self).has(x) {
                    let k = choose|k: int| 0 <= k < old(self).pending@.len() && old(self).pending@[k] == x;
                    assert(self.pending@[k] == x);
                }
                if x == e {
                    assert(self.pending@[old(self).pending@.len() as int] == x);
                }
            }
        }
    }

    /// Consumes the signal that `kind` happened on `id`, if it is there.
    pub fn take(&mut self, id: SockID, kind: TCPEventKind) -> (r: bool)
        requires
            old(self).wf(),
        ensures
            final(self).wf(),
            r == old(self).has(TCPEvent { sock_id: id, kind }),
            !r ==> final(self).pending@ == old(self).pending@,
            forall|e: TCPEvent|
                final(self).has(e) <==> (old(self).has(e) && e != (TCPEvent { sock_id: id, kind })),
    {
        let e = TCPEvent { sock_id: id, kind };
        match self.position(e) {
            None => false,
            Some(i) => {
                self.pending.remove(i);
                assert forall|x: TCPEvent| final(self).has(x) <==> (old(self).has(x) && x != e) by {
                    if final(self).has(x) {
                        let k = choose|k: int| 0 <= k < self.pending@.len() && self.pending@[k] == x;
                        if k < i {
                            assert(old(self).pending@[k] == x);
                        } else {
                            assert(old(self).pending@[k + 1] == x);
                        }
                    }
                    if old(self).has(x) && x != e {
                        let k = choose|k: int| 0 <= k < old(self).pending@.len() && old(self).pending@[k] == x;
                        if k < i {
                            assert(self.pending@[k] == x);
                        } else {
                            assert(self.pending@[k - 1] == x);
                        }
                    }
                }
                assert(final(self).wf()) by {
                    assert forall|a: int, b: int| 0 <= a < b < self.pending@.len()
                        implies self.pending@[a] != self.pending@[b] by {
                        let oa = if a < i { a } else { a + 1 };
                        let ob = if b < i { b } else { b + 1 };
                        assert(self.pending@[a] == old(self).pending@[oa]);
                        assert(self.pending@[b] == old(self).pending@[ob]);
                    }
                }
                true
            },
        }
    }

    /// One step of a caller blocked until `kind` happens on `id`: done when
    /// that signal is there (it is consumed), failed when the connection was
    /// aborted, otherwise still waiting (`None`).
    pub fn poll(&mut self, id: SockID, kind: TCPEventKind) -> (r: Option<Result<(), WaitError>>)
        requires
            old(self).wf(),
        ensures
            final(self).wf(),
            old(self).has(TCPEvent { sock_id: id, kind }) ==> r == Some(Ok::<(), WaitError>(()))
                && !final(self).has(TCPEvent { sock_id: id, kind }),
            !old(self).has(TCPEvent { sock_id: id, kind }) && old(self).has(
                TCPEvent { sock_id: id, kind: TCPEventKind::ConnectionAborted },
            ) ==> r == Some(Err::<(), WaitError>(WaitError::Aborted)) && !final(self).has(
                TCPEvent { sock_id: id, kind: TCPEventKind::ConnectionAborted },
            ),
            !old(self).has(TCPEvent { sock_id: id, kind }) && !old(self).has(
                TCPEvent { sock_id: id, kind: TCPEventKind::ConnectionAborted },
            ) ==> r is None && final(self).pending@ == old(self).pending@,
    {
        if self.take(id, kind) {
            Some(Ok(()))
        } else if self.take(id, TCPEventKind::ConnectionAborted) {
            Some(Err(WaitError::Aborted))
        } else {
            None
        }
    }
}

} // verus!
