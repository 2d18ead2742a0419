//! The socket table: one connection record per identity.

use vstd::prelude::*;
use crate::socket::{params_wf, SockID, Socket, WILDCARD_ADDR, WILDCARD_PORT};

verus! {

#[derive(Debug, PartialEq, Eq, Structural)]
pub enum TableError {
    AlreadyExists,
}

pub struct SocketTable {
    pub sockets: Vec<Socket>,
}

/// Whether `p` is the local port of some entry of `s`.
pub open spec fn port_bound(s: Seq<Socket>, p: u16) -> bool {
    exists|i: int| 0 <= i < s.len() && s[i].id.local_port == p
}

/// The wildcard identity for the local side of `id`.
pub open spec fn listening_id(id: SockID) -> SockID {
    SockID { local_addr: id.local_addr, remote_addr: WILDCARD_ADDR, local_port: id.local_port, remote_port: WILDCARD_PORT }
}

impl SocketTable {
    /// No two records share an identity, and in each record the lowest
    /// unacknowledged sequence number is not past the next one to send.
    pub open spec fn wf(&self) -> bool {
        &&& forall|i: int, j: int|
            0 <= i < j < self.sockets@.len() ==> self.sockets@[i].id != self.sockets@[j].id
        &&& forall|i: int| 0 <= i < self.sockets@.len() ==> params_wf(#[trigger] self.sockets@[i].send_param)
    }

    pub open spec fn holds(&self, id: SockID) -> bool {
        exists|i: int| 0 <= i < self.sockets@.len() && self.sockets@[i].id == id
    }

    /// In a well-formed table an identity names at most one record.
    pub proof fn lemma_identity_unique(&self, i: int, j: int)
        requires
            self.wf(),
            0 <= i < self.sockets@.len(),
            0 <= j < self.sockets@.len(),
            self.sockets@[i].id == self.sockets@[j].id,
        ensures
            i == j,
    {
    }

    pub fn new() -> (r: SocketTable)
        ensures
            r.wf(),
            r.sockets@.len() == 0,
    {
        SocketTable { sockets: Vec::new() }
    }

    pub fn len(&self) -> (r: usize)
        ensures
            r == self.sockets@.len(),
    {
        self.sockets.len()
    }

    /// Position of the record with identity `id`.
    pub fn find(&self, id: SockID) -> (r: Option<usize>)
        requires
            self.wf(),
        ensures
            r is None <==> !self.holds(id),
            r matches Some(i) ==> i < self.sockets@.len() && self.sockets@[i as int].id == id,
    {
        let mut i: usize = 0;
        while i < self.sockets.len()
            invariant
                i <= self.sockets@.len(),
                forall|j: int| 0 <= j < i ==> self.sockets@[j].id != id,
            decreases self.sockets@.len() - i,
        {
            if self.sockets[i].id == id {
                return Some(i);
            }
            i += 1;
        }
        None
    }

    pub fn contains(&self, id: SockID) -> (r: bool)
        requires
            self.wf(),
        ensures
            r == self.holds(id),
    {
        self.find(id).is_some()
    }

    /// The record for `id`; failing that, the listening entry on its local
    /// address and port.
    pub fn lookup(&self, id: SockID) -> (r: Option<usize>)
        requires
            self.wf(),
        ensures
            self.holds(id) ==> (r matches Some(i) && i < self.sockets@.len()
                && self.sockets@[i as int].id == id),
            !self.holds(id) ==> (r is None <==> !self.holds(listening_id(id))),
            !self.holds(id) ==> (r matches Some(i) ==> i < self.sockets@.len()
                && self.sockets@[i as int].id == listening_id(id)),
    {
        match self.find(id) {
            Some(i) => Some(i),
            None => self.find(
                SockID {
                    local_addr: id.local_addr,
                    remote_addr: WILDCARD_ADDR,
                    local_port: id.local_port,
                    remote_port: WILDCARD_PORT,
                },
            ),
        }
    }

    /// Adds `sock`, unless its identity is already present.
    pub fn insert(&mut self, sock: Socket) -> (r: Result<(), TableError>)
        requires
            old(self).wf(),
            params_wf(sock.send_param),
        ensures
            final(self).wf(),
            r is Err <==> old(self).holds(sock.id),
            r is Ok ==> final(self).sockets@ == old(self).sockets@.push(sock),
            r is Err ==> final(self).sockets@ == old(self).sockets@,
    {
        if self.contains(sock.id) {
            return Err(TableError::AlreadyExists);
        }
        self.sockets.push(sock);
        assert forall|i: int| 0 <= i < self.sockets@.len() implies params_wf(
            #[trigger] self.sockets@[i].send_param,
        ) by {
            if i < old(self).sockets@.len() {
                assert(self.sockets@[i] == old(self).sockets@[i]);
            }
        }
        Ok(())
    }

    /// Deletes the record for `id` and hands it back.
    pub fn remove(&mut self, id: SockID) -> (r: Option<Socket>)
        requires
            old(self).wf(),
        ensures
            final(self).wf(),
            r is None <==> !old(self).holds(id),
            r is None ==> final(self).sockets@ == old(self).sockets@,
            r matches Some(s) ==> s.id == id && exists|i: int|
                0 <= i < old(self).sockets@.len() && old(self).sockets@[i] == s
                    && final(self).sockets@ == old(self).sockets@.remove(i),
            !final(self).holds(id),
    {
        match self.find(id) {
            Some(i) => {
                let s = self.sockets.remove(i);
                assert forall|k: int| 0 <= k < self.sockets@.len() implies params_wf(
                    #[trigger] self.sockets@[k].send_param,
                ) by {
                    if k < i {
                        assert(self.sockets@[k] == old(self).sockets@[k]);
                    } else {
                        assert(self.sockets@[k] == old(self).sockets@[k + 1]);
                    }
                }
                assert(!final(self).holds(id)) by {
                    assert forall|j: int| 0 <= j < self.sockets@.len() implies self.sockets@[j].id != id by {
                        if j < i {
                            assert(self.sockets@[j] == old(self).sockets@[j]);
                        } else {
                            assert(self.sockets@[j] == old(self).sockets@[j + 1]);
                        }
                    }
                }
                Some(s)
            },
            None => None,
        }
    }

    /// Takes out the record at `i`, to be put back with `put_back`.
    pub fn take_at(&mut self, i: usize) -> (r: Socket)
        requires
            old(self).wf(),
            i < old(self).sockets@.len(),
        ensures
            final(self).wf(),
            r == old(self).sockets@[i as int],
            final(self).sockets@ == old(self).sockets@.remove(i as int),
    {
        let r = self.sockets.remove(i);
        assert forall|k: int| 0 <= k < self.sockets@.len() implies params_wf(
            #[trigger] self.sockets@[k].send_param,
        ) by {
            if k < i {
                assert(self.sockets@[k] == old(self).sockets@[k]);
            } else {
                assert(self.sockets@[k] == old(self).sockets@[k + 1]);
            }
        }
        r
    }

    /// Puts back at `i` a record taken out there, its identity unchanged.
    pub fn put_back(&mut self, i: usize, sock: Socket, id: SockID)
        requires
            old(self).wf(),
            i <= old(self).sockets@.len(),
            sock.id == id,
            params_wf(sock.send_param),
            !old(self).holds(id),
        ensures
            final(self).wf(),
            final(self).sockets@ == old(self).sockets@.insert(i as int, sock),
    {
        self.sockets.insert(i, sock);
        assert forall|a: int, b: int| 0 <= a < b < self.sockets@.len()
            implies self.sockets@[a].id != self.sockets@[b].id by {
            if a == i as int {
                assert(self.sockets@[b] == old(self).sockets@[b - 1]);
            } else if b == i as int {
                assert(self.sockets@[a] == old(self).sockets@[a]);
            }
        }
        assert forall|k: int| 0 <= k < self.sockets@.len() implies params_wf(
            #[trigger] self.sockets@[k].send_param,
        ) by {
            if k < i {
                assert(self.sockets@[k] == old(self).sockets@[k]);
            } else if k > i {
                assert(self.sockets@[k] == old(self).sockets@[k - 1]);
            }
        }
    }

    /// Whether some entry is bound to local port `p`.
    pub fn port_in_use(&self, p: u16) -> (r: bool)
        ensures
            r == port_bound(self.sockets@, p),
    {
        let mut i: usize = 0;
        while i < self.sockets.len()
            invariant
                i <= self.sockets@.len(),
                forall|j: int| 0 <= j < i ==> self.sockets@[j].id.local_port != p,
            decreases self.sockets@.len() - i,
        {
            if self.sockets[i].id.local_port == p {
                return true;
            }
            i += 1;
        }
        false
    }
}

} // verus!
