//! Connection identity, status and per-connection parameters.

use vstd::prelude::*;
use crate::seqnum::{seq_add, seq_add_spec, seq_le_spec};

verus! {

/// The address and port of a listening entry's unknown peer.
pub const WILDCARD_ADDR: u32 = 0;
pub const WILDCARD_PORT: u16 = 0;

/// Identity of a connection: local address, remote address, local port,
/// remote port. IPv4 addresses are held as their 32-bit value.
#[derive(Clone, Copy, Debug, PartialEq, Eq, Structural, Hash)]
pub struct SockID {
    pub local_addr: u32,
    pub remote_addr: u32,
    pub local_port: u16,
    pub remote_port: u16,
}

#[derive(Clone, Copy, Debug, PartialEq, Eq, Structural)]
pub enum TcpStatus {
    Closed,
    Listen,
    SynSent,
    SynRcvd,
    Established,
    FinWait1,
    FinWait2,
    CloseWait,
    Closing,
    LastAck,
    TimeWait,
    /// Given up after retransmission ran out of attempts.
    Aborted,
}

#[derive(Clone, Copy, Debug, PartialEq, Eq, Structural)]
pub struct SendParam {
    pub initial_seq: u32,
    pub unacked_seq: u32,
    pub next: u32,
    pub window: u16,
}

#[derive(Clone, Copy, Debug, PartialEq, Eq, Structural)]
pub struct RecvParam {
    pub initial_seq: u32,
    pub next: u32,
    pub window: u16,
}

/// The lowest unacknowledged sequence number is not past the next one to
/// send, in sequence space.
pub open spec fn params_wf(sp: SendParam) -> bool {
    seq_le_spec(sp.unacked_seq, sp.next)
}

impl SendParam {
    /// Moves the next sequence number to send `by` places on.
    pub fn advance_send(&mut self, by: u32)
        ensures
            *final(self) == (SendParam { next: seq_add_spec(old(self).next, by as int), ..*old(self) }),
    {
        self.next = seq_add(self.next, by);
    }

    /// Records a cumulative acknowledgment up to `seq` and the window the
    /// peer advertised with it.
    pub fn ack_up_to(&mut self, seq: u32, window: u16)
        ensures
            *final(self) == (SendParam { unacked_seq: seq, window, ..*old(self) }),
    {
        self.unacked_seq = seq;
        self.window = window;
    }
}

impl RecvParam {
    /// Moves the next sequence number expected from the peer `by` places on.
    pub fn advance_recv(&mut self, by: u32)
        ensures
            *final(self) == (RecvParam { next: seq_add_spec(old(self).next, by as int), ..*old(self) }),
    {
        self.next = seq_add(self.next, by);
    }
}

/// An outbound segment not yet acknowledged.
pub struct RetransmissionEntry {
    /// The segment's bytes, sent again verbatim.
    pub segment: Vec<u8>,
    /// Destination address of the segment.
    pub dst_addr: u32,
    /// First sequence number the segment occupies.
    pub seq: u32,
    /// Sequence numbers it occupies: its payload, plus one for SYN and FIN.
    pub len: u32,
    pub sent_at: u64,
    pub attempts: u8,
}

/// One connection record.
pub struct Socket {
    pub id: SockID,
    pub status: TcpStatus,
    pub send_param: SendParam,
    pub recv_param: RecvParam,
    pub retransmission_queue: Vec<RetransmissionEntry>,
    /// Payload delivered in sequence and not yet taken by the caller.
    pub received: Vec<u8>,
    /// The listening entry this connection was opened from, if any.
    pub parent: Option<SockID>,
    /// Connections opened from this listening entry that have not been accepted.
    pub backlog: Vec<SockID>,
    /// Time of the last segment seen in TimeWait.
    pub quiet_since: u64,
}

impl Socket {
    /// A fresh connection record with everything zero and nothing queued.
    pub fn new(id: SockID, status: TcpStatus) -> (r: Socket)
        ensures
            r.id == id,
            r.status == status,
            r.send_param == (SendParam { initial_seq: 0, unacked_seq: 0, next: 0, window: 0 }),
            r.recv_param == (RecvParam { initial_seq: 0, next: 0, window: 0 }),
            r.retransmission_queue@.len() == 0,
            r.received@.len() == 0,
            r.parent is None,
            r.backlog@.len() == 0,
            r.quiet_since == 0,
            params_wf(r.send_param),
    {
        Socket {
            id,
            status,
            send_param: SendParam { initial_seq: 0, unacked_seq: 0, next: 0, window: 0 },
            recv_param: RecvParam { initial_seq: 0, next: 0, window: 0 },
            retransmission_queue: Vec::new(),
            received: Vec::new(),
            parent: None,
            backlog: Vec::new(),
            quiet_since: 0,
        }
    }
}

} // verus!
