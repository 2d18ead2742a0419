//! The connection state machine: how one inbound segment changes a
//! connection, what it sends in reply and which events it raises.

use vstd::prelude::*;
use crate::event::TCPEventKind;
use crate::retransmit::{retire_acked, retire_spec};
use crate::segment::{append_bytes, flag_set, has_flag, Segment, ACK, FIN, MAX_SEGMENT_LEN, SYN};
use crate::seqnum::{seq_add, seq_add_spec, seq_le, seq_le_spec, seq_lt, seq_lt_spec};
use crate::socket::{RecvParam, SendParam, Socket, TcpStatus};

verus! {

/// Flags of the second segment of the handshake.
pub const SYN_ACK: u8 = 0x12;

/// A segment without payload to send in reply.
#[derive(Clone, Copy, Debug, PartialEq, Eq, Structural)]
pub struct Control {
    pub seq: u32,
    pub ack: u32,
    pub flags: u8,
}

/// What handling one segment asks of the caller.
pub struct Outcome {
    pub reply: Option<Control>,
    pub events: Vec<TCPEventKind>,
}

/// An acknowledgment of something sent and not yet acknowledged.
pub open spec fn ack_advances(sp: SendParam, seg: Segment) -> bool {
    has_flag(seg.flags, ACK) && seq_lt_spec(sp.unacked_seq, seg.ack) && seq_le_spec(seg.ack, sp.next)
}

/// An acknowledgment of everything sent, a local FIN included.
pub open spec fn acks_all(sp: SendParam, seg: Segment) -> bool {
    ack_advances(sp, seg) && seg.ack == sp.next
}

pub open spec fn in_sequence(rp: RecvParam, seg: Segment) -> bool {
    seg.seq == rp.next
}

/// The peer's FIN, in sequence.
pub open spec fn peer_fin(rp: RecvParam, seg: Segment) -> bool {
    in_sequence(rp, seg) && has_flag(seg.flags, FIN)
}

/// States in which acknowledgments are taken.
pub open spec fn takes_ack(st: TcpStatus) -> bool {
    match st {
        TcpStatus::SynRcvd | TcpStatus::Established | TcpStatus::FinWait1 | TcpStatus::FinWait2
        | TcpStatus::CloseWait | TcpStatus::Closing | TcpStatus::LastAck => true,
        _ => false,
    }
}

/// States in which the peer may still send data.
pub open spec fn takes_data(st: TcpStatus) -> bool {
    match st {
        TcpStatus::Established | TcpStatus::FinWait1 | TcpStatus::FinWait2 => true,
        _ => false,
    }
}

/// The transition table of the synchronized states: `advanced` when an
/// acknowledgment advanced, `all_acked` when it covers everything sent,
/// `fin` when the peer's FIN arrived in sequence.
pub open spec fn transition(st: TcpStatus, advanced: bool, all_acked: bool, fin: bool) -> TcpStatus {
    match st {
        TcpStatus::SynRcvd => if advanced { TcpStatus::Established } else { st },
        TcpStatus::Established => if fin { TcpStatus::CloseWait } else { st },
        TcpStatus::FinWait1 => if all_acked && fin {
            TcpStatus::TimeWait
        } else if all_acked {
            TcpStatus::FinWait2
        } else if fin {
            TcpStatus::Closing
        } else {
            st
        },
        TcpStatus::FinWait2 => if fin { TcpStatus::TimeWait } else { st },
        TcpStatus::Closing => if all_acked { TcpStatus::TimeWait } else { st },
        TcpStatus::LastAck => if all_acked { TcpStatus::Closed } else { st },
        _ => st,
    }
}

pub open spec fn next_status(s: Socket, seg: Segment) -> TcpStatus {
    transition(
        s.status,
        takes_ack(s.status) && ack_advances(s.send_param, seg),
        takes_ack(s.status) && acks_all(s.send_param, seg),
        takes_data(s.status) && peer_fin(s.recv_param, seg),
    )
}

/// Whether the segment's data and FIN are taken in.
pub open spec fn accepts(s: Socket, seg: Segment) -> bool {
    takes_data(s.status) && in_sequence(s.recv_param, seg)
}

/// The next sequence number expected from the peer after `seg`.
pub open spec fn recv_next_after(s: Socket, seg: Segment) -> u32 {
    if accepts(s, seg) {
        seq_add_spec(
            s.recv_param.next,
            seg.payload@.len() + if has_flag(seg.flags, FIN) { 1int } else { 0int },
        )
    } else {
        s.recv_param.next
    }
}

/// The acknowledgment sent in reply, if any.
pub open spec fn reply_spec(s: Socket, seg: Segment) -> Option<Control> {
    if (takes_data(s.status) && (seg.payload@.len() > 0 || has_flag(seg.flags, FIN)))
        || (s.status == TcpStatus::TimeWait && has_flag(seg.flags, FIN)) {
        Some(Control { seq: s.send_param.next, ack: recv_next_after(s, seg), flags: ACK })
    } else {
        None
    }
}

pub open spec fn when(b: bool, k: TCPEventKind) -> Seq<TCPEventKind> {
    if b {
        seq![k]
    } else {
        seq![]
    }
}

/// Whether a transition from `a` to `b` finishes a local close.
pub open spec fn finishes_close(a: TcpStatus, b: TcpStatus) -> bool {
    a != b && (b == TcpStatus::TimeWait || b == TcpStatus::Closed)
}

/// The events that handling `seg` raises, in order.
pub open spec fn events_spec(s: Socket, seg: Segment) -> Seq<TCPEventKind> {
    let advanced = takes_ack(s.status) && ack_advances(s.send_param, seg);
    when(s.status == TcpStatus::SynRcvd && advanced, TCPEventKind::ConnectionCompleted)
        + when(s.status != TcpStatus::SynRcvd && advanced, TCPEventKind::Acked)
        + when(
        accepts(s, seg) && (seg.payload@.len() > 0 || has_flag(seg.flags, FIN)),
        TCPEventKind::DataArrived,
    ) + when(finishes_close(s.status, next_status(s, seg)), TCPEventKind::ConnectionClosed)
}

/// How `seg` leaves a connection in a synchronized state, at time `now`.
pub open spec fn handled(s: Socket, t: Socket, seg: Segment, now: u64) -> bool {
    let advanced = takes_ack(s.status) && ack_advances(s.send_param, seg);
    &&& t.id == s.id
    &&& t.parent == s.parent
    &&& t.backlog == s.backlog
    &&& t.status == next_status(s, seg)
    &&& t.send_param == (if advanced {
        SendParam { unacked_seq: seg.ack, window: seg.window, ..s.send_param }
    } else {
        s.send_param
    })
    &&& t.retransmission_queue@ == (if advanced {
        retire_spec(s.retransmission_queue@, seg.ack)
    } else {
        s.retransmission_queue@
    })
    &&& t.recv_param == RecvParam { next: recv_next_after(s, seg), ..s.recv_param }
    &&& t.received@ == (if accepts(s, seg) {
        s.received@ + seg.payload@
    } else {
        s.received@
    })
    &&& t.quiet_since == (if t.status == TcpStatus::TimeWait {
        now
    } else {
        s.quiet_since
    })
}

fn takes_ack_exec(st: TcpStatus) -> (r: bool)
    ensures
        r == takes_ack(st),
{
    match st {
        TcpStatus::SynRcvd | TcpStatus::Established | TcpStatus::FinWait1 | TcpStatus::FinWait2
        | TcpStatus::CloseWait | TcpStatus::Closing | TcpStatus::LastAck => true,
        _ => false,
    }
}

fn takes_data_exec(st: TcpStatus) -> (r: bool)
    ensures
        r == takes_data(st),
{
    match st {
        TcpStatus::Established | TcpStatus::FinWait1 | TcpStatus::FinWait2 => true,
        _ => false,
    }
}

/// The transition table of the synchronized states.
pub fn next_state(st: TcpStatus, advanced: bool, all_acked: bool, fin: bool) -> (r: TcpStatus)
    ensures
        r == transition(st, advanced, all_acked, fin),
{
    match st {
        TcpStatus::SynRcvd => if advanced { TcpStatus::Established } else { st },
        TcpStatus::Established => if fin { TcpStatus::CloseWait } else { st },
        TcpStatus::FinWait1 => if all_acked && fin {
            TcpStatus::TimeWait
        } else if all_acked {
            TcpStatus::FinWait2
        } else if fin {
            TcpStatus::Closing
        } else {
            st
        },
        TcpStatus::FinWait2 => if fin { TcpStatus::TimeWait } else { st },
        TcpStatus::Closing => if all_acked { TcpStatus::TimeWait } else { st },
        TcpStatus::LastAck => if all_acked { TcpStatus::Closed } else { st },
        _ => st,
    }
}

/// Handles `seg` on a connection past the opening SYN, at time `now`.
pub fn handle_segment(sock: &mut Socket, seg: &Segment, now: u64) -> (out: Outcome)
    requires
        seg.payload@.len() <= MAX_SEGMENT_LEN,
    ensures
        handled(*old(sock), *final(sock), *seg, now),
        out.reply == reply_spec(*old(sock), *seg),
        out.events@ == events_spec(*old(sock), *seg),
{
    let ghost s0 = *sock;
    let st = sock.status;
    let sp = sock.send_param;
    let rp = sock.recv_param;
    let advanced = takes_ack_exec(st) && flag_set(seg.flags, ACK) && seq_lt(sp.unacked_seq, seg.ack)
        && seq_le(seg.ack, sp.next);
    let all_acked = advanced && seg.ack == sp.next;
    if advanced {
        sock.send_param.ack_up_to(seg.ack, seg.window);
        retire_acked(&mut sock.retransmission_queue, seg.ack);
    }
    let has_fin = flag_set(seg.flags, FIN);
    let accepted = takes_data_exec(st) && seg.seq == rp.next;
    let fin = accepted && has_fin;
    if accepted {
        append_bytes(&mut sock.received, &seg.payload);
        let used: u32 = seg.payload.len() as u32 + if has_fin { 1u32 } else { 0u32 };
        sock.recv_param.advance_recv(used);
    }
    let next = next_state(st, advanced, all_acked, fin);
    sock.status = next;
    if next == TcpStatus::TimeWait {
        sock.quiet_since = now;
    }
    let reply = if (takes_data_exec(st) && (seg.payload.len() > 0 || has_fin))
        || (st == TcpStatus::TimeWait && has_fin) {
        Some(Control { seq: sp.next, ack: sock.recv_param.next, flags: ACK })
    } else {
        None
    };
    let mut events: Vec<TCPEventKind> = Vec::new();
    if st == TcpStatus::SynRcvd && advanced {
        events.push(TCPEventKind::ConnectionCompleted);
    }
    if st != TcpStatus::SynRcvd && advanced {
        events.push(TCPEventKind::Acked);
    }
    if accepted && (seg.payload.len() > 0 || has_fin) {
        events.push(TCPEventKind::DataArrived);
    }
    if st != next && (next == TcpStatus::TimeWait || next == TcpStatus::Closed) {
        events.push(TCPEventKind::ConnectionClosed);
    }
    assert(events@ =~= events_spec(s0, *seg));
    Outcome { reply, events }
}

/// A SYN+ACK whose acknowledgment lies within what was sent.
pub open spec fn syn_ack_ok(sp: SendParam, seg: Segment) -> bool {
    has_flag(seg.flags, SYN) && has_flag(seg.flags, ACK) && seq_le_spec(sp.unacked_seq, seg.ack)
        && seq_le_spec(seg.ack, sp.next)
}

/// A SYN without acknowledgment: the peer opened at the same time.
pub open spec fn bare_syn(seg: Segment) -> bool {
    has_flag(seg.flags, SYN) && !has_flag(seg.flags, ACK)
}

/// How `seg` leaves a connection in SynSent, with the reply and events it gives.
pub open spec fn syn_sent_step(
    s: Socket,
    t: Socket,
    seg: Segment,
    reply: Option<Control>,
    events: Seq<TCPEventKind>,
) -> bool {
    &&& t.id == s.id
    &&& t.parent == s.parent
    &&& t.backlog == s.backlog
    &&& t.received == s.received
    &&& t.quiet_since == s.quiet_since
    &&& (syn_ack_ok(s.send_param, seg) ==> {
        &&& t.recv_param == (RecvParam {
            initial_seq: seg.seq,
            next: seq_add_spec(seg.seq, 1),
            ..s.recv_param
        })
        &&& t.send_param == (SendParam { unacked_seq: seg.ack, window: seg.window, ..s.send_param })
        &&& t.retransmission_queue@ == retire_spec(s.retransmission_queue@, seg.ack)
        &&& reply == Some(Control { seq: s.send_param.next, ack: seq_add_spec(seg.seq, 1), flags: ACK })
        &&& if seq_lt_spec(s.send_param.initial_seq, seg.ack) {
            t.status == TcpStatus::Established && events == seq![TCPEventKind::ConnectionCompleted]
        } else {
            t.status == TcpStatus::SynRcvd && events.len() == 0
        }
    })
    &&& (bare_syn(seg) ==> {
        &&& t.recv_param == (RecvParam {
            initial_seq: seg.seq,
            next: seq_add_spec(seg.seq, 1),
            ..s.recv_param
        })
        &&& t.send_param == (SendParam { window: seg.window, ..s.send_param })
        &&& t.retransmission_queue@ == s.retransmission_queue@
        &&& t.status == TcpStatus::SynRcvd
        &&& reply == Some(
            Control { seq: s.send_param.initial_seq, ack: seq_add_spec(seg.seq, 1), flags: SYN_ACK },
        )
        &&& events.len() == 0
    })
    &&& (!syn_ack_ok(s.send_param, seg) && !bare_syn(seg) ==> t == s && reply is None && events.len()
        == 0)
}

/// Handles `seg` on a connection that has sent its SYN and heard nothing.
pub fn on_syn_sent(sock: &mut Socket, seg: &Segment) -> (out: Outcome)
    ensures
        syn_sent_step(*old(sock), *final(sock), *seg, out.reply, out.events@),
{
    let mut events: Vec<TCPEventKind> = Vec::new();
    let syn = flag_set(seg.flags, SYN);
    let ack = flag_set(seg.flags, ACK);
    let sp = sock.send_param;
    if syn && ack && seq_le(sp.unacked_seq, seg.ack) && seq_le(seg.ack, sp.next) {
        sock.recv_param.initial_seq = seg.seq;
        sock.recv_param.next = seq_add(seg.seq, 1);
        sock.send_param.ack_up_to(seg.ack, seg.window);
        retire_acked(&mut sock.retransmission_queue, seg.ack);
        if seq_lt(sp.initial_seq, seg.ack) {
            sock.status = TcpStatus::Established;
            events.push(TCPEventKind::ConnectionCompleted);
            assert(events@ =~= seq![TCPEventKind::ConnectionCompleted]);
        } else {
            sock.status = TcpStatus::SynRcvd;
        }
        Outcome {
            reply: Some(Control { seq: sp.next, ack: sock.recv_param.next, flags: ACK }),
            events,
        }
    } else if syn && !ack {
        sock.recv_param.initial_seq = seg.seq;
        sock.recv_param.next = seq_add(seg.seq, 1);
        sock.send_param.window = seg.window;
        sock.status = TcpStatus::SynRcvd;
        Outcome {
            reply: Some(Control { seq: sp.initial_seq, ack: sock.recv_param.next, flags: SYN_ACK }),
            events,
        }
    } else {
        Outcome { reply: None, events }
    }
}

/// An active open with initial sequence number `isn` that hears a SYN+ACK
/// acknowledging its SYN is established, acknowledges the peer's SYN with
/// `ACK{seq: isn + 1, ack: peer + 1}`, and signals completion.
pub proof fn lemma_handshake_completes(
    s: Socket,
    t: Socket,
    seg: Segment,
    reply: Option<Control>,
    events: Seq<TCPEventKind>,
    isn: u32,
)
    requires
        s.send_param.initial_seq == isn,
        s.send_param.unacked_seq == isn,
        s.send_param.next == seq_add_spec(isn, 1),
        has_flag(seg.flags, SYN),
        has_flag(seg.flags, ACK),
        seg.ack == seq_add_spec(isn, 1),
        syn_sent_step(s, t, seg, reply, events),
    ensures
        t.status == TcpStatus::Established,
        reply == Some(Control { seq: seq_add_spec(isn, 1), ack: seq_add_spec(seg.seq, 1), flags: ACK }),
        events == seq![TCPEventKind::ConnectionCompleted],
        t.send_param.unacked_seq == seq_add_spec(isn, 1),
        t.recv_param.next == seq_add_spec(seg.seq, 1),
{
}

/// An active open with initial sequence number `isn` that hears a bare SYN
/// moves to SynRcvd and answers `SYN+ACK{seq: isn, ack: peer + 1}`, without
/// completing.
pub proof fn lemma_simultaneous_open(
    s: Socket,
    t: Socket,
    seg: Segment,
    reply: Option<Control>,
    events: Seq<TCPEventKind>,
    isn: u32,
)
    requires
        s.send_param.initial_seq == isn,
        bare_syn(seg),
        syn_sent_step(s, t, seg, reply, events),
    ensures
        t.status == TcpStatus::SynRcvd,
        reply == Some(Control { seq: isn, ack: seq_add_spec(seg.seq, 1), flags: SYN_ACK }),
        events.len() == 0,
{
}

/// The local close, step by step: in FinWait1 an acknowledgment of
/// everything sent (the FIN included) without a FIN leads to FinWait2; in
/// FinWait2 the peer's FIN in sequence leads to TimeWait, acknowledged with
/// `ack: peer FIN + 1`, and signals the close as finished.
pub proof fn lemma_close_steps(s: Socket, t: Socket, seg: Segment, now: u64)
    requires
        handled(s, t, seg, now),
        has_flag(seg.flags, ACK) || has_flag(seg.flags, FIN),
    ensures
        s.status == TcpStatus::FinWait1 && s.send_param.unacked_seq != s.send_param.next
            && seq_le_spec(s.send_param.unacked_seq, s.send_param.next) && has_flag(seg.flags, ACK)
            && seg.ack == s.send_param.next && !has_flag(seg.flags, FIN) ==> t.status == TcpStatus::FinWait2
            && t.send_param.unacked_seq == s.send_param.next,
        s.status == TcpStatus::FinWait2 && seg.seq == s.recv_param.next && has_flag(seg.flags, FIN)
            && seg.payload@.len() == 0 ==> t.status == TcpStatus::TimeWait && t.recv_param.next
            == seq_add_spec(s.recv_param.next, 1) && reply_spec(s, seg) == Some(
            Control { seq: s.send_param.next, ack: seq_add_spec(s.recv_param.next, 1), flags: ACK },
        ) && events_spec(s, seg).contains(TCPEventKind::ConnectionClosed) && t.quiet_since == now,
{
    if s.status == TcpStatus::FinWait2 && seg.seq == s.recv_param.next && has_flag(seg.flags, FIN)
        && seg.payload@.len() == 0 {
        let e = events_spec(s, seg);
        assert(e[e.len() - 1] == TCPEventKind::ConnectionClosed);
    }
}

} // verus!
