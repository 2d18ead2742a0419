//! The engine: the socket table and the event bridge together, with the
//! operations callers and the receive path invoke. It does no I/O: it takes
//! inbound datagrams and the time, and hands back the segments to send.

use vstd::prelude::*;
use rand::Rng;
use crate::event::{EventBridge, TCPEvent, TCPEventKind};
use crate::machine::{bare_syn, events_spec, handle_segment, handled, on_syn_sent, reply_spec, syn_sent_step, Control, SYN_ACK};
use crate::retransmit::{copy_bytes, entry_acked, lemma_retire_all, lemma_retire_append, retire_spec, exhausted, is_due, outgoing_view, resends_spec, resent, scan, Outgoing, RETRANSMITTING_TIMEOUT};
use crate::segment::{parsed_from, checksum_ok, encode, flag_set, frame, parsable, parse, verify_checksum, Header, Segment, ACK, HEADER_LEN, MAX_SEGMENT_LEN, SYN};
use crate::seqnum::{lemma_advance_le, seq_add, seq_add_spec, seq_dist, seq_distance, seq_le_spec, SEQ_HALF, SEQ_SPACE};
use vstd::arithmetic::div_mod::{lemma_add_mod_noop, lemma_small_mod, lemma_sub_mod_noop};
use crate::socket::{WILDCARD_ADDR, WILDCARD_PORT, RecvParam, RetransmissionEntry, SendParam, SockID, Socket, TcpStatus};
use crate::table::{listening_id, port_bound, SocketTable, TableError};

verus! {

/// Maximum segment size: the largest payload of one segment.
pub const MSS: usize = 1460;

/// The ephemeral port range, `PORT_MIN..PORT_END`.
pub const PORT_MIN: u16 = 40000;
pub const PORT_END: u16 = 60000;

/// The receive window this engine advertises.
pub const WINDOW: u16 = 65535;

/// Seconds a connection stays in TimeWait without hearing anything.
pub const TIME_WAIT_INTERVAL: u64 = 4;

/// Errors surfaced to callers.
#[derive(Clone, Copy, Debug, PartialEq, Eq, Structural)]
pub enum TcpError {
    /// No ephemeral port is free.
    PortExhaustion,
    /// No source address is known for the destination.
    RouteResolutionFailure,
    /// The identity is already in the table.
    AlreadyExists,
    /// No connection has that identity.
    NotFound,
    /// The connection's state does not allow the operation.
    InvalidState,
    /// The connection was given up after retransmission ran out.
    Aborted,
    /// Sending would leave half the sequence space or more unacknowledged.
    SequenceSpaceFull,
}

/// Relies on rand's `Rng::gen_range` on the thread-local generator: a value
/// drawn from `lo..hi`, which panics only on an empty range.
#[verifier::external_body]
fn random_in(lo: u32, hi: u32) -> (r: u32)
    requires
        lo < hi,
    ensures
        lo <= r < hi,
{
    rand::thread_rng().gen_range(lo..hi)
}

/// The header of a segment that connection `id` sends.
pub open spec fn outbound(id: SockID, seq: u32, ack: u32, flags: u8) -> Header {
    Header { src_port: id.local_port, dst_port: id.remote_port, seq, ack, flags, window: WINDOW }
}

/// The bytes of such a segment on the wire.
pub open spec fn outbound_bytes(id: SockID, seq: u32, ack: u32, flags: u8, payload: Seq<u8>) -> Seq<u8> {
    frame(id.local_addr, id.remote_addr, outbound(id, seq, ack, flags), payload)
}

/// Encodes a segment of connection `id`.
pub fn build_segment(id: SockID, seq: u32, ack: u32, flags: u8, payload: Vec<u8>) -> (r: Vec<u8>)
    requires
        payload@.len() <= MAX_SEGMENT_LEN - HEADER_LEN,
    ensures
        r@ == outbound_bytes(id, seq, ack, flags, payload@),
{
    let s = Segment {
        src_port: id.local_port,
        dst_port: id.remote_port,
        seq,
        ack,
        flags,
        window: WINDOW,
        payload,
    };
    assert(s.header() == outbound(id, seq, ack, flags));
    encode(id.local_addr, id.remote_addr, &s)
}

/// An entry for a segment sent at `now` for the first time.
pub open spec fn fresh_entry(e: RetransmissionEntry, bytes: Seq<u8>, dst: u32, seq: u32, len: u32, now: u64) -> bool {
    e.segment@ == bytes && e.dst_addr == dst && e.seq == seq && e.len == len && e.sent_at == now
        && e.attempts == 0
}

/// A connection just opened actively with initial sequence number `isn`.
pub open spec fn syn_sent_socket(s: Socket, id: SockID, isn: u32, now: u64) -> bool {
    &&& s.id == id
    &&& s.status == TcpStatus::SynSent
    &&& s.send_param == (SendParam {
        initial_seq: isn,
        unacked_seq: isn,
        next: seq_add_spec(isn, 1),
        window: 0,
    })
    &&& s.recv_param == (RecvParam { initial_seq: 0, next: 0, window: WINDOW })
    &&& s.retransmission_queue@.len() == 1
    &&& fresh_entry(
        s.retransmission_queue@[0],
        outbound_bytes(id, isn, 0, SYN, seq![]),
        id.remote_addr,
        isn,
        1,
        now,
    )
    &&& s.received@.len() == 0
    &&& s.parent is None
    &&& s.backlog@.len() == 0
}

/// The identity of the listening entry on `local_addr:port`.
pub open spec fn listening_id_of(local_addr: u32, port: u16) -> SockID {
    SockID { local_addr, remote_addr: WILDCARD_ADDR, local_port: port, remote_port: WILDCARD_PORT }
}

/// The identity of the connection a segment from `src` to `dst` belongs to.
pub open spec fn inbound_id(src: u32, dst: u32, seg: Segment) -> SockID {
    SockID { local_addr: dst, remote_addr: src, local_port: seg.dst_port, remote_port: seg.src_port }
}

/// Whether handling a segment of `id` that raised `evs` signals `e`: each
/// event on `id`, and a completed connection also on the listening entry it
/// came from.
pub open spec fn raised(id: SockID, parent: Option<SockID>, evs: Seq<TCPEventKind>, e: TCPEvent) -> bool {
    (e.sock_id == id && evs.contains(e.kind)) || (parent matches Some(p) && e.sock_id == p && e.kind
        == TCPEventKind::ConnectionCompleted && evs.contains(TCPEventKind::ConnectionCompleted))
}

/// How the table changes when the connection at `i` takes `seg`.
pub open spec fn stepped(a: Seq<Socket>, b: Seq<Socket>, i: int, seg: Segment, now: u64) -> bool {
    exists|t: Socket|
        handled(a[i], t, seg, now) && b == (if t.status == TcpStatus::Closed {
            a.remove(i)
        } else {
            a.update(i, t)
        })
}

proof fn lemma_contains_push<A>(s: Seq<A>, x: A, y: A)
    ensures
        s.push(x).contains(y) <==> (s.contains(y) || y == x),
{
    if s.push(x).contains(y) {
        let j = choose|j: int| 0 <= j < s.push(x).len() && s.push(x)[j] == y;
        if j < s.len() {
            assert(s[j] == y);
        }
    }
    if s.contains(y) {
        let j = choose|j: int| 0 <= j < s.len() && s[j] == y;
        assert(s.push(x)[j] == y);
    }
    if y == x {
        assert(s.push(x)[s.len() as int] == y);
    }
}

proof fn lemma_publish_step(
    before: EventBridge,
    after: EventBridge,
    e0: EventBridge,
    id: SockID,
    evs: Seq<TCPEventKind>,
    k: int,
)
    requires
        0 <= k < evs.len(),
        forall|e: TCPEvent|
            before.has(e) <==> (e0.has(e) || (e.sock_id == id && evs.subrange(0, k).contains(e.kind))),
        forall|e: TCPEvent|
            after.has(e) <==> (before.has(e) || e == (TCPEvent { sock_id: id, kind: evs[k] })),
    ensures
        forall|e: TCPEvent|
            after.has(e) <==> (e0.has(e) || (e.sock_id == id && evs.subrange(0, k + 1).contains(
                e.kind,
            ))),
{
    assert(evs.subrange(0, k + 1) =~= evs.subrange(0, k).push(evs[k]));
    assert forall|e: TCPEvent|
        after.has(e) <==> (e0.has(e) || (e.sock_id == id && evs.subrange(0, k + 1).contains(
            e.kind,
        ))) by {
        lemma_contains_push(evs.subrange(0, k), evs[k], e.kind);
        assert(before.has(e) <==> (e0.has(e) || (e.sock_id == id && evs.subrange(0, k).contains(e.kind))));
        assert(after.has(e) <==> (before.has(e) || e == (TCPEvent { sock_id: id, kind: evs[k] })));
    }
}

/// How the table changes when the listening entry at `li` takes a SYN that
/// opens connection `id`: the listener records `id` in its backlog and a new
/// connection in SynRcvd joins the table.
pub open spec fn passive_opened(a: Seq<Socket>, b: Seq<Socket>, li: int, id: SockID, seg: Segment, isn: u32, now: u64) -> bool {
    let l = a[li];
    let c = b.last();
    &&& b.len() == a.len() + 1
    &&& b[li].id == l.id && b[li].status == l.status && b[li].send_param == l.send_param
    &&& b[li].recv_param == l.recv_param && b[li].backlog@ == l.backlog@.push(id)
    &&& forall|j: int| 0 <= j < a.len() && j != li ==> b[j] == a[j]
    &&& c.id == id
    &&& c.status == TcpStatus::SynRcvd
    &&& c.send_param == (SendParam {
        initial_seq: isn,
        unacked_seq: isn,
        next: seq_add_spec(isn, 1),
        window: seg.window,
    })
    &&& c.recv_param == (RecvParam { initial_seq: seg.seq, next: seq_add_spec(seg.seq, 1), window: WINDOW })
    &&& c.parent == Some(l.id)
    &&& c.retransmission_queue@.len() == 1
    &&& fresh_entry(
        c.retransmission_queue@[0],
        outbound_bytes(id, isn, seq_add_spec(seg.seq, 1), SYN_ACK, seq![]),
        id.remote_addr,
        isn,
        1,
        now,
    )
    &&& c.received@.len() == 0
    &&& c.backlog@.len() == 0
}

/// How the table, the events and the output change when a segment reaches
/// connection `id`.
pub open spec fn to_connection(
    a: Seq<Socket>,
    b: Seq<Socket>,
    ea: EventBridge,
    eb: EventBridge,
    id: SockID,
    seg: Segment,
    out: Seq<(u32, Seq<u8>)>,
    now: u64,
) -> bool {
    exists|i: int|
        0 <= i < a.len() && #[trigger] a[i].id == id && (a[i].status == TcpStatus::SynSent ==> exists|
            t: Socket,
            c: Option<Control>,
            evs: Seq<TCPEventKind>,
        |
            syn_sent_step(a[i], t, seg, c, evs) && b == a.update(i, t) && out == replies_view(id, c)
                && forall|e: TCPEvent| eb.has(e) <==> (ea.has(e) || raised(id, a[i].parent, evs, e)))
            && (a[i].status != TcpStatus::SynSent ==> stepped(a, b, i, seg, now) && out == replies_view(
            id,
            reply_spec(a[i], seg),
        ) && forall|e: TCPEvent|
            eb.has(e) <==> (ea.has(e) || raised(id, a[i].parent, events_spec(a[i], seg), e)))
}

/// What the receive path does with segment `seg` from `src` to `dst`.
pub open spec fn dispatched(
    a: TCP,
    b: TCP,
    src: u32,
    dst: u32,
    seg: Segment,
    isn: u32,
    now: u64,
    out: Seq<(u32, Seq<u8>)>,
) -> bool {
    let id = inbound_id(src, dst, seg);
    &&& a.table.holds(id) ==> to_connection(
        a.table.sockets@,
        b.table.sockets@,
        a.events,
        b.events,
        id,
        seg,
        out,
        now,
    )
    &&& !a.table.holds(id) && a.table.holds(listening_id(id)) && bare_syn(seg) ==> to_listener(
        a.table.sockets@,
        b.table.sockets@,
        id,
        seg,
        isn,
        now,
        out,
    ) && b.events == a.events
    &&& !a.table.holds(id) && !(a.table.holds(listening_id(id)) && bare_syn(seg)) ==> b.table.sockets@
        == a.table.sockets@ && out.len() == 0 && b.events == a.events
}

/// How the table changes when a SYN for `id` reaches its listening entry.
pub open spec fn to_listener(
    a: Seq<Socket>,
    b: Seq<Socket>,
    id: SockID,
    seg: Segment,
    isn: u32,
    now: u64,
    out: Seq<(u32, Seq<u8>)>,
) -> bool {
    exists|li: int|
        0 <= li < a.len() && #[trigger] a[li].id == listening_id(id) && (a[li].status == TcpStatus::Listen
            ==> passive_opened(a, b, li, id, seg, isn, now) && out == replies_view(
            id,
            Some(Control { seq: isn, ack: seq_add_spec(seg.seq, 1), flags: SYN_ACK }),
        )) && (a[li].status != TcpStatus::Listen ==> b == a && out.len() == 0)
}

/// Flags of a segment carrying data.
pub const DATA_FLAGS: u8 = 0x18;

/// Number of segments a payload of `n` bytes is split into.
pub open spec fn chunk_count(n: int) -> int {
    (n + MSS - 1) / (MSS as int)
}

/// End of the `k`-th chunk of a payload of `n` bytes.
pub open spec fn chunk_end(k: int, n: int) -> int {
    if (k + 1) * MSS < n {
        (k + 1) * MSS
    } else {
        n
    }
}

/// Whether `e` and `o` are the entry and segment of the `k`-th chunk of
/// `data`, sent on `id` from sequence number `next0` at `now`.
pub open spec fn chunk_sent(
    e: RetransmissionEntry,
    o: Outgoing,
    id: SockID,
    next0: u32,
    ack: u32,
    data: Seq<u8>,
    k: int,
    now: u64,
) -> bool {
    let start = k * MSS;
    let end = chunk_end(k, data.len() as int);
    let seq = seq_add_spec(next0, start);
    let bytes = outbound_bytes(id, seq, ack, DATA_FLAGS, data.subrange(start, end));
    &&& o.dst_addr == id.remote_addr
    &&& o.bytes@ == bytes
    &&& fresh_entry(e, bytes, id.remote_addr, seq, (end - start) as u32, now)
}

/// Copies `data[start..end]`.
fn slice_copy(data: &Vec<u8>, start: usize, end: usize) -> (r: Vec<u8>)
    requires
        start <= end <= data@.len(),
    ensures
        r@ == data@.subrange(start as int, end as int),
{
    let mut r: Vec<u8> = Vec::new();
    let mut i = start;
    while i < end
        invariant
            start <= i <= end <= data@.len(),
            r@ == data@.subrange(start as int, i as int),
        decreases end - i,
    {
        r.push(data[i]);
        i += 1;
        assert(r@ =~= data@.subrange(start as int, i as int));
    }
    r
}

/// What `send` of `data` does to the connection at `i`.
pub open spec fn sent(a: Seq<Socket>, b: Seq<Socket>, i: int, data: Seq<u8>, r: Result<Vec<Outgoing>, TcpError>, now: u64) -> bool {
    let s = a[i];
    if s.status != TcpStatus::Established && s.status != TcpStatus::CloseWait {
        r == Err::<Vec<Outgoing>, TcpError>(TcpError::InvalidState) && b == a
    } else if seq_dist(s.send_param.unacked_seq, s.send_param.next) + data.len() >= SEQ_HALF as int {
        r == Err::<Vec<Outgoing>, TcpError>(TcpError::SequenceSpaceFull) && b == a
    } else {
        r matches Ok(o) && exists|t: Socket|
            {
                &&& b == a.update(i, t)
                &&& t.id == s.id && t.status == s.status && t.recv_param == s.recv_param
                &&& t.received == s.received && t.parent == s.parent && t.backlog == s.backlog
                &&& t.quiet_since == s.quiet_since
                &&& t.send_param == (SendParam {
                    next: seq_add_spec(s.send_param.next, data.len() as int),
                    ..s.send_param
                })
                &&& o@.len() == chunk_count(data.len() as int)
                &&& t.retransmission_queue@.len() == s.retransmission_queue@.len() + o@.len()
                &&& t.retransmission_queue@.subrange(0, s.retransmission_queue@.len() as int)
                    == s.retransmission_queue@
                &&& forall|j: int|
                    0 <= j < o@.len() ==> chunk_sent(
                        #[trigger] t.retransmission_queue@[s.retransmission_queue@.len() + j],
                        o@[j],
                        s.id,
                        s.send_param.next,
                        s.recv_param.next,
                        data,
                        j,
                        now,
                    )
            }
    }
}

/// What a retransmission scan at `now` does to connection `s`: it is aborted,
/// its queue discarded, when a due segment has used up its attempts;
/// otherwise each due segment is stamped as sent again.
pub open spec fn retransmitted(s: Socket, t: Socket, now: u64) -> bool {
    &&& t.id == s.id && t.send_param == s.send_param && t.recv_param == s.recv_param
    &&& t.received == s.received && t.parent == s.parent && t.backlog == s.backlog
    &&& t.quiet_since == s.quiet_since
    &&& if exhausted(s.retransmission_queue@, now, RETRANSMITTING_TIMEOUT) {
        t.status == TcpStatus::Aborted && t.retransmission_queue@.len() == 0
    } else {
        &&& t.status == s.status
        &&& t.retransmission_queue@.len() == s.retransmission_queue@.len()
        &&& forall|k: int|
            0 <= k < s.retransmission_queue@.len() ==> if is_due(
                s.retransmission_queue@[k],
                now,
                RETRANSMITTING_TIMEOUT,
            ) {
                resent(s.retransmission_queue@[k], #[trigger] t.retransmission_queue@[k], now)
            } else {
                t.retransmission_queue@[k] == s.retransmission_queue@[k]
            }
    }
}

/// The segments a scan of all of `s` at `now` sends again, in table order.
pub open spec fn all_resends(s: Seq<Socket>, now: u64) -> Seq<(u32, Seq<u8>)>
    decreases s.len(),
{
    if s.len() == 0 {
        seq![]
    } else {
        all_resends(s.drop_last(), now) + if exhausted(
            s.last().retransmission_queue@,
            now,
            RETRANSMITTING_TIMEOUT,
        ) {
            seq![]
        } else {
            resends_spec(s.last().retransmission_queue@, now, RETRANSMITTING_TIMEOUT)
        }
    }
}

/// Flags of a local FIN.
pub const FIN_ACK: u8 = 0x11;

/// What a local `close` does to the connection at `i`.
pub open spec fn closed_locally(a: Seq<Socket>, b: Seq<Socket>, i: int, r: Result<Option<Outgoing>, TcpError>, now: u64) -> bool {
    let s = a[i];
    let sp = s.send_param;
    let fin = outbound_bytes(s.id, sp.next, s.recv_param.next, FIN_ACK, seq![]);
    if (s.status == TcpStatus::Established || s.status == TcpStatus::CloseWait) && seq_dist(
        sp.unacked_seq,
        sp.next,
    ) + 1 >= SEQ_HALF as int {
        r == Err::<Option<Outgoing>, TcpError>(TcpError::SequenceSpaceFull) && b == a
    } else if s.status == TcpStatus::Established || s.status == TcpStatus::CloseWait {
        r matches Ok(Some(o)) && o.dst_addr == s.id.remote_addr && o.bytes@ == fin && exists|t: Socket|
            {
                &&& b == a.update(i, t)
                &&& t.id == s.id && t.recv_param == s.recv_param && t.received == s.received
                &&& t.parent == s.parent && t.backlog == s.backlog && t.quiet_since == s.quiet_since
                &&& t.status == (if s.status == TcpStatus::Established {
                    TcpStatus::FinWait1
                } else {
                    TcpStatus::LastAck
                })
                &&& t.send_param == (SendParam { next: seq_add_spec(sp.next, 1), ..sp })
                &&& t.retransmission_queue@.len() == s.retransmission_queue@.len() + 1
                &&& t.retransmission_queue@.drop_last() == s.retransmission_queue@
                &&& fresh_entry(t.retransmission_queue@.last(), fin, s.id.remote_addr, sp.next, 1, now)
            }
    } else if s.status == TcpStatus::Listen || s.status == TcpStatus::SynSent || s.status
        == TcpStatus::Aborted || s.status == TcpStatus::Closed {
        r == Ok::<Option<Outgoing>, TcpError>(None) && b == a.remove(i)
    } else {
        r == Err::<Option<Outgoing>, TcpError>(TcpError::InvalidState) && b == a
    }
}

/// Whether `s` has sat quiet in TimeWait for the whole interval by `now`.
pub open spec fn expired(s: Socket, now: u64) -> bool {
    s.status == TcpStatus::TimeWait && now as int >= s.quiet_since as int + TIME_WAIT_INTERVAL as int
}

/// The connections of `s` that are not expired at `now`.
pub open spec fn live(s: Seq<Socket>, now: u64) -> Seq<Socket> {
    s.filter(|x: Socket| !expired(x, now))
}

proof fn lemma_live_step(s: Seq<Socket>, i: int, now: u64)
    requires
        0 <= i < s.len(),
    ensures
        live(s.subrange(0, i + 1), now) == (if !expired(s[i], now) {
            live(s.subrange(0, i), now).push(s[i])
        } else {
            live(s.subrange(0, i), now)
        }),
{
    reveal(Seq::filter);
    assert(s.subrange(0, i + 1).drop_last() =~= s.subrange(0, i));
}

/// States of a connection whose handshake has completed.
pub open spec fn synchronized(st: TcpStatus) -> bool {
    match st {
        TcpStatus::Established | TcpStatus::FinWait1 | TcpStatus::FinWait2 | TcpStatus::CloseWait
        | TcpStatus::Closing | TcpStatus::LastAck | TcpStatus::TimeWait => true,
        _ => false,
    }
}

fn synchronized_exec(st: TcpStatus) -> (r: bool)
    ensures
        r == synchronized(st),
{
    match st {
        TcpStatus::Established | TcpStatus::FinWait1 | TcpStatus::FinWait2 | TcpStatus::CloseWait
        | TcpStatus::Closing | TcpStatus::LastAck | TcpStatus::TimeWait => true,
        _ => false,
    }
}

/// Whether `c` is a connection of `t` whose handshake has completed.
pub open spec fn completed_in(t: Seq<Socket>, c: SockID) -> bool {
    exists|j: int| 0 <= j < t.len() && #[trigger] t[j].id == c && synchronized(t[j].status)
}

/// What `accept` does with the listening entry at `i`.
pub open spec fn accepted(a: Seq<Socket>, b: Seq<Socket>, i: int, r: Result<Option<SockID>, TcpError>) -> bool {
    let l = a[i];
    match r {
        Ok(Some(c)) => exists|k: int|
            0 <= k < l.backlog@.len() && #[trigger] l.backlog@[k] == c && completed_in(a, c) && (forall|
                j: int,
            | 0 <= j < k ==> !completed_in(a, #[trigger] l.backlog@[j])) && b == a.update(
                i,
                Socket { backlog: b[i].backlog, ..l },
            ) && b[i].backlog@ == l.backlog@.remove(k),
        Ok(None) => b == a && forall|j: int|
            0 <= j < l.backlog@.len() ==> !completed_in(a, #[trigger] l.backlog@[j]),
        Err(_) => false,
    }
}

/// Segment `k` of a `send` of `n` bytes from `next0` is non-empty, ends
/// where segment `k + 1` starts, and is covered by an acknowledgment of
/// everything the `send` handed out.
pub proof fn lemma_chunk_range(next0: u32, n: int, k: int)
    requires
        0 <= n < SEQ_HALF,
        0 <= k < chunk_count(n),
    ensures
        k * MSS < chunk_end(k, n) <= n,
        k + 1 < chunk_count(n) ==> chunk_end(k, n) == (k + 1) * MSS,
        seq_add_spec(seq_add_spec(next0, k * MSS), chunk_end(k, n) - k * MSS) == seq_add_spec(
            next0,
            chunk_end(k, n),
        ),
        seq_le_spec(seq_add_spec(next0, chunk_end(k, n)), seq_add_spec(next0, n)),
{
    let m = SEQ_SPACE as int;
    let start = k * MSS;
    let end = chunk_end(k, n);
    assert(k * MSS < n) by (nonlinear_arith)
        requires
            0 <= k < (n + MSS - 1) / (MSS as int),
            n >= 0,
    ;
    if k + 1 < chunk_count(n) {
        assert((k + 1) * MSS < n) by (nonlinear_arith)
            requires
                0 <= k + 1 < (n + MSS - 1) / (MSS as int),
                n >= 0,
        ;
    }
    assert(((next0 as int + start) % m + (end - start)) % m == (next0 as int + end) % m) by {
        lemma_add_mod_noop(next0 as int + start, end - start, m);
        lemma_small_mod((end - start) as nat, m as nat);
    }
    assert(((next0 as int + n) % m - (next0 as int + end) % m) % m == n - end) by {
        lemma_sub_mod_noop(next0 as int + n, next0 as int + end, m);
        lemma_small_mod((n - end) as nat, m as nat);
    }
}

/// Every entry that a `send` queued is retired by an acknowledgment of the
/// sequence number right after its payload.
pub proof fn lemma_send_acked(a: Seq<Socket>, b: Seq<Socket>, i: int, data: Seq<u8>, r: Result<Vec<Outgoing>, TcpError>, now: u64)
    requires
        0 <= i < a.len(),
        data.len() < SEQ_HALF,
        sent(a, b, i, data, r, now),
        r is Ok,
    ensures
        ({
            let s = a[i];
            let q0 = s.retransmission_queue@;
            let q = b[i].retransmission_queue@;
            let ack = seq_add_spec(s.send_param.next, data.len() as int);
            &&& q.subrange(0, q0.len() as int) == q0
            &&& forall|j: int|
                q0.len() <= j < q.len() ==> #[trigger] entry_acked(q[j], ack)
            &&& retire_spec(q, ack) == retire_spec(q0, ack)
        }),
{
    let s = a[i];
    let q0 = s.retransmission_queue@;
    let o = r->Ok_0;
    let t = choose|t: Socket|
        {
            &&& b == a.update(i, t)
            &&& t.id == s.id && t.status == s.status && t.recv_param == s.recv_param
            &&& t.received == s.received && t.parent == s.parent && t.backlog == s.backlog
            &&& t.quiet_since == s.quiet_since
            &&& t.send_param == (SendParam {
                next: seq_add_spec(s.send_param.next, data.len() as int),
                ..s.send_param
            })
            &&& o@.len() == chunk_count(data.len() as int)
            &&& t.retransmission_queue@.len() == s.retransmission_queue@.len() + o@.len()
            &&& t.retransmission_queue@.subrange(0, s.retransmission_queue@.len() as int)
                == s.retransmission_queue@
            &&& forall|j: int|
                0 <= j < o@.len() ==> chunk_sent(
                    #[trigger] t.retransmission_queue@[s.retransmission_queue@.len() + j],
                    o@[j],
                    s.id,
                    s.send_param.next,
                    s.recv_param.next,
                    data,
                    j,
                    now,
                )
        };
    let q = t.retransmission_queue@;
    let n = data.len() as int;
    let ack = seq_add_spec(s.send_param.next, n);
    assert(b[i] == t);
    assert forall|j: int| q0.len() <= j < q.len() implies #[trigger] entry_acked(q[j], ack) by {
        let k = j - q0.len();
        assert(chunk_sent(q[q0.len() + k], o@[k], s.id, s.send_param.next, s.recv_param.next, data, k, now));
        lemma_chunk_range(s.send_param.next, n, k);
    }
    let tail = q.subrange(q0.len() as int, q.len() as int);
    assert(q =~= q0 + tail);
    lemma_retire_append(q0, tail, ack);
    lemma_retire_all(tail, ack);
    assert(retire_spec(q0, ack) + retire_spec(tail, ack) =~= retire_spec(q0, ack));
}

/// The reply segment, if any, as destination and bytes.
pub open spec fn replies_view(id: SockID, c: Option<Control>) -> Seq<(u32, Seq<u8>)> {
    match c {
        Some(c) => seq![(id.remote_addr, outbound_bytes(id, c.seq, c.ack, c.flags, seq![]))],
        None => seq![],
    }
}

/// Encodes the reply of connection `id`, if any.
fn control_out(id: SockID, c: Option<Control>) -> (r: Vec<Outgoing>)
    ensures
        outgoing_view(r@) == replies_view(id, c),
{
    let mut r: Vec<Outgoing> = Vec::new();
    if let Some(c) = c {
        let empty: Vec<u8> = Vec::new();
        assert(empty@ =~= seq![]);
        let bytes = build_segment(id, c.seq, c.ack, c.flags, empty);
        r.push(Outgoing { dst_addr: id.remote_addr, bytes });
        assert(outgoing_view(r@) =~= replies_view(id, Some(c)));
    } else {
        assert(outgoing_view(r@) =~= replies_view(id, c));
    }
    r
}

/// Whether no port of the ephemeral range is bound in `s`.
pub open spec fn all_ports_free(s: Seq<Socket>) -> bool {
    forall|p: u16| PORT_MIN <= p < PORT_END ==> !port_bound(s, p)
}

pub struct TCP {
    pub table: SocketTable,
    pub events: EventBridge,
}

impl TCP {
    pub open spec fn wf(&self) -> bool {
        self.table.wf() && self.events.wf()
    }

    pub fn new() -> (r: TCP)
        ensures
            r.wf(),
            r.table.sockets@.len() == 0,
            forall|e: TCPEvent| !r.events.has(e),
    {
        TCP { table: SocketTable::new(), events: EventBridge::new() }
    }

    /// Draws ports from the ephemeral range until one is free, at most as
    /// many times as the range is wide.
    pub fn select_unused_port(&self) -> (r: Result<u16, TcpError>)
        ensures
            r matches Ok(p) ==> PORT_MIN <= p < PORT_END && !port_bound(self.table.sockets@, p),
            r matches Err(e) ==> e == TcpError::PortExhaustion,
            all_ports_free(self.table.sockets@) ==> r is Ok,
    {
        let mut k: u16 = 0;
        while k < PORT_END - PORT_MIN
            invariant
                all_ports_free(self.table.sockets@) ==> k == 0,
            decreases PORT_END - PORT_MIN - k,
        {
            let p = random_in(PORT_MIN as u32, PORT_END as u32) as u16;
            if !self.table.port_in_use(p) {
                return Ok(p);
            }
            k += 1;
        }
        Err(TcpError::PortExhaustion)
    }

    /// Opens connection `id` actively with initial sequence number `isn`:
    /// records it in SynSent and hands back its SYN.
    pub fn open_active(&mut self, id: SockID, isn: u32, now: u64) -> (r: Result<Outgoing, TcpError>)
        requires
            old(self).wf(),
        ensures
            final(self).wf(),
            final(self).events == old(self).events,
            old(self).table.holds(id) ==> r == Err::<Outgoing, TcpError>(TcpError::AlreadyExists)
                && final(self).table.sockets@ == old(self).table.sockets@,
            !old(self).table.holds(id) ==> (r matches Ok(o) && o.dst_addr == id.remote_addr
                && o.bytes@ == outbound_bytes(id, isn, 0, SYN, seq![])
                && final(self).table.sockets@.len() == old(self).table.sockets@.len() + 1
                && final(self).table.sockets@.drop_last() == old(self).table.sockets@
                && syn_sent_socket(final(self).table.sockets@.last(), id, isn, now)),
    {
        if self.table.contains(id) {
            return Err(TcpError::AlreadyExists);
        }
        let empty: Vec<u8> = Vec::new();
        assert(empty@ =~= seq![]);
        let bytes = build_segment(id, isn, 0, SYN, empty);
        let mut sock = Socket::new(id, TcpStatus::SynSent);
        sock.send_param = SendParam {
            initial_seq: isn,
            unacked_seq: isn,
            next: seq_add(isn, 1),
            window: 0,
        };
        sock.recv_param.window = WINDOW;
        sock.retransmission_queue.push(
            RetransmissionEntry {
                segment: copy_bytes(&bytes),
                dst_addr: id.remote_addr,
                seq: isn,
                len: 1,
                sent_at: now,
                attempts: 0,
            },
        );
        let ghost before = self.table.sockets@;
        let _ = self.table.insert(sock);
        assert(self.table.sockets@.drop_last() =~= before);
        Ok(Outgoing { dst_addr: id.remote_addr, bytes })
    }

    /// Opens a connection from `local_addr` to `remote_addr:remote_port` on
    /// a free ephemeral port with a random initial sequence number.
    pub fn connect(&mut self, local_addr: u32, remote_addr: u32, remote_port: u16, now: u64) -> (r: Result<(SockID, Outgoing), TcpError>)
        requires
            old(self).wf(),
        ensures
            final(self).wf(),
            final(self).events == old(self).events,
            r matches Err(e) ==> e == TcpError::PortExhaustion && final(self).table.sockets@
                == old(self).table.sockets@,
            all_ports_free(old(self).table.sockets@) ==> r is Ok,
            r matches Ok((id, o)) ==> {
                let s = final(self).table.sockets@.last();
                let isn = s.send_param.initial_seq;
                &&& id.local_addr == local_addr
                &&& id.remote_addr == remote_addr
                &&& id.remote_port == remote_port
                &&& PORT_MIN <= id.local_port < PORT_END
                &&& !port_bound(old(self).table.sockets@, id.local_port)
                &&& 1 <= isn < 0x8000_0000
                &&& final(self).table.sockets@.len() == old(self).table.sockets@.len() + 1
                &&& final(self).table.sockets@.drop_last() == old(self).table.sockets@
                &&& syn_sent_socket(s, id, isn, now)
                &&& o.dst_addr == remote_addr
                &&& o.bytes@ == outbound_bytes(id, isn, 0, SYN, seq![])
            },
    {
        let port = match self.select_unused_port() {
            Ok(p) => p,
            Err(e) => {
                return Err(e);
            },
        };
        let isn = random_in(1, SEQ_HALF);
        let id = SockID { local_addr, remote_addr, local_port: port, remote_port };
        assert(!self.table.holds(id)) by {
            if self.table.holds(id) {
                let i = choose|i: int| 0 <= i < self.table.sockets@.len() && self.table.sockets@[i].id == id;
                assert(self.table.sockets@[i].id.local_port == port);
            }
        }
        match self.open_active(id, isn, now) {
            Ok(o) => Ok((id, o)),
            Err(e) => Err(e),
        }
    }

    /// Signals each of `evs` on `id`, and a completed connection also on `parent`.
    fn publish_events(&mut self, id: SockID, parent: Option<SockID>, evs: &Vec<TCPEventKind>)
        requires
            old(self).events.wf(),
        ensures
            final(self).events.wf(),
            final(self).table == old(self).table,
            forall|e: TCPEvent|
                final(self).events.has(e) <==> (old(self).events.has(e) || raised(id, parent, evs@, e)),
    {
        let ghost e0 = self.events;
        let mut completed = false;
        let mut k: usize = 0;
        while k < evs.len()
            invariant
                k <= evs@.len(),
                self.events.wf(),
                self.table == old(self).table,
                completed == evs@.subrange(0, k as int).contains(TCPEventKind::ConnectionCompleted),
                forall|e: TCPEvent|
                    self.events.has(e) <==> (e0.has(e) || (e.sock_id == id && evs@.subrange(
                        0,
                        k as int,
                    ).contains(e.kind))),
            decreases evs@.len() - k,
        {
            let ghost before = self.events;
            assert(forall|e: TCPEvent|
                before.has(e) <==> (e0.has(e) || (e.sock_id == id && evs@.subrange(0, k as int).contains(e.kind))));
            self.events.publish(id, evs[k]);
            proof {
                lemma_publish_step(before, self.events, e0, id, evs@, k as int);
                assert(evs@.subrange(0, k + 1) =~= evs@.subrange(0, k as int).push(evs@[k as int]));
                lemma_contains_push(
                    evs@.subrange(0, k as int),
                    evs@[k as int],
                    TCPEventKind::ConnectionCompleted,
                );
            }
            if evs[k] == TCPEventKind::ConnectionCompleted {
                completed = true;
            }
            k += 1;
        }
        assert(evs@.subrange(0, k as int) =~= evs@);
        let ghost mid = self.events;
        if let Some(p) = parent {
            if completed {
                self.events.publish(p, TCPEventKind::ConnectionCompleted);
            }
        }
        assert forall|e: TCPEvent|
            self.events.has(e) <==> (old(self).events.has(e) || raised(id, parent, evs@, e)) by {
            assert(mid.has(e) <==> (e0.has(e) || (e.sock_id == id && evs@.contains(e.kind))));
        }
    }

    /// Handles `seg` on the synchronized connection at `i`; the connection
    /// leaves the table when it reaches Closed.
    fn step_connection(&mut self, i: usize, seg: &Segment, now: u64) -> (r: Vec<Outgoing>)
        requires
            old(self).wf(),
            i < old(self).table.sockets@.len(),
            seg.payload@.len() <= MAX_SEGMENT_LEN,
        ensures
            final(self).wf(),
            stepped(old(self).table.sockets@, final(self).table.sockets@, i as int, *seg, now),
            outgoing_view(r@) == replies_view(
                old(self).table.sockets@[i as int].id,
                reply_spec(old(self).table.sockets@[i as int], *seg),
            ),
            forall|e: TCPEvent|
                final(self).events.has(e) <==> (old(self).events.has(e) || raised(
                    old(self).table.sockets@[i as int].id,
                    old(self).table.sockets@[i as int].parent,
                    events_spec(old(self).table.sockets@[i as int], *seg),
                    e,
                )),
    {
        let ghost old_sockets = self.table.sockets@;
        let mut sock = self.table.take_at(i);
        let id = sock.id;
        let parent = sock.parent;
        let ghost s0 = sock;
        let out = handle_segment(&mut sock, seg, now);
        assert(s0 == old_sockets[i as int]);
        assert(handled(old_sockets[i as int], sock, *seg, now));
        if sock.status != TcpStatus::Closed {
            assert(!self.table.holds(id)) by {
                if self.table.holds(id) {
                    let j = choose|j: int| 0 <= j < self.table.sockets@.len() && self.table.sockets@[j].id == id;
                    if j < i {
                        assert(old_sockets[j].id == id);
                    } else {
                        assert(old_sockets[j + 1].id == id);
                    }
                }
            }
            self.table.put_back(i, sock, id);
            assert(self.table.sockets@ =~= old_sockets.update(i as int, sock));
        }
        assert(stepped(old_sockets, self.table.sockets@, i as int, *seg, now));
        self.publish_events(id, parent, &out.events);
        control_out(id, out.reply)
    }

    /// Handles `seg` on the connection at `i`, which is in SynSent.
    fn step_syn_sent(&mut self, i: usize, seg: &Segment) -> (r: Vec<Outgoing>)
        requires
            old(self).wf(),
            i < old(self).table.sockets@.len(),
        ensures
            final(self).wf(),
            exists|t: Socket, c: Option<Control>, evs: Seq<TCPEventKind>|
                syn_sent_step(old(self).table.sockets@[i as int], t, *seg, c, evs)
                    && final(self).table.sockets@ == old(self).table.sockets@.update(i as int, t)
                    && outgoing_view(r@) == replies_view(t.id, c) && forall|e: TCPEvent|
                    final(self).events.has(e) <==> (old(self).events.has(e) || raised(t.id, t.parent, evs, e)),
    {
        let ghost old_sockets = self.table.sockets@;
        let mut sock = self.table.take_at(i);
        let id = sock.id;
        let parent = sock.parent;
        let out = on_syn_sent(&mut sock, seg);
        assert(!self.table.holds(id)) by {
            if self.table.holds(id) {
                let j = choose|j: int| 0 <= j < self.table.sockets@.len() && self.table.sockets@[j].id == id;
                if j < i {
                    assert(old_sockets[j].id == id);
                } else {
                    assert(old_sockets[j + 1].id == id);
                }
            }
        }
        let ghost t = sock;
        self.table.put_back(i, sock, id);
        assert(self.table.sockets@ =~= old_sockets.update(i as int, t));
        self.publish_events(id, parent, &out.events);
        let r = control_out(id, out.reply);
        assert(syn_sent_step(old_sockets[i as int], t, *seg, out.reply, out.events@));
        r
    }

    /// Opens connection `id` passively on the SYN `seg`, which reached the
    /// listening entry at `li`, with initial sequence number `isn`.
    fn passive_open(&mut self, li: usize, id: SockID, seg: &Segment, isn: u32, now: u64) -> (r: Vec<Outgoing>)
        requires
            old(self).wf(),
            li < old(self).table.sockets@.len(),
            !old(self).table.holds(id),
        ensures
            final(self).wf(),
            final(self).events == old(self).events,
            passive_opened(old(self).table.sockets@, final(self).table.sockets@, li as int, id, *seg, isn, now),
            outgoing_view(r@) == replies_view(
                id,
                Some(Control { seq: isn, ack: seq_add_spec(seg.seq, 1), flags: SYN_ACK }),
            ),
    {
        let ghost old_sockets = self.table.sockets@;
        let mut listener = self.table.take_at(li);
        let lid = listener.id;
        listener.backlog.push(id);
        assert(!self.table.holds(lid)) by {
            if self.table.holds(lid) {
                let j = choose|j: int| 0 <= j < self.table.sockets@.len() && self.table.sockets@[j].id == lid;
                if j < li {
                    assert(old_sockets[j].id == lid);
                } else {
                    assert(old_sockets[j + 1].id == lid);
                }
            }
        }
        let ghost l2 = listener;
        self.table.put_back(li, listener, lid);
        assert(self.table.sockets@ =~= old_sockets.update(li as int, l2));
        let empty: Vec<u8> = Vec::new();
        assert(empty@ =~= seq![]);
        let ack = seq_add(seg.seq, 1);
        let bytes = build_segment(id, isn, ack, SYN_ACK, empty);
        let mut child = Socket::new(id, TcpStatus::SynRcvd);
        child.send_param = SendParam { initial_seq: isn, unacked_seq: isn, next: seq_add(isn, 1), window: seg.window };
        child.recv_param = RecvParam { initial_seq: seg.seq, next: ack, window: WINDOW };
        child.parent = Some(lid);
        child.retransmission_queue.push(
            RetransmissionEntry {
                segment: copy_bytes(&bytes),
                dst_addr: id.remote_addr,
                seq: isn,
                len: 1,
                sent_at: now,
                attempts: 0,
            },
        );
        assert(!self.table.holds(id)) by {
            if self.table.holds(id) {
                let j = choose|j: int| 0 <= j < self.table.sockets@.len() && self.table.sockets@[j].id == id;
                assert(old_sockets[j].id == id || j == li);
            }
        }
        let _ = self.table.insert(child);
        let mut r: Vec<Outgoing> = Vec::new();
        r.push(Outgoing { dst_addr: id.remote_addr, bytes });
        assert(outgoing_view(r@) =~= replies_view(id, Some(Control { seq: isn, ack, flags: SYN_ACK })));
        r
    }

    /// Routes a parsed segment from `src` to `dst` to the connection it
    /// belongs to. `isn` is the initial sequence number a passive open uses.
    pub fn dispatch(&mut self, src: u32, dst: u32, seg: &Segment, isn: u32, now: u64) -> (r: Vec<Outgoing>)
        requires
            old(self).wf(),
            seg.payload@.len() <= MAX_SEGMENT_LEN,
        ensures
            final(self).wf(),
            dispatched(*old(self), *final(self), src, dst, *seg, isn, now, outgoing_view(r@)),
    {
        let id = SockID {
            local_addr: dst,
            remote_addr: src,
            local_port: seg.dst_port,
            remote_port: seg.src_port,
        };
        let ghost a = self.table.sockets@;
        let ghost ev0 = self.events;
        match self.table.find(id) {
            Some(i) => {
                if self.table.sockets[i].status == TcpStatus::SynSent {
                    let r = self.step_syn_sent(i, seg);
                    assert(0 <= i < a.len() && a[i as int].id == id && (a[i as int].status == TcpStatus::SynSent
                        ==> exists|t: Socket, c: Option<Control>, evs: Seq<TCPEventKind>|
                        syn_sent_step(a[i as int], t, *seg, c, evs) && self.table.sockets@ == a.update(i as int, t)
                            && outgoing_view(r@) == replies_view(id, c) && forall|e: TCPEvent|
                            self.events.has(e) <==> (ev0.has(e) || raised(id, a[i as int].parent, evs, e))));
                    assert(to_connection(a, self.table.sockets@, ev0, self.events, id, *seg, outgoing_view(r@), now));
                    r
                } else {
                    let r = self.step_connection(i, seg, now);
                    assert(0 <= i < a.len() && a[i as int].id == id && (a[i as int].status != TcpStatus::SynSent
                        ==> stepped(a, self.table.sockets@, i as int, *seg, now) && outgoing_view(r@)
                        == replies_view(id, reply_spec(a[i as int], *seg)) && forall|e: TCPEvent|
                        self.events.has(e) <==> (ev0.has(e) || raised(id, a[i as int].parent, events_spec(a[i as int], *seg), e))));
                    assert(to_connection(a, self.table.sockets@, ev0, self.events, id, *seg, outgoing_view(r@), now));
                    r
                }
            },
            None => {
                let lid = SockID {
                    local_addr: dst,
                    remote_addr: WILDCARD_ADDR,
                    local_port: seg.dst_port,
                    remote_port: WILDCARD_PORT,
                };
                match self.table.find(lid) {
                    Some(li) => {
                        if self.table.sockets[li].status == TcpStatus::Listen && flag_set(seg.flags, SYN)
                            && !flag_set(seg.flags, ACK) {
                            let r = self.passive_open(li, id, seg, isn, now);
                            assert(0 <= li < a.len() && a[li as int].id == listening_id(id));
                            assert(to_listener(a, self.table.sockets@, id, *seg, isn, now, outgoing_view(r@)));
                            r
                        } else {
                            assert(0 <= li < a.len() && a[li as int].id == listening_id(id));
                            let r: Vec<Outgoing> = Vec::new();
                            assert(bare_syn(*seg) ==> to_listener(a, self.table.sockets@, id, *seg, isn, now, outgoing_view(r@)));
                            r
                        }
                    },
                    None => Vec::new(),
                }
            },
        }
    }

    /// The receive path for one datagram from `src` to `dst`: a segment
    /// whose checksum fails, or that does not parse, is dropped without a
    /// trace; any other goes to its connection.
    pub fn receive_datagram(&mut self, src: u32, dst: u32, bytes: &Vec<u8>, isn: u32, now: u64) -> (r: Vec<Outgoing>)
        requires
            old(self).wf(),
        ensures
            final(self).wf(),
            !checksum_ok(src, dst, bytes@) ==> final(self).table.sockets@ == old(self).table.sockets@
                && final(self).events == old(self).events && r@.len() == 0,
            !parsable(bytes@) ==> final(self).table.sockets@ == old(self).table.sockets@
                && final(self).events == old(self).events && r@.len() == 0,
            checksum_ok(src, dst, bytes@) && parsable(bytes@) ==> exists|seg: Segment|
                parsed_from(bytes@, seg) && dispatched(
                    *old(self),
                    *final(self),
                    src,
                    dst,
                    seg,
                    isn,
                    now,
                    outgoing_view(r@),
                ),
    {
        if !verify_checksum(src, dst, bytes) {
            return Vec::new();
        }
        match parse(bytes) {
            Some(seg) => self.dispatch(src, dst, &seg, isn, now),
            None => Vec::new(),
        }
    }

    /// Sends `data` on connection `id`: it is split into segments of at most
    /// `MSS` bytes with consecutive sequence ranges, each queued for
    /// retransmission, and handed back in order.
    pub fn send(&mut self, id: SockID, data: &Vec<u8>, now: u64) -> (r: Result<Vec<Outgoing>, TcpError>)
        requires
            old(self).wf(),
        ensures
            final(self).wf(),
            final(self).events == old(self).events,
            !old(self).table.holds(id) ==> r == Err::<Vec<Outgoing>, TcpError>(TcpError::NotFound)
                && final(self).table == old(self).table,
            old(self).table.holds(id) ==> exists|i: int|
                0 <= i < old(self).table.sockets@.len() && #[trigger] old(self).table.sockets@[i].id == id
                    && sent(old(self).table.sockets@, final(self).table.sockets@, i, data@, r, now),
    {
        let i = match self.table.find(id) {
            Some(i) => i,
            None => {
                return Err(TcpError::NotFound);
            },
        };
        let ghost a = self.table.sockets@;
        let st = self.table.sockets[i].status;
        if st != TcpStatus::Established && st != TcpStatus::CloseWait {
            assert(sent(a, self.table.sockets@, i as int, data@, Err(TcpError::InvalidState), now));
            return Err(TcpError::InvalidState);
        }
        let in_flight = seq_distance(self.table.sockets[i].send_param.unacked_seq, self.table.sockets[i].send_param.next);
        if in_flight >= SEQ_HALF || data.len() >= (SEQ_HALF - in_flight) as usize {
            assert(sent(a, self.table.sockets@, i as int, data@, Err(TcpError::SequenceSpaceFull), now));
            return Err(TcpError::SequenceSpaceFull);
        }
        let mut sock = self.table.take_at(i);
        let ghost s0 = sock;
        let next0 = sock.send_param.next;
        let ack = sock.recv_param.next;
        let n = data.len();
        let mut out: Vec<Outgoing> = Vec::new();
        let mut off: usize = 0;
        let mut k: usize = 0;
        while off < n
            invariant
                n == data@.len() < SEQ_HALF,
                off <= n,
                off < n ==> off == k * MSS,
                off == n ==> k == chunk_count(n as int),
                k <= chunk_count(n as int),
                off < n ==> k < chunk_count(n as int),
                out@.len() == k,
                sock.id == id,
                sock.id == s0.id && sock.status == s0.status && sock.send_param == s0.send_param
                    && sock.recv_param == s0.recv_param && sock.received == s0.received
                    && sock.parent == s0.parent && sock.backlog == s0.backlog
                    && sock.quiet_since == s0.quiet_since,
                sock.retransmission_queue@.len() == s0.retransmission_queue@.len() + k,
                sock.retransmission_queue@.subrange(0, s0.retransmission_queue@.len() as int)
                    == s0.retransmission_queue@,
                forall|j: int|
                    0 <= j < k ==> chunk_sent(
                        #[trigger] sock.retransmission_queue@[s0.retransmission_queue@.len() + j],
                        out@[j],
                        id,
                        next0,
                        ack,
                        data@,
                        j,
                        now,
                    ),
            decreases n - off,
        {
            let end: usize = if n - off > MSS { off + MSS } else { n };
            let chunk = slice_copy(data, off, end);
            let seq = seq_add(next0, off as u32);
            let bytes = build_segment(id, seq, ack, DATA_FLAGS, chunk);
            let ghost q_before = sock.retransmission_queue@;
            sock.retransmission_queue.push(
                RetransmissionEntry {
                    segment: copy_bytes(&bytes),
                    dst_addr: id.remote_addr,
                    seq,
                    len: (end - off) as u32,
                    sent_at: now,
                    attempts: 0,
                },
            );
            out.push(Outgoing { dst_addr: id.remote_addr, bytes });
            assert(chunk_end(k as int, n as int) == end);
            assert forall|j: int| 0 <= j < k + 1 implies chunk_sent(
                #[trigger] sock.retransmission_queue@[s0.retransmission_queue@.len() + j],
                out@[j],
                id,
                next0,
                ack,
                data@,
                j,
                now,
            ) by {
                if j < k {
                    assert(sock.retransmission_queue@[s0.retransmission_queue@.len() + j] == q_before[s0.retransmission_queue@.len() + j]);
                }
            }
            assert(sock.retransmission_queue@.subrange(0, s0.retransmission_queue@.len() as int)
                =~= s0.retransmission_queue@) by {
                assert(q_before.subrange(0, s0.retransmission_queue@.len() as int) == s0.retransmission_queue@);
            }
            off = end;
            k += 1;
        }
        sock.send_param.advance_send(n as u32);
        proof {
            lemma_advance_le(s0.send_param.unacked_seq, next0, n as int);
        }
        assert(!self.table.holds(id)) by {
            if self.table.holds(id) {
                let j = choose|j: int| 0 <= j < self.table.sockets@.len() && self.table.sockets@[j].id == id;
                if j < i {
                    assert(a[j].id == id);
                } else {
                    assert(a[j + 1].id == id);
                }
            }
        }
        let ghost t = sock;
        self.table.put_back(i, sock, id);
        assert(self.table.sockets@ =~= a.update(i as int, t));
        assert(sent(a, self.table.sockets@, i as int, data@, Ok(out), now));
        Ok(out)
    }

    /// The periodic retransmission scan at time `now`: resends every due
    /// segment, and aborts each connection with a due segment that has used
    /// up its attempts, signalling ConnectionAborted on it.
    pub fn retransmit_due(&mut self, now: u64) -> (r: Vec<Outgoing>)
        requires
            old(self).wf(),
        ensures
            final(self).wf(),
            final(self).table.sockets@.len() == old(self).table.sockets@.len(),
            forall|i: int|
                0 <= i < old(self).table.sockets@.len() ==> retransmitted(
                    old(self).table.sockets@[i],
                    #[trigger] final(self).table.sockets@[i],
                    now,
                ),
            forall|i: int|
                0 <= i < old(self).table.sockets@.len() && exhausted(
                    #[trigger] old(self).table.sockets@[i].retransmission_queue@,
                    now,
                    RETRANSMITTING_TIMEOUT,
                ) ==> final(self).events.has(
                    TCPEvent { sock_id: old(self).table.sockets@[i].id, kind: TCPEventKind::ConnectionAborted },
                ),
            forall|e: TCPEvent| old(self).events.has(e) ==> final(self).events.has(e),
            outgoing_view(r@) == all_resends(old(self).table.sockets@, now),
    {
        let ghost a = self.table.sockets@;
        let ghost ev0 = self.events;
        let mut out: Vec<Outgoing> = Vec::new();
        let mut i: usize = 0;
        while i < self.table.len()
            invariant
                self.wf(),
                self.table.sockets@.len() == a.len(),
                i <= a.len(),
                forall|j: int| 0 <= j < i ==> retransmitted(a[j], #[trigger] self.table.sockets@[j], now),
                forall|j: int| i <= j < a.len() ==> #[trigger] self.table.sockets@[j] == a[j],
                forall|j: int|
                    0 <= j < i && exhausted(#[trigger] a[j].retransmission_queue@, now, RETRANSMITTING_TIMEOUT)
                        ==> self.events.has(TCPEvent { sock_id: a[j].id, kind: TCPEventKind::ConnectionAborted }),
                forall|e: TCPEvent| ev0.has(e) ==> self.events.has(e),
                outgoing_view(out@) == all_resends(a.subrange(0, i as int), now),
            decreases a.len() - i,
        {
            let ghost cur = self.table.sockets@;
            let mut sock = self.table.take_at(i);
            let ghost s0 = sock;
            let id = sock.id;
            let ghost before = out@;
            let ghost evb = self.events;
            match scan(&mut sock.retransmission_queue, now, RETRANSMITTING_TIMEOUT) {
                Some(o) => {
                    let mut o = o;
                    out.append(&mut o);
                    assert(outgoing_view(out@) =~= outgoing_view(before) + resends_spec(
                        s0.retransmission_queue@,
                        now,
                        RETRANSMITTING_TIMEOUT,
                    ));
                },
                None => {
                    sock.status = TcpStatus::Aborted;
                    sock.retransmission_queue = Vec::new();
                    self.events.publish(id, TCPEventKind::ConnectionAborted);
                    assert(outgoing_view(out@) =~= outgoing_view(before));
                },
            }
            assert(a.subrange(0, i + 1).drop_last() =~= a.subrange(0, i as int));
            assert(a[i as int] == s0);
            assert(!self.table.holds(id)) by {
                if self.table.holds(id) {
                    let j = choose|j: int| 0 <= j < self.table.sockets@.len() && self.table.sockets@[j].id == id;
                    if j < i {
                        assert(cur[j].id == id);
                    } else {
                        assert(cur[j + 1].id == id);
                    }
                }
            }
            let ghost t = sock;
            self.table.put_back(i, sock, id);
            assert(self.table.sockets@ =~= cur.update(i as int, t));
            i += 1;
        }
        assert(a.subrange(0, i as int) =~= a);
        out
    }

    /// Closes connection `id` from the local side. An open connection sends
    /// its FIN; one that never completed, or was aborted, leaves the table.
    pub fn close(&mut self, id: SockID, now: u64) -> (r: Result<Option<Outgoing>, TcpError>)
        requires
            old(self).wf(),
        ensures
            final(self).wf(),
            final(self).events == old(self).events,
            !old(self).table.holds(id) ==> r == Err::<Option<Outgoing>, TcpError>(TcpError::NotFound)
                && final(self).table == old(self).table,
            old(self).table.holds(id) ==> exists|i: int|
                0 <= i < old(self).table.sockets@.len() && #[trigger] old(self).table.sockets@[i].id == id
                    && closed_locally(old(self).table.sockets@, final(self).table.sockets@, i, r, now),
    {
        let i = match self.table.find(id) {
            Some(i) => i,
            None => {
                return Err(TcpError::NotFound);
            },
        };
        let ghost a = self.table.sockets@;
        let st = self.table.sockets[i].status;
        if st == TcpStatus::Listen || st == TcpStatus::SynSent || st == TcpStatus::Aborted || st
            == TcpStatus::Closed {
            let _ = self.table.take_at(i);
            assert(closed_locally(a, self.table.sockets@, i as int, Ok(None), now));
            return Ok(None);
        }
        if st != TcpStatus::Established && st != TcpStatus::CloseWait {
            assert(closed_locally(a, self.table.sockets@, i as int, Err(TcpError::InvalidState), now));
            return Err(TcpError::InvalidState);
        }
        let in_flight = seq_distance(self.table.sockets[i].send_param.unacked_seq, self.table.sockets[i].send_param.next);
        if in_flight >= SEQ_HALF - 1 {
            assert(closed_locally(a, self.table.sockets@, i as int, Err(TcpError::SequenceSpaceFull), now));
            return Err(TcpError::SequenceSpaceFull);
        }
        let mut sock = self.table.take_at(i);
        let sp = sock.send_param;
        let empty: Vec<u8> = Vec::new();
        assert(empty@ =~= seq![]);
        let bytes = build_segment(id, sp.next, sock.recv_param.next, FIN_ACK, empty);
        sock.retransmission_queue.push(
            RetransmissionEntry {
                segment: copy_bytes(&bytes),
                dst_addr: id.remote_addr,
                seq: sp.next,
                len: 1,
                sent_at: now,
                attempts: 0,
            },
        );
        sock.send_param.advance_send(1);
        proof {
            lemma_advance_le(sp.unacked_seq, sp.next, 1);
        }
        sock.status = if st == TcpStatus::Established { TcpStatus::FinWait1 } else { TcpStatus::LastAck };
        assert(!self.table.holds(id)) by {
            if self.table.holds(id) {
                let j = choose|j: int| 0 <= j < self.table.sockets@.len() && self.table.sockets@[j].id == id;
                if j < i {
                    assert(a[j].id == id);
                } else {
                    assert(a[j + 1].id == id);
                }
            }
        }
        let ghost t = sock;
        self.table.put_back(i, sock, id);
        assert(self.table.sockets@ =~= a.update(i as int, t));
        assert(t.retransmission_queue@.drop_last() =~= a[i as int].retransmission_queue@);
        let o = Outgoing { dst_addr: id.remote_addr, bytes };
        assert(closed_locally(a, self.table.sockets@, i as int, Ok(Some(o)), now));
        Ok(Some(o))
    }

    /// Takes the data delivered in sequence on `id` and not yet taken.
    pub fn receive(&mut self, id: SockID) -> (r: Result<Vec<u8>, TcpError>)
        requires
            old(self).wf(),
        ensures
            final(self).wf(),
            final(self).events == old(self).events,
            !old(self).table.holds(id) ==> r == Err::<Vec<u8>, TcpError>(TcpError::NotFound)
                && final(self).table == old(self).table,
            old(self).table.holds(id) ==> exists|i: int|
                0 <= i < old(self).table.sockets@.len() && #[trigger] old(self).table.sockets@[i].id == id
                    && (r matches Ok(d) && d@ == old(self).table.sockets@[i].received@ && exists|t: Socket|
                    final(self).table.sockets@ == old(self).table.sockets@.update(i, t) && t.received@.len() == 0
                        && t == (Socket { received: t.received, ..old(self).table.sockets@[i] })),
    {
        let i = match self.table.find(id) {
            Some(i) => i,
            None => {
                return Err(TcpError::NotFound);
            },
        };
        let ghost a = self.table.sockets@;
        let mut sock = self.table.take_at(i);
        let mut data: Vec<u8> = Vec::new();
        std::mem::swap(&mut data, &mut sock.received);
        assert(!self.table.holds(id)) by {
            if self.table.holds(id) {
                let j = choose|j: int| 0 <= j < self.table.sockets@.len() && self.table.sockets@[j].id == id;
                if j < i {
                    assert(a[j].id == id);
                } else {
                    assert(a[j + 1].id == id);
                }
            }
        }
        let ghost t = sock;
        self.table.put_back(i, sock, id);
        assert(self.table.sockets@ =~= a.update(i as int, t));
        Ok(data)
    }

    /// Removes the connections that have sat quiet in TimeWait for the whole
    /// interval by `now`.
    pub fn reap_time_wait(&mut self, now: u64)
        requires
            old(self).wf(),
        ensures
            final(self).wf(),
            final(self).events == old(self).events,
            final(self).table.sockets@ == live(old(self).table.sockets@, now),
    {
        let ghost a = self.table.sockets@;
        let mut i: usize = 0;
        let ghost mut done: int = 0;
        while i < self.table.len()
            invariant
                self.wf(),
                self.events == old(self).events,
                0 <= done <= a.len(),
                i as int == live(a.subrange(0, done), now).len(),
                self.table.sockets@ == live(a.subrange(0, done), now) + a.subrange(done, a.len() as int),
            decreases a.len() - done,
        {
            proof {
                lemma_live_step(a, done, now);
                assert(self.table.sockets@[i as int] == a[done]);
            }
            let st = self.table.sockets[i].status;
            let q = self.table.sockets[i].quiet_since;
            let ghost cur = self.table.sockets@;
            if st == TcpStatus::TimeWait && now >= q && now - q >= TIME_WAIT_INTERVAL {
                let _ = self.table.take_at(i);
                proof {
                    done = done + 1;
                }
                assert(self.table.sockets@ =~= live(a.subrange(0, done), now) + a.subrange(done, a.len() as int));
            } else {
                i += 1;
                proof {
                    done = done + 1;
                }
                assert(self.table.sockets@ =~= live(a.subrange(0, done), now) + a.subrange(done, a.len() as int));
            }
        }
        assert(a.subrange(0, done) =~= a);
        assert(self.table.sockets@ =~= live(a, now));
    }

    /// Hands out the first connection opened from listening entry `lid`
    /// whose handshake has completed, and drops it from the backlog; `None`
    /// while there is none.
    pub fn accept(&mut self, lid: SockID) -> (r: Result<Option<SockID>, TcpError>)
        requires
            old(self).wf(),
        ensures
            final(self).wf(),
            final(self).events == old(self).events,
            !old(self).table.holds(lid) ==> r == Err::<Option<SockID>, TcpError>(TcpError::NotFound)
                && final(self).table == old(self).table,
            old(self).table.holds(lid) ==> exists|i: int|
                0 <= i < old(self).table.sockets@.len() && #[trigger] old(self).table.sockets@[i].id == lid
                    && accepted(old(self).table.sockets@, final(self).table.sockets@, i, r),
    {
        let li = match self.table.find(lid) {
            Some(i) => i,
            None => {
                return Err(TcpError::NotFound);
            },
        };
        let ghost a = self.table.sockets@;
        let mut k: usize = 0;
        let n = self.table.sockets[li].backlog.len();
        while k < n
            invariant
                self.table.sockets@ == a,
                old(self).table.sockets@ == a,
                old(self).table.holds(lid),
                self.events == old(self).events,
                self.wf(),
                li < a.len(),
                a[li as int].id == lid,
                n == a[li as int].backlog@.len(),
                k <= n,
                forall|j: int| 0 <= j < k ==> !completed_in(a, #[trigger] a[li as int].backlog@[j]),
            decreases n - k,
        {
            let c = self.table.sockets[li].backlog[k];
            match self.table.find(c) {
                Some(ci) => {
                    if synchronized_exec(self.table.sockets[ci].status) {
                        let mut listener = self.table.take_at(li);
                        let ghost l0 = listener;
                        listener.backlog.remove(k);
                        assert(!self.table.holds(lid)) by {
                            if self.table.holds(lid) {
                                let j = choose|j: int| 0 <= j < self.table.sockets@.len() && self.table.sockets@[j].id == lid;
                                if j < li {
                                    assert(a[j].id == lid);
                                } else {
                                    assert(a[j + 1].id == lid);
                                }
                            }
                        }
                        let ghost t = listener;
                        self.table.put_back(li, listener, lid);
                        assert(self.table.sockets@ =~= a.update(li as int, t));
                        assert(completed_in(a, c));
                        assert(accepted(a, self.table.sockets@, li as int, Ok(Some(c))));
                        return Ok(Some(c));
                    }
                    assert(!completed_in(a, c)) by {
                        if completed_in(a, c) {
                            let j = choose|j: int| 0 <= j < a.len() && #[trigger] a[j].id == c && synchronized(a[j].status);
                            assert(j == ci as int);
                        }
                    }
                },
                None => {},
            }
            k += 1;
        }
        assert(accepted(a, self.table.sockets@, li as int, Ok(None)));
        Ok(None)
    }

    /// The receive path with a random initial sequence number, from
    /// `1..2^31`, for a connection that the datagram may open passively.
    pub fn handle_datagram(&mut self, src: u32, dst: u32, bytes: &Vec<u8>, now: u64) -> (r: Vec<Outgoing>)
        requires
            old(self).wf(),
        ensures
            final(self).wf(),
            !(checksum_ok(src, dst, bytes@) && parsable(bytes@)) ==> final(self).table.sockets@
                == old(self).table.sockets@ && final(self).events == old(self).events && r@.len() == 0,
            checksum_ok(src, dst, bytes@) && parsable(bytes@) ==> exists|seg: Segment, isn: u32|
                1 <= isn < SEQ_HALF && parsed_from(bytes@, seg) && dispatched(
                    *old(self),
                    *final(self),
                    src,
                    dst,
                    seg,
                    isn,
                    now,
                    outgoing_view(r@),
                ),
    {
        let isn = random_in(1, SEQ_HALF);
        self.receive_datagram(src, dst, bytes, isn, now)
    }

    /// Adds a listening entry on `local_addr:port`.
    pub fn listen(&mut self, local_addr: u32, port: u16) -> (r: Result<SockID, TcpError>)
        requires
            old(self).wf(),
        ensures
            final(self).wf(),
            final(self).events == old(self).events,
            old(self).table.holds(listening_id_of(local_addr, port)) ==> r == Err::<SockID, TcpError>(
                TcpError::AlreadyExists,
            ) && final(self).table.sockets@ == old(self).table.sockets@,
            !old(self).table.holds(listening_id_of(local_addr, port)) ==> r == Ok::<SockID, TcpError>(
                listening_id_of(local_addr, port),
            ) && final(self).table.sockets@.len() == old(self).table.sockets@.len() + 1
                && final(self).table.sockets@.drop_last() == old(self).table.sockets@
                && final(self).table.sockets@.last().id == listening_id_of(local_addr, port)
                && final(self).table.sockets@.last().status == TcpStatus::Listen
                && final(self).table.sockets@.last().backlog@.len() == 0,
    {
        let id = SockID { local_addr, remote_addr: WILDCARD_ADDR, local_port: port, remote_port: WILDCARD_PORT };
        let mut sock = Socket::new(id, TcpStatus::Listen);
        sock.recv_param.window = WINDOW;
        let ghost before = self.table.sockets@;
        match self.table.insert(sock) {
            Ok(()) => {
                assert(self.table.sockets@.drop_last() =~= before);
                Ok(id)
            },
            Err(TableError::AlreadyExists) => Err(TcpError::AlreadyExists),
        }
    }
}

} // verus!
