//! The retransmission engine: retiring acknowledged segments and resending
//! those that timed out, up to a bound on attempts.

use vstd::prelude::*;
use crate::segment::append_bytes;
use crate::seqnum::{seq_add, seq_add_spec, seq_le, seq_le_spec};
use crate::socket::RetransmissionEntry;

verus! {

/// Seconds after which an unacknowledged segment is sent again.
pub const RETRANSMITTING_TIMEOUT: u64 = 3;

/// Attempts after which a connection is given up.
pub const MAX_TRANSMITTING: u8 = 5;

/// A segment to hand to the packet I/O facility.
#[derive(Debug)]
pub struct Outgoing {
    pub dst_addr: u32,
    pub bytes: Vec<u8>,
}

/// Whether a cumulative acknowledgment of `ack` covers all of `e`.
pub open spec fn entry_acked(e: RetransmissionEntry, ack: u32) -> bool {
    seq_le_spec(seq_add_spec(e.seq, e.len as int), ack)
}

/// The entries of `q` that an acknowledgment of `ack` leaves.
pub open spec fn retire_spec(q: Seq<RetransmissionEntry>, ack: u32) -> Seq<RetransmissionEntry> {
    q.filter(|e: RetransmissionEntry| !entry_acked(e, ack))
}

/// Whether `e` has waited `timeout` seconds or more at time `now`.
pub open spec fn is_due(e: RetransmissionEntry, now: u64, timeout: u64) -> bool {
    now as int >= e.sent_at as int + timeout as int
}

/// Whether some entry of `q` is due and has used up its attempts.
pub open spec fn exhausted(q: Seq<RetransmissionEntry>, now: u64, timeout: u64) -> bool {
    exists|i: int| 0 <= i < q.len() && is_due(q[i], now, timeout) && q[i].attempts >= MAX_TRANSMITTING
}

/// The segments that a scan of `q` at `now` sends again, with their destinations.
pub open spec fn resends_spec(q: Seq<RetransmissionEntry>, now: u64, timeout: u64) -> Seq<(u32, Seq<u8>)> {
    due_entries(q, now, timeout).map_values(|e: RetransmissionEntry| (e.dst_addr, e.segment@))
}

/// The entries of `q` that are due at `now`, in order.
pub open spec fn due_entries(q: Seq<RetransmissionEntry>, now: u64, timeout: u64) -> Seq<RetransmissionEntry> {
    q.filter(|e: RetransmissionEntry| is_due(e, now, timeout))
}

pub open spec fn outgoing_view(o: Seq<Outgoing>) -> Seq<(u32, Seq<u8>)> {
    o.map_values(|x: Outgoing| (x.dst_addr, x.bytes@))
}

/// `e` after being sent again at `now`.
pub open spec fn resent(a: RetransmissionEntry, b: RetransmissionEntry, now: u64) -> bool {
    &&& b.segment == a.segment
    &&& b.dst_addr == a.dst_addr
    &&& b.seq == a.seq
    &&& b.len == a.len
    &&& b.sent_at == now
    &&& b.attempts == a.attempts + 1
}

proof fn lemma_retire_step(s: Seq<RetransmissionEntry>, i: int, ack: u32)
    requires
        0 <= i < s.len(),
    ensures
        retire_spec(s.subrange(0, i + 1), ack) == (if !entry_acked(s[i], ack) {
            retire_spec(s.subrange(0, i), ack).push(s[i])
        } else {
            retire_spec(s.subrange(0, i), ack)
        }),
{
    reveal(Seq::filter);
    assert(s.subrange(0, i + 1).drop_last() =~= s.subrange(0, i));
}

proof fn lemma_due_step(s: Seq<RetransmissionEntry>, i: int, now: u64, timeout: u64)
    requires
        0 <= i < s.len(),
    ensures
        due_entries(s.subrange(0, i + 1), now, timeout) == (if is_due(s[i], now, timeout) {
            due_entries(s.subrange(0, i), now, timeout).push(s[i])
        } else {
            due_entries(s.subrange(0, i), now, timeout)
        }),
{
    reveal(Seq::filter);
    assert(s.subrange(0, i + 1).drop_last() =~= s.subrange(0, i));
}

proof fn lemma_resends_step(s: Seq<RetransmissionEntry>, i: int, now: u64, timeout: u64)
    requires
        0 <= i < s.len(),
    ensures
        resends_spec(s.subrange(0, i + 1), now, timeout) == (if is_due(s[i], now, timeout) {
            resends_spec(s.subrange(0, i), now, timeout).push((s[i].dst_addr, s[i].segment@))
        } else {
            resends_spec(s.subrange(0, i), now, timeout)
        }),
{
    lemma_due_step(s, i, now, timeout);
    if is_due(s[i], now, timeout) {
        assert(resends_spec(s.subrange(0, i + 1), now, timeout) =~= resends_spec(s.subrange(0, i), now, timeout).push(
            (s[i].dst_addr, s[i].segment@),
        ));
    }
}

/// Retiring from two queues one after the other retires from each.
pub proof fn lemma_retire_append(x: Seq<RetransmissionEntry>, y: Seq<RetransmissionEntry>, ack: u32)
    ensures
        retire_spec(x + y, ack) == retire_spec(x, ack) + retire_spec(y, ack),
    decreases y.len(),
{
    reveal(Seq::filter);
    if y.len() == 0 {
        assert(x + y =~= x);
        assert(retire_spec(x, ack) + retire_spec(y, ack) =~= retire_spec(x, ack));
    } else {
        assert((x + y).drop_last() =~= x + y.drop_last());
        assert((x + y).last() == y.last());
        lemma_retire_append(x, y.drop_last(), ack);
        if !entry_acked(y.last(), ack) {
            assert(retire_spec(x, ack) + retire_spec(y, ack) =~= (retire_spec(x, ack) + retire_spec(
                y.drop_last(),
                ack,
            )).push(y.last()));
        }
    }
}

/// An acknowledgment that covers every entry retires them all.
pub proof fn lemma_retire_all(q: Seq<RetransmissionEntry>, ack: u32)
    requires
        forall|j: int| 0 <= j < q.len() ==> #[trigger] entry_acked(q[j], ack),
    ensures
        retire_spec(q, ack) == Seq::<RetransmissionEntry>::empty(),
    decreases q.len(),
{
    reveal(Seq::filter);
    if q.len() == 0 {
        assert(retire_spec(q, ack) =~= Seq::<RetransmissionEntry>::empty());
    } else {
        assert(entry_acked(q[q.len() - 1], ack));
        lemma_retire_all(q.drop_last(), ack);
    }
}

/// Whether an acknowledgment of `ack` covers all of `e`.
pub fn is_acked(e: &RetransmissionEntry, ack: u32) -> (r: bool)
    ensures
        r == entry_acked(*e, ack),
{
    seq_le(seq_add(e.seq, e.len), ack)
}

/// Removes exactly the entries whose whole range lies below `ack`, keeping
/// the order of the rest.
pub fn retire_acked(q: &mut Vec<RetransmissionEntry>, ack: u32)
    ensures
        final(q)@ == retire_spec(old(q)@, ack),
{
    let ghost orig = q@;
    let mut kept: Vec<RetransmissionEntry> = Vec::new();
    let mut i: usize = 0;
    let n = q.len();
    while q.len() > 0
        invariant
            n == orig.len(),
            i + q@.len() == n,
            q@ == orig.subrange(i as int, n as int),
            kept@ == retire_spec(orig.subrange(0, i as int), ack),
        decreases q@.len(),
    {
        let e = q.remove(0);
        assert(orig[i as int] == e);
        proof {
            lemma_retire_step(orig, i as int, ack);
        }
        if !is_acked(&e, ack) {
            kept.push(e);
        }
        i += 1;
        assert(q@ =~= orig.subrange(i as int, n as int));
    }
    assert(orig.subrange(0, n as int) =~= orig);
    *q = kept;
}

/// Copies a byte buffer.
pub fn copy_bytes(b: &Vec<u8>) -> (r: Vec<u8>)
    ensures
        r@ == b@,
{
    let mut r: Vec<u8> = Vec::new();
    append_bytes(&mut r, b);
    assert(r@ =~= b@);
    r
}

/// One scan at time `now`. Where a due entry has used up its attempts, the
/// result is `None` and the queue is left for the caller to discard with the
/// connection. Otherwise every due entry is stamped `now` with one more
/// attempt, and the result lists them in order to be sent again.
pub fn scan(q: &mut Vec<RetransmissionEntry>, now: u64, timeout: u64) -> (r: Option<Vec<Outgoing>>)
    ensures
        r is None <==> exhausted(old(q)@, now, timeout),
        r is None ==> final(q)@ == old(q)@,
        r matches Some(o) ==> outgoing_view(o@) == resends_spec(old(q)@, now, timeout)
            && final(q)@.len() == old(q)@.len()
            && forall|i: int| 0 <= i < old(q)@.len() ==>
                if is_due(old(q)@[i], now, timeout) {
                    resent(old(q)@[i], final(q)@[i], now)
                } else {
                    final(q)@[i] == old(q)@[i]
                },
{
    let mut k: usize = 0;
    while k < q.len()
        invariant
            k <= q@.len(),
            forall|j: int| 0 <= j < k ==> !(is_due(q@[j], now, timeout) && q@[j].attempts >= MAX_TRANSMITTING),
        decreases q@.len() - k,
    {
        if now >= q[k].sent_at && now - q[k].sent_at >= timeout && q[k].attempts >= MAX_TRANSMITTING {
            return None;
        }
        k += 1;
    }
    let ghost orig = q@;
    let mut out: Vec<Outgoing> = Vec::new();
    let mut done: Vec<RetransmissionEntry> = Vec::new();
    let mut i: usize = 0;
    let n = q.len();
    while q.len() > 0
        invariant
            n == orig.len(),
            i + q@.len() == n,
            q@ == orig.subrange(i as int, n as int),
            outgoing_view(out@) == resends_spec(orig.subrange(0, i as int), now, timeout),
            done@.len() == i,
            forall|j: int| 0 <= j < n ==> !(is_due(orig[j], now, timeout) && orig[j].attempts >= MAX_TRANSMITTING),
            forall|j: int| 0 <= j < i ==>
                if is_due(orig[j], now, timeout) {
                    resent(orig[j], done@[j], now)
                } else {
                    done@[j] == orig[j]
                },
        decreases q@.len(),
    {
        let mut e = q.remove(0);
        let ghost e0 = e;
        assert(orig[i as int] == e);
        proof {
            lemma_resends_step(orig, i as int, now, timeout);
        }
        let ghost before = out@;
        if now >= e.sent_at && now - e.sent_at >= timeout {
            let bytes = copy_bytes(&e.segment);
            out.push(Outgoing { dst_addr: e.dst_addr, bytes });
            e.attempts = e.attempts + 1;
            e.sent_at = now;
            assert(out@ == before.push(out@.last()));
            assert(out@.last().bytes@ == e0.segment@);
            assert(outgoing_view(out@) =~= outgoing_view(before).push((e0.dst_addr, e0.segment@)));
        }
        done.push(e);
        i += 1;
        assert(q@ =~= orig.subrange(i as int, n as int));
    }
    assert(orig.subrange(0, n as int) =~= orig);
    *q = done;
    Some(out)
}

} // verus!
