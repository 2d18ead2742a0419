//! The TCP segment wire format and its checksum over the IPv4 pseudo-header.

use vstd::prelude::*;

verus! {

pub const FIN: u8 = 0x01;
pub const SYN: u8 = 0x02;
pub const RST: u8 = 0x04;
pub const PSH: u8 = 0x08;
pub const ACK: u8 = 0x10;

/// Length of a header without options.
pub const HEADER_LEN: usize = 20;

/// Largest segment that fits an IPv4 length field after its own header.
pub const MAX_SEGMENT_LEN: usize = 65515;

/// IP protocol number of TCP.
pub const PROTO_TCP: u8 = 6;

/// Index of the checksum field among the 16-bit words of pseudo-header and
/// segment together (byte 16 of the segment, after 12 bytes of pseudo-header).
pub const CHECKSUM_WORD: usize = 14;

/// A parsed segment. Options, when present, are not kept.
pub struct Segment {
    pub src_port: u16,
    pub dst_port: u16,
    pub seq: u32,
    pub ack: u32,
    pub flags: u8,
    pub window: u16,
    pub payload: Vec<u8>,
}

/// The fixed fields of a segment.
#[derive(Clone, Copy, Debug, PartialEq, Eq, Structural)]
pub struct Header {
    pub src_port: u16,
    pub dst_port: u16,
    pub seq: u32,
    pub ack: u32,
    pub flags: u8,
    pub window: u16,
}

impl Segment {
    pub open spec fn header(self) -> Header {
        Header {
            src_port: self.src_port,
            dst_port: self.dst_port,
            seq: self.seq,
            ack: self.ack,
            flags: self.flags,
            window: self.window,
        }
    }
}

pub open spec fn has_flag(flags: u8, f: u8) -> bool {
    flags & f != 0
}

pub fn flag_set(flags: u8, f: u8) -> (r: bool)
    ensures
        r == has_flag(flags, f),
{
    flags & f != 0
}

/// Big-endian 16-bit value at byte `i`.
pub open spec fn be16(b: Seq<u8>, i: int) -> int {
    b[i] as int * 256 + b[i + 1] as int
}

/// Big-endian 32-bit value at byte `i`.
pub open spec fn be32(b: Seq<u8>, i: int) -> int {
    be16(b, i) * 65536 + be16(b, i + 2)
}

pub open spec fn bytes16(v: u16) -> Seq<u8> {
    seq![(v / 256) as u8, (v % 256) as u8]
}

pub open spec fn bytes32(v: u32) -> Seq<u8> {
    bytes16((v / 65536) as u16) + bytes16((v % 65536) as u16)
}

/// The header without options, with `csum` in the checksum field.
pub open spec fn header_bytes(s: Header, csum: u16) -> Seq<u8> {
    bytes16(s.src_port) + bytes16(s.dst_port) + bytes32(s.seq) + bytes32(s.ack) + seq![
        0x50u8,
        s.flags,
    ] + bytes16(s.window) + bytes16(csum) + bytes16(0)
}

/// The IPv4 pseudo-header of a segment of `len` bytes.
pub open spec fn pseudo_header(src: u32, dst: u32, len: u16) -> Seq<u8> {
    bytes32(src) + bytes32(dst) + seq![0u8, PROTO_TCP] + bytes16(len)
}

/// The one's complement checksum of the 16-bit words of `data`, the word at
/// index `skipword` left out.
pub uninterp spec fn internet_checksum(data: Seq<u8>, skipword: usize) -> u16;

/// `seg` with its checksum field cleared.
pub open spec fn cleared(seg: Seq<u8>) -> Seq<u8> {
    seg.update(16, 0u8).update(17, 0u8)
}

/// The checksum a segment from `src` to `dst` carries.
pub open spec fn segment_checksum(src: u32, dst: u32, seg: Seq<u8>) -> u16 {
    internet_checksum(pseudo_header(src, dst, seg.len() as u16) + cleared(seg), CHECKSUM_WORD)
}

/// Relies on pnet::util::checksum: the one's complement sum of the
/// big-endian words of `data`, one word skipped. Its 32-bit running sum stays
/// clear of overflow for inputs of at most 2^17 bytes.
#[verifier::external_body]
fn ones_complement_checksum(data: &Vec<u8>, skipword: usize) -> (r: u16)
    requires
        data.len() <= 0x20000,
    ensures
        r == internet_checksum(data@, skipword),
{
    pnet::util::checksum(data.as_slice(), skipword)
}

fn push16(v: &mut Vec<u8>, x: u16)
    ensures
        final(v)@ == old(v)@ + bytes16(x),
{
    v.push((x / 256) as u8);
    v.push((x % 256) as u8);
    assert(final(v)@ =~= old(v)@ + bytes16(x));
}

fn push32(v: &mut Vec<u8>, x: u32)
    ensures
        final(v)@ == old(v)@ + bytes32(x),
{
    push16(v, (x / 65536) as u16);
    push16(v, (x % 65536) as u16);
    assert(final(v)@ =~= old(v)@ + bytes32(x));
}

/// Appends the bytes of `src` to `v`.
pub fn append_bytes(v: &mut Vec<u8>, src: &Vec<u8>)
    ensures
        final(v)@ == old(v)@ + src@,
{
    let mut i: usize = 0;
    while i < src.len()
        invariant
            i <= src.len(),
            v@ == old(v)@ + src@.subrange(0, i as int),
        decreases src.len() - i,
    {
        v.push(src[i]);
        i += 1;
        assert(v@ =~= old(v)@ + src@.subrange(0, i as int));
    }
    assert(src@.subrange(0, i as int) =~= src@);
}

pub(crate) fn header_with(s: &Segment, csum: u16) -> (r: Vec<u8>)
    ensures
        r@ == header_bytes(s.header(), csum),
{
    let mut v: Vec<u8> = Vec::new();
    push16(&mut v, s.src_port);
    push16(&mut v, s.dst_port);
    push32(&mut v, s.seq);
    push32(&mut v, s.ack);
    v.push(0x50u8);
    v.push(s.flags);
    push16(&mut v, s.window);
    push16(&mut v, csum);
    push16(&mut v, 0);
    assert(v@ =~= header_bytes(s.header(), csum));
    v
}

/// The checksum of `seg` (its checksum field left out) as sent from `src` to `dst`.
pub fn compute_checksum(src: u32, dst: u32, seg: &Vec<u8>) -> (r: u16)
    requires
        HEADER_LEN <= seg.len() <= MAX_SEGMENT_LEN,
    ensures
        r == segment_checksum(src, dst, seg@),
{
    let mut data: Vec<u8> = Vec::new();
    push32(&mut data, src);
    push32(&mut data, dst);
    data.push(0u8);
    data.push(PROTO_TCP);
    push16(&mut data, seg.len() as u16);
    assert(data@ =~= pseudo_header(src, dst, seg.len() as u16));
    append_bytes(&mut data, seg);
    data.set(28, 0u8);
    data.set(29, 0u8);
    assert(data@ =~= pseudo_header(src, dst, seg.len() as u16) + cleared(seg@));
    ones_complement_checksum(&data, CHECKSUM_WORD)
}

/// Whether the checksum field of `seg` matches its contents.
pub open spec fn checksum_ok(src: u32, dst: u32, seg: Seq<u8>) -> bool {
    HEADER_LEN <= seg.len() <= MAX_SEGMENT_LEN && be16(seg, 16) == segment_checksum(src, dst, seg)
}

/// Validates the checksum of a raw segment sent from `src` to `dst`.
pub fn verify_checksum(src: u32, dst: u32, seg: &Vec<u8>) -> (r: bool)
    ensures
        r == checksum_ok(src, dst, seg@),
{
    if seg.len() < HEADER_LEN || seg.len() > MAX_SEGMENT_LEN {
        return false;
    }
    let stored: u16 = seg[16] as u16 * 256 + seg[17] as u16;
    stored == compute_checksum(src, dst, seg)
}

/// The bytes of `s` on the wire, with the checksum for `src` to `dst`.
pub open spec fn wire_bytes(src: u32, dst: u32, s: Segment) -> Seq<u8> {
    frame(src, dst, s.header(), s.payload@)
}

/// The bytes on the wire of a segment with header `h` and payload `p`.
pub open spec fn frame(src: u32, dst: u32, h: Header, p: Seq<u8>) -> Seq<u8> {
    header_bytes(h, segment_checksum(src, dst, header_bytes(h, 0) + p)) + p
}

/// What `encode` writes, `parse` reads back field for field, and its
/// checksum validates at the receiving end.
pub proof fn lemma_wire_round_trip(src: u32, dst: u32, s: Segment)
    requires
        s.payload.len() <= MAX_SEGMENT_LEN - HEADER_LEN,
    ensures
        parsable(wire_bytes(src, dst, s)),
        parsed_from(wire_bytes(src, dst, s), s),
        checksum_ok(src, dst, wire_bytes(src, dst, s)),
{
    let w = wire_bytes(src, dst, s);
    let z = header_bytes(s.header(), 0) + s.payload@;
    let c = segment_checksum(src, dst, z);
    assert(cleared(w) =~= cleared(z));
    assert(w.subrange(20, w.len() as int) =~= s.payload@);
    assert(be32(w, 4) == s.seq as int);
    assert(be32(w, 8) == s.ack as int);
}

/// Encodes `s` as a segment from `src` to `dst`, checksum filled in.
pub fn encode(src: u32, dst: u32, s: &Segment) -> (r: Vec<u8>)
    requires
        s.payload.len() <= MAX_SEGMENT_LEN - HEADER_LEN,
    ensures
        r@ == wire_bytes(src, dst, *s),
{
    let mut unsummed = header_with(s, 0);
    append_bytes(&mut unsummed, &s.payload);
    let csum = compute_checksum(src, dst, &unsummed);
    let mut r = header_with(s, csum);
    append_bytes(&mut r, &s.payload);
    r
}

/// Header length in bytes given by the data-offset field.
pub open spec fn data_offset(b: Seq<u8>) -> int {
    (b[12] / 16) as int * 4
}

/// Whether `b` holds a whole segment header.
pub open spec fn parsable(b: Seq<u8>) -> bool {
    b.len() >= HEADER_LEN && HEADER_LEN <= data_offset(b) <= b.len()
}

/// Whether `s` holds the fields that `b` carries.
pub open spec fn parsed_from(b: Seq<u8>, s: Segment) -> bool {
    &&& s.src_port as int == be16(b, 0)
    &&& s.dst_port as int == be16(b, 2)
    &&& s.seq as int == be32(b, 4)
    &&& s.ack as int == be32(b, 8)
    &&& s.flags == b[13]
    &&& s.window as int == be16(b, 14)
    &&& s.payload@ == b.subrange(data_offset(b), b.len() as int)
}

fn read16(b: &Vec<u8>, i: usize) -> (r: u16)
    requires
        i + 1 < b.len(),
    ensures
        r as int == be16(b@, i as int),
{
    b[i] as u16 * 256 + b[i + 1] as u16
}

fn read32(b: &Vec<u8>, i: usize) -> (r: u32)
    requires
        i + 3 < b.len(),
    ensures
        r as int == be32(b@, i as int),
{
    read16(b, i) as u32 * 65536 + read16(b, i + 2) as u32
}

/// Parses a raw segment; `None` where it is shorter than its header.
pub fn parse(b: &Vec<u8>) -> (r: Option<Segment>)
    ensures
        r is None <==> !parsable(b@),
        r matches Some(s) ==> parsed_from(b@, s),
{
    if b.len() < HEADER_LEN {
        return None;
    }
    let off: usize = (b[12] / 16) as usize * 4;
    if off < HEADER_LEN || off > b.len() {
        return None;
    }
    let mut payload: Vec<u8> = Vec::new();
    let mut i: usize = off;
    while i < b.len()
        invariant
            off <= i <= b.len(),
            payload@ == b@.subrange(off as int, i as int),
        decreases b.len() - i,
    {
        payload.push(b[i]);
        i += 1;
        assert(payload@ =~= b@.subrange(off as int, i as int));
    }
    Some(
        Segment {
            src_port: read16(b, 0),
            dst_port: read16(b, 2),
            seq: read32(b, 4),
            ack: read32(b, 8),
            flags: b[13],
            window: read16(b, 14),
            payload,
        },
    )
}

} // verus!
