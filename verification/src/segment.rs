//! Segments and their wire format.
//!
//! A segment is encoded as one flag byte (SYN = bit 7, ACK = bit 6,
//! FIN = bit 5), the sequence number and the acknowledgement number as
//! big-endian 32-bit integers, and then the payload.

use vstd::prelude::*;
use vstd::slice::slice_subrange;
use vstd::slice::slice_to_vec;

verus! {

/// The kinds of segments the protocol exchanges.
#[derive(PartialEq, Eq, Structural, Debug, Copy, Clone)]
pub enum Kind {
    Syn,
    SynAck,
    Ack,
    Fin,
}

/// The flags (SYN, ACK, FIN) that a kind of segment carries.
pub open spec fn kind_flags(kind: Kind) -> (bool, bool, bool) {
    match kind {
        Kind::Syn => (true, false, false),
        Kind::SynAck => (true, true, false),
        Kind::Ack => (false, true, false),
        Kind::Fin => (false, false, true),
    }
}

/// The kind that a combination of flags spells, if any.
pub open spec fn flags_kind(syn: bool, ack: bool, fin: bool) -> Option<Kind> {
    if syn && !ack && !fin {
        Some(Kind::Syn)
    } else if syn && ack && !fin {
        Some(Kind::SynAck)
    } else if !syn && ack && !fin {
        Some(Kind::Ack)
    } else if !syn && !ack && fin {
        Some(Kind::Fin)
    } else {
        None
    }
}

/// The kind of a segment picked from a uniformly drawn number.
pub open spec fn kind_of_sample(n: u32) -> Kind {
    if n % 4 == 0 {
        Kind::Syn
    } else if n % 4 == 1 {
        Kind::SynAck
    } else if n % 4 == 2 {
        Kind::Ack
    } else {
        Kind::Fin
    }
}

impl Kind {
    /// The flags (SYN, ACK, FIN) of this kind.
    pub fn flags(self) -> (r: (bool, bool, bool))
        ensures
            r == kind_flags(self),
    {
        match self {
            Kind::Syn => (true, false, false),
            Kind::SynAck => (true, true, false),
            Kind::Ack => (false, true, false),
            Kind::Fin => (false, false, true),
        }
    }

    /// Picks a kind from a number: each remainder modulo 4 stands for one
    /// kind, so a uniform number gives a uniform kind.
    pub fn from_sample(n: u32) -> (k: Kind)
        ensures
            k == kind_of_sample(n),
    {
        let r: u32 = n % 4;
        if r == 0 {
            Kind::Syn
        } else if r == 1 {
            Kind::SynAck
        } else if r == 2 {
            Kind::Ack
        } else {
            Kind::Fin
        }
    }

    /// A kind drawn at random, each with the same chance.
    pub fn random() -> (k: Kind)
        ensures
            exists|n: u32| k == kind_of_sample(n),
    {
        let n = random_u32();
        Kind::from_sample(n)
    }
}

/// `rand::random::<u32>()`: a number drawn from the thread-local generator.
/// Nothing is claimed of the number.
#[verifier::external_body]
fn random_u32() -> (n: u32) {
    rand::random::<u32>()
}

/// The mathematical content of a segment.
pub struct SegmentView {
    pub syn: bool,
    pub ack: bool,
    pub fin: bool,
    pub seq_num: u32,
    pub ack_num: u32,
    pub data: Seq<u8>,
}

impl SegmentView {
    /// The kind the flags of the segment spell, if any.
    pub open spec fn kind(self) -> Option<Kind> {
        flags_kind(self.syn, self.ack, self.fin)
    }

    /// How far the segment advances the sequence space: its payload length,
    /// and one for a FIN.
    pub open spec fn virtual_len(self) -> int {
        if self.kind() == Some(Kind::Fin) {
            1
        } else {
            self.data.len() as int
        }
    }
}

/// The segment of a kind, with the given numbers and payload.
pub open spec fn segment_of_kind(kind: Kind, seq_num: u32, ack_num: u32, data: Seq<u8>) -> SegmentView {
    SegmentView {
        syn: kind_flags(kind).0,
        ack: kind_flags(kind).1,
        fin: kind_flags(kind).2,
        seq_num,
        ack_num,
        data,
    }
}

/// The flag byte of a segment.
pub open spec fn flag_byte(syn: bool, ack: bool, fin: bool) -> u8 {
    ((if syn { 128int } else { 0int }) + (if ack { 64int } else { 0int }) + (if fin { 32int } else { 0int })) as u8
}

/// The four big-endian bytes of a 32-bit number.
pub open spec fn be_bytes(x: u32) -> Seq<u8> {
    seq![
        (x / 0x100_0000) as u8,
        ((x / 0x1_0000) % 0x100) as u8,
        ((x / 0x100) % 0x100) as u8,
        (x % 0x100) as u8,
    ]
}

/// The number that four big-endian bytes stand for.
pub open spec fn be_value(b: Seq<u8>) -> int {
    b[0] * 0x100_0000 + b[1] * 0x1_0000 + b[2] * 0x100 + b[3]
}

/// The header length: flag byte, sequence number, acknowledgement number.
pub open spec fn header_len() -> int {
    9
}

/// The bytes a segment is sent as.
pub open spec fn encode_spec(s: SegmentView) -> Seq<u8> {
    seq![flag_byte(s.syn, s.ack, s.fin)] + be_bytes(s.seq_num) + be_bytes(s.ack_num) + s.data
}

/// The segment that received bytes stand for: `None` when the bytes are
/// shorter than a header. Bits 4 to 0 of the flag byte are ignored.
pub open spec fn decode_spec(b: Seq<u8>) -> Option<SegmentView> {
    if b.len() >= header_len() {
        Some(
            SegmentView {
                syn: b[0] >= 128,
                ack: (b[0] / 64) % 2 == 1,
                fin: (b[0] / 32) % 2 == 1,
                seq_num: be_value(b.subrange(1, 5)) as u32,
                ack_num: be_value(b.subrange(5, 9)) as u32,
                data: b.subrange(9, b.len() as int),
            },
        )
    } else {
        None
    }
}

/// A segment of the protocol: flags, sequence number, acknowledgement
/// number and payload.
#[derive(PartialEq, Eq, Debug, Clone)]
pub struct Segment {
    syn: bool,
    ack: bool,
    fin: bool,
    seq_num: u32,
    ack_num: u32,
    data: Vec<u8>,
}

impl View for Segment {
    type V = SegmentView;

    closed spec fn view(&self) -> SegmentView {
        SegmentView {
            syn: self.syn,
            ack: self.ack,
            fin: self.fin,
            seq_num: self.seq_num,
            ack_num: self.ack_num,
            data: self.data@,
        }
    }
}

impl Segment {
    /// A segment without payload of the given kind.
    pub fn new_empty(kind: Kind, seq_num: u32, ack_num: u32) -> (s: Segment)
        ensures
            s@ == segment_of_kind(kind, seq_num, ack_num, Seq::empty()),
    {
        let (syn, ack, fin) = kind.flags();
        let empty: Vec<u8> = Vec::new();
        Self::new(syn, ack, fin, seq_num, ack_num, empty.as_slice())
    }

    /// A segment with the given flags, numbers and a copy of the payload.
    pub fn new(syn: bool, ack: bool, fin: bool, seq_num: u32, ack_num: u32, data: &[u8]) -> (s: Segment)
        ensures
            s@ == (SegmentView { syn, ack, fin, seq_num, ack_num, data: data@ }),
    {
        Segment { syn, ack, fin, seq_num, ack_num, data: slice_to_vec(data) }
    }

    /// A segment of the given kind with a copy of the payload.
    pub fn with_kind(kind: Kind, seq_num: u32, ack_num: u32, data: &[u8]) -> (s: Segment)
        ensures
            s@ == segment_of_kind(kind, seq_num, ack_num, data@),
    {
        let (syn, ack, fin) = kind.flags();
        Self::new(syn, ack, fin, seq_num, ack_num, data)
    }

    /// The kind the flags spell, `None` for a combination no kind has.
    pub fn kind(&self) -> (k: Option<Kind>)
        ensures
            k == self@.kind(),
    {
        if self.syn && !self.ack && !self.fin {
            Some(Kind::Syn)
        } else if self.syn && self.ack && !self.fin {
            Some(Kind::SynAck)
        } else if !self.syn && self.ack && !self.fin {
            Some(Kind::Ack)
        } else if !self.syn && !self.ack && self.fin {
            Some(Kind::Fin)
        } else {
            None
        }
    }

    pub fn seq_num(&self) -> (n: u32)
        ensures
            n == self@.seq_num,
    {
        self.seq_num
    }

    pub fn ack_num(&self) -> (n: u32)
        ensures
            n == self@.ack_num,
    {
        self.ack_num
    }

    /// A copy of this segment with another acknowledgement number.
    pub fn set_ack_num(&self, ack_num: u32) -> (s: Segment)
        ensures
            s@ == (SegmentView { ack_num, ..self@ }),
    {
        let mut new_seg = self.copy();
        new_seg.ack_num = ack_num;
        new_seg
    }

    /// A copy of this segment.
    pub fn copy(&self) -> (s: Segment)
        ensures
            s@ == self@,
    {
        Segment {
            syn: self.syn,
            ack: self.ack,
            fin: self.fin,
            seq_num: self.seq_num,
            ack_num: self.ack_num,
            data: slice_to_vec(self.data.as_slice()),
        }
    }

    pub fn data(&self) -> (d: &[u8])
        ensures
            d@ == self@.data,
    {
        self.data.as_slice()
    }

    /// The payload, taking the segment apart.
    pub fn to_data(self) -> (d: Vec<u8>)
        ensures
            d@ == self@.data,
    {
        self.data
    }

    /// The bytes this segment is sent as.
    pub fn encode(&self) -> (encoded: Vec<u8>)
        ensures
            encoded@ == encode_spec(self@),
    {
        let mut encoded: Vec<u8> = Vec::new();
        let mut first_byte: u8 = 0;
        if self.syn {
            first_byte = first_byte + 128;
        }
        if self.ack {
            first_byte = first_byte + 64;
        }
        if self.fin {
            first_byte = first_byte + 32;
        }
        encoded.push(first_byte);
        push_be_bytes(&mut encoded, self.seq_num);
        push_be_bytes(&mut encoded, self.ack_num);
        let ghost header = encoded@;
        let n = self.data.len();
        let mut i: usize = 0;
        while i < n
            invariant
                n == self.data@.len(),
                i <= n,
                encoded@ == header + self.data@.subrange(0, i as int),
            decreases n - i,
        {
            encoded.push(self.data[i]);
            assert(self.data@.subrange(0, i + 1) == self.data@.subrange(0, i as int).push(self.data@[i as int]));
            i = i + 1;
        }
        assert(self.data@.subrange(0, n as int) == self.data@);
        encoded
    }

    /// The segment that the received bytes stand for: `None` when they are
    /// shorter than the 9-byte header.
    pub fn decode(raw_data: &[u8]) -> (seg: Option<Segment>)
        ensures
            seg.is_some() == decode_spec(raw_data@).is_some(),
            seg matches Some(s) ==> s@ == decode_spec(raw_data@).unwrap(),
    {
        if raw_data.len() >= 9 {
            let first_byte = raw_data[0];
            let syn = first_byte >= 128;
            let ack = (first_byte / 64) % 2 == 1;
            let fin = (first_byte / 32) % 2 == 1;
            let seq_num = be_u32(raw_data[1], raw_data[2], raw_data[3], raw_data[4]);
            let ack_num = be_u32(raw_data[5], raw_data[6], raw_data[7], raw_data[8]);
            let data = slice_to_vec(slice_subrange(raw_data, 9, raw_data.len()));
            let seg = Segment { syn, ack, fin, seq_num, ack_num, data };
            proof {
                let b = raw_data@;
                assert(b.subrange(1, 5) =~= seq![b[1], b[2], b[3], b[4]]);
                assert(b.subrange(5, 9) =~= seq![b[5], b[6], b[7], b[8]]);
            }
            Some(seg)
        } else {
            None
        }
    }
}

/// The number four big-endian bytes stand for.
fn be_u32(b0: u8, b1: u8, b2: u8, b3: u8) -> (x: u32)
    ensures
        x == be_value(seq![b0, b1, b2, b3]),
{
    proof {
        lemma_be_value_bound(b0, b1, b2, b3);
    }
    (b0 as u32) * 0x100_0000 + (b1 as u32) * 0x1_0000 + (b2 as u32) * 0x100 + (b3 as u32)
}

/// Appends the four big-endian bytes of `x`.
fn push_be_bytes(v: &mut Vec<u8>, x: u32)
    ensures
        final(v)@ == old(v)@ + be_bytes(x),
{
    v.push((x / 0x100_0000) as u8);
    v.push(((x / 0x1_0000) % 0x100) as u8);
    v.push(((x / 0x100) % 0x100) as u8);
    v.push((x % 0x100) as u8);
    assert(final(v)@ =~= old(v)@ + be_bytes(x));
}

proof fn lemma_be_value_bound(b0: u8, b1: u8, b2: u8, b3: u8)
    ensures
        0 <= be_value(seq![b0, b1, b2, b3]) <= u32::MAX,
{
    assert(0 <= b0 * 0x100_0000 <= 255 * 0x100_0000) by (nonlinear_arith)
        requires
            0 <= b0 <= 255,
    ;
    assert(0 <= b1 * 0x1_0000 <= 255 * 0x1_0000) by (nonlinear_arith)
        requires
            0 <= b1 <= 255,
    ;
    assert(0 <= b2 * 0x100 <= 255 * 0x100) by (nonlinear_arith)
        requires
            0 <= b2 <= 255,
    ;
}


proof fn lemma_be_round_trip(x: u32)
    ensures
        be_bytes(x).len() == 4,
        be_value(be_bytes(x)) == x,
{
    let b = be_bytes(x);
    let x0 = x / 0x100_0000;
    let x1 = (x / 0x1_0000) % 0x100;
    let x2 = (x / 0x100) % 0x100;
    let x3 = x % 0x100;
    assert(x0 * 0x100_0000 + x1 * 0x1_0000 + x2 * 0x100 + x3 == x) by (nonlinear_arith)
        requires
            x0 == x / 0x100_0000,
            x1 == (x / 0x1_0000) % 0x100,
            x2 == (x / 0x100) % 0x100,
            x3 == x % 0x100,
            0 <= x <= u32::MAX,
    ;
    assert(x0 < 0x100) by (nonlinear_arith)
        requires
            x0 == x / 0x100_0000,
            0 <= x <= u32::MAX,
    ;
    assert(b[0] == x0);
    assert(b[1] == x1);
    assert(b[2] == x2);
    assert(b[3] == x3);
}

proof fn lemma_be_bytes_of_value(b: Seq<u8>)
    requires
        b.len() == 4,
    ensures
        0 <= be_value(b) <= u32::MAX,
        be_bytes(be_value(b) as u32) == b,
{
    lemma_be_value_bound(b[0], b[1], b[2], b[3]);
    assert(seq![b[0], b[1], b[2], b[3]] =~= b);
    let v = be_value(b);
    let b0 = b[0] as int;
    let b1 = b[1] as int;
    let b2 = b[2] as int;
    let b3 = b[3] as int;
    assert(v / 0x100_0000 == b0 && (v / 0x1_0000) % 0x100 == b1 && (v / 0x100) % 0x100 == b2
        && v % 0x100 == b3) by (nonlinear_arith)
        requires
            v == b0 * 0x100_0000 + b1 * 0x1_0000 + b2 * 0x100 + b3,
            0 <= b0 < 0x100,
            0 <= b1 < 0x100,
            0 <= b2 < 0x100,
            0 <= b3 < 0x100,
    ;
    assert(be_bytes(v as u32) =~= b);
}

proof fn lemma_flag_byte_decodes(syn: bool, ack: bool, fin: bool)
    ensures
        (flag_byte(syn, ack, fin) >= 128) == syn,
        ((flag_byte(syn, ack, fin) / 64) % 2 == 1) == ack,
        ((flag_byte(syn, ack, fin) / 32) % 2 == 1) == fin,
        flag_byte(syn, ack, fin) % 32 == 0,
{
}

/// Decoding what a segment is encoded as gives the segment back, whatever
/// its flags, numbers and payload.
pub proof fn lemma_decode_encode(s: SegmentView)
    ensures
        decode_spec(encode_spec(s)) == Some(s),
{
    let e = encode_spec(s);
    lemma_be_round_trip(s.seq_num);
    lemma_be_round_trip(s.ack_num);
    lemma_flag_byte_decodes(s.syn, s.ack, s.fin);
    assert(e.subrange(1, 5) =~= be_bytes(s.seq_num));
    assert(e.subrange(5, 9) =~= be_bytes(s.ack_num));
    assert(e.subrange(9, e.len() as int) =~= s.data);
    let d = decode_spec(e).unwrap();
    assert(d.data =~= s.data);
}

/// Encoding a decoded segment gives the received bytes back, except that
/// the unused low bits of the flag byte come back as zero; so when they
/// were zero, the bytes come back exactly.
pub proof fn lemma_encode_decode(b: Seq<u8>)
    requires
        b.len() >= header_len(),
    ensures
        decode_spec(b) matches Some(s) && encode_spec(s) == b.update(0, (b[0] - b[0] % 32) as u8),
        b[0] % 32 == 0 ==> encode_spec(decode_spec(b).unwrap()) == b,
{
    let s = decode_spec(b).unwrap();
    lemma_be_bytes_of_value(b.subrange(1, 5));
    lemma_be_bytes_of_value(b.subrange(5, 9));
    let x = b[0];
    let q = x / 32;
    assert(0 <= q < 8);
    assert(x >= 128 <==> q >= 4);
    assert((x / 64) % 2 == (q / 2) % 2);
    assert((x / 32) % 2 == q % 2);
    assert(x - x % 32 == 32 * q);
    assert(flag_byte(x >= 128, (x / 64) % 2 == 1, (x / 32) % 2 == 1) == 32 * q) by {
        assert(q == 0 || q == 1 || q == 2 || q == 3 || q == 4 || q == 5 || q == 6 || q == 7);
    }
    assert(encode_spec(s) =~= b.update(0, (b[0] - b[0] % 32) as u8));
    if x % 32 == 0 {
        assert(b.update(0, x) =~= b);
    }
}

/// The encoding is the 9-byte header followed by the payload.
pub proof fn lemma_encode_len(s: SegmentView)
    ensures
        encode_spec(s).len() == header_len() + s.data.len(),
{
}

/// A segment made from a kind spells that kind again.
pub proof fn lemma_kind_round_trip(kind: Kind, seq_num: u32, ack_num: u32, data: Seq<u8>)
    ensures
        segment_of_kind(kind, seq_num, ack_num, data).kind() == Some(kind),
{
}

} // verus!
