use vstd::prelude::*;
use crate::error::{DecodeError, ErrorKind, Phase};
use crate::wire::{be16, get16, push_u16, read_u16, lemma_get16_be16};

verus! {

/// The fixed twelve-byte header that starts every message.
#[derive(Debug, Clone, Copy, PartialEq, Eq, Structural)]
pub struct Header {
    /// Transaction identifier that pairs a response with its request.
    pub id: u16,
    /// `false` for a query, `true` for a response.
    pub qr: bool,
    /// Kind of operation; only the low four bits go on the wire.
    pub opcode: u8,
    /// Authoritative answer.
    pub aa: bool,
    /// Truncated message.
    pub tc: bool,
    /// Recursion desired.
    pub rd: bool,
    /// Recursion available.
    pub ra: bool,
    /// Response status; only the low four bits go on the wire.
    pub rcode: u8,
    /// Number of entries in the question section.
    pub qdcount: u16,
    /// Number of entries in the answer section.
    pub ancount: u16,
    /// Number of entries in the authority section.
    pub nscount: u16,
    /// Number of entries in the additional section.
    pub arcount: u16,
}

pub open spec fn bit(b: bool, weight: int) -> int {
    if b { weight } else { 0 }
}

/// The byte holding QR, OPCODE, AA, TC and RD.
pub open spec fn flags_hi(h: Header) -> u8 {
    (bit(h.qr, 128) + (h.opcode % 16) * 8 + bit(h.aa, 4) + bit(h.tc, 2) + bit(h.rd, 1)) as u8
}

/// The byte holding RA, three zero bits and RCODE.
pub open spec fn flags_lo(h: Header) -> u8 {
    (bit(h.ra, 128) + h.rcode % 16) as u8
}

/// Which number of records follows the questions.
pub open spec fn record_count(h: Header) -> int {
    h.ancount + h.nscount + h.arcount
}

/// The wire form of a header.
pub open spec fn header_wire(h: Header) -> Seq<u8> {
    be16(h.id) + seq![flags_hi(h), flags_lo(h)] + be16(h.qdcount) + be16(h.ancount) + be16(
        h.nscount,
    ) + be16(h.arcount)
}

/// The header stored in the first twelve bytes of `buf`.
pub open spec fn header_of(buf: Seq<u8>) -> Header {
    let b2 = buf[2];
    let b3 = buf[3];
    Header {
        id: get16(buf, 0),
        qr: b2 / 128 == 1,
        opcode: ((b2 / 8) % 16) as u8,
        aa: (b2 / 4) % 2 == 1,
        tc: (b2 / 2) % 2 == 1,
        rd: b2 % 2 == 1,
        ra: b3 / 128 == 1,
        rcode: (b3 % 16) as u8,
        qdcount: get16(buf, 4),
        ancount: get16(buf, 6),
        nscount: get16(buf, 8),
        arcount: get16(buf, 10),
    }
}

/// Decoding a header: the first twelve bytes, or an error if there are fewer.
pub open spec fn header_at(buf: Seq<u8>) -> Result<Header, DecodeError> {
    if buf.len() < 12 {
        Err(DecodeError::at(Phase::Header, ErrorKind::TruncatedInput, buf.len() as int))
    } else {
        Ok(header_of(buf))
    }
}

impl Header {
    /// Both four-bit fields fit in their four bits.
    pub open spec fn wf(&self) -> bool {
        self.opcode < 16 && self.rcode < 16
    }

    pub fn new(
        id: u16,
        qr: bool,
        opcode: u8,
        aa: bool,
        tc: bool,
        rd: bool,
        ra: bool,
        rcode: u8,
        qdcount: u16,
        ancount: u16,
        nscount: u16,
        arcount: u16,
    ) -> (r: Header)
        ensures
            r == (Header { id, qr, opcode, aa, tc, rd, ra, rcode, qdcount, ancount, nscount, arcount }),
    {
        Header { id, qr, opcode, aa, tc, rd, ra, rcode, qdcount, ancount, nscount, arcount }
    }

    /// The twelve wire bytes of this header.
    pub fn to_bytes(&self) -> (r: Vec<u8>)
        ensures
            r@ == header_wire(*self),
            r@.len() == 12,
    {
        let mut out: Vec<u8> = Vec::with_capacity(12);
        push_u16(&mut out, self.id);
        let mut hi: u8 = (self.opcode % 16) * 8;
        if self.qr {
            hi = hi + 128;
        }
        if self.aa {
            hi = hi + 4;
        }
        if self.tc {
            hi = hi + 2;
        }
        if self.rd {
            hi = hi + 1;
        }
        out.push(hi);
        let mut lo: u8 = self.rcode % 16;
        if self.ra {
            lo = lo + 128;
        }
        out.push(lo);
        push_u16(&mut out, self.qdcount);
        push_u16(&mut out, self.ancount);
        push_u16(&mut out, self.nscount);
        push_u16(&mut out, self.arcount);
        assert(out@ =~= header_wire(*self));
        out
    }

    /// Decodes the header at the start of `data`.
    pub fn parse(data: &[u8]) -> (r: Result<Header, DecodeError>)
        ensures
            r == header_at(data@),
    {
        if data.len() < 12 {
            return Err(DecodeError { phase: Phase::Header, kind: ErrorKind::TruncatedInput, offset: data.len() });
        }
        let b2 = data[2];
        let b3 = data[3];
        Ok(Header {
            id: read_u16(data, 0),
            qr: b2 / 128 == 1,
            opcode: (b2 / 8) % 16,
            aa: (b2 / 4) % 2 == 1,
            tc: (b2 / 2) % 2 == 1,
            rd: b2 % 2 == 1,
            ra: b3 / 128 == 1,
            rcode: b3 % 16,
            qdcount: read_u16(data, 4),
            ancount: read_u16(data, 6),
            nscount: read_u16(data, 8),
            arcount: read_u16(data, 10),
        })
    }
}

/// A well-formed header survives encoding and decoding unchanged, and
/// decoding reads exactly the bytes that encoding wrote.
pub proof fn lemma_header_round_trip(h: Header, buf: Seq<u8>)
    requires
        h.wf(),
        buf.len() >= 12,
        buf.subrange(0, 12) == header_wire(h),
    ensures
        header_at(buf) == Ok::<Header, DecodeError>(h),
{
    let w = header_wire(h);
    assert(w.len() == 12);
    assert(buf.subrange(0, 2) =~= w.subrange(0, 2));
    assert(w.subrange(0, 2) =~= be16(h.id));
    lemma_get16_be16(buf, 0, h.id);
    assert(buf.subrange(4, 6) =~= w.subrange(4, 6));
    assert(w.subrange(4, 6) =~= be16(h.qdcount));
    lemma_get16_be16(buf, 4, h.qdcount);
    assert(buf.subrange(6, 8) =~= w.subrange(6, 8));
    assert(w.subrange(6, 8) =~= be16(h.ancount));
    lemma_get16_be16(buf, 6, h.ancount);
    assert(buf.subrange(8, 10) =~= w.subrange(8, 10));
    assert(w.subrange(8, 10) =~= be16(h.nscount));
    lemma_get16_be16(buf, 8, h.nscount);
    assert(buf.subrange(10, 12) =~= w.subrange(10, 12));
    assert(w.subrange(10, 12) =~= be16(h.arcount));
    lemma_get16_be16(buf, 10, h.arcount);
    assert(buf[2] == buf.subrange(0, 12)[2]);
    assert(buf[3] == buf.subrange(0, 12)[3]);
    assert(buf[2] == flags_hi(h));
    assert(buf[3] == flags_lo(h));
    let b2 = buf[2] as int;
    let op = h.opcode as int;
    let q = bit(h.qr, 1);
    let a = bit(h.aa, 1);
    let t = bit(h.tc, 1);
    let d = bit(h.rd, 1);
    assert(b2 == q * 128 + op * 8 + a * 4 + t * 2 + d);
    assert(b2 / 128 == q && (b2 / 8) % 16 == op && (b2 / 4) % 2 == a && (b2 / 2) % 2 == t
        && b2 % 2 == d) by (nonlinear_arith)
        requires
            b2 == q * 128 + op * 8 + a * 4 + t * 2 + d,
            0 <= q <= 1,
            0 <= op < 16,
            0 <= a <= 1,
            0 <= t <= 1,
            0 <= d <= 1,
    ;
    assert(header_of(buf) =~= h);
}

} // verus!
