use vstd::prelude::*;
use crate::error::{DecodeError, ErrorKind, Phase};
use crate::name::{
    lemma_text_round_trip, lemma_text_truncated, name_encodable, name_to_bytes, name_wire, plain_name, read_name, text_at,
    text_bytes,
};
use crate::question::bytes_result;
use crate::wire::{
    be16, be32, get16, get32, holds_prefix, lemma_prefix_slice, lemma_get16_be16, lemma_get32_be32, push_u16, push_u32, read_u16,
    read_u32,
};

verus! {

/// The largest record data that its 16-bit length field can announce.
pub const MAX_RDATA_LEN: usize = 65535;

/// One resource record, of the answer, authority or additional section.
#[derive(Debug)]
pub struct Answer {
    /// The dotted name the record belongs to.
    pub name: String,
    /// The record type.
    pub rtype: u16,
    /// The record class.
    pub class: u16,
    /// How long, in seconds, the record may be cached.
    pub ttl: u32,
    /// The record data, not interpreted here.
    pub rdata: Vec<u8>,
}

/// What a resource record holds, as mathematical values.
pub struct AnswerView {
    pub name: Seq<char>,
    pub rtype: u16,
    pub class: u16,
    pub ttl: u32,
    pub rdata: Seq<u8>,
}

impl View for Answer {
    type V = AnswerView;

    open spec fn view(&self) -> AnswerView {
        AnswerView {
            name: self.name@,
            rtype: self.rtype,
            class: self.class,
            ttl: self.ttl,
            rdata: self.rdata@,
        }
    }
}

/// Encoding a resource record: name, type, class, TTL, data length and data.
pub open spec fn answer_encode(a: AnswerView) -> Result<Seq<u8>, ErrorKind> {
    if !name_encodable(text_bytes(a.name)) {
        Err(ErrorKind::LabelTooLong)
    } else if a.rdata.len() > MAX_RDATA_LEN {
        Err(ErrorKind::RdataTooLarge)
    } else {
        Ok(answer_wire(a))
    }
}

/// The wire form of a record whose name and data can be encoded.
pub open spec fn answer_wire(a: AnswerView) -> Seq<u8> {
    name_wire(text_bytes(a.name)) + be16(a.rtype) + be16(a.class) + be32(a.ttl) + be16(
        a.rdata.len() as u16,
    ) + a.rdata
}

/// A record whose name has labels of 1 to 63 bytes, or is the root, and whose
/// data fits its length field.
pub open spec fn answer_plain(a: AnswerView) -> bool {
    plain_name(text_bytes(a.name)) && a.rdata.len() <= MAX_RDATA_LEN
}

/// Decoding a resource record at `pos`: the record and the offset just past it.
pub open spec fn answer_at(buf: Seq<u8>, pos: int) -> Result<(AnswerView, int), DecodeError> {
    match text_at(buf, pos) {
        Ok((t, c)) => {
            let p = pos + c;
            if p + 10 > buf.len() {
                Err(DecodeError::at(Phase::Record, ErrorKind::TruncatedInput, p))
            } else {
                let rdlen = get16(buf, p + 8) as int;
                if p + 10 + rdlen > buf.len() {
                    Err(DecodeError::at(Phase::Record, ErrorKind::TruncatedInput, p + 8))
                } else {
                    Ok(
                        (
                            AnswerView {
                                name: t,
                                rtype: get16(buf, p),
                                class: get16(buf, p + 2),
                                ttl: get32(buf, p + 4),
                                rdata: buf.subrange(p + 10, p + 10 + rdlen),
                            },
                            p + 10 + rdlen,
                        ),
                    )
                }
            }
        },
        Err(e) => Err(e),
    }
}

impl Answer {
    pub fn new(name: String, rtype: u16, class: u16, ttl: u32, rdata: Vec<u8>) -> (r: Answer)
        ensures
            r@ == (AnswerView { name: name@, rtype, class, ttl, rdata: rdata@ }),
    {
        Answer { name, rtype, class, ttl, rdata }
    }

    /// The wire bytes of this record; fails when a label of the name is too
    /// long or the data does not fit its length field.
    pub fn to_bytes(&self) -> (r: Result<Vec<u8>, ErrorKind>)
        ensures
            bytes_result(r) == answer_encode(self@),
    {
        let mut out = match name_to_bytes(&self.name) {
            Ok(v) => v,
            Err(e) => return Err(e),
        };
        let len = self.rdata.len();
        if len > MAX_RDATA_LEN {
            return Err(ErrorKind::RdataTooLarge);
        }
        push_u16(&mut out, self.rtype);
        push_u16(&mut out, self.class);
        push_u32(&mut out, self.ttl);
        push_u16(&mut out, len as u16);
        let ghost base = out@;
        let mut i: usize = 0;
        while i < len
            invariant
                len == self.rdata@.len(),
                i <= len,
                out@ == base + self.rdata@.take(i as int),
            decreases len - i,
        {
            out.push(self.rdata[i]);
            assert(self.rdata@.take(i + 1) =~= self.rdata@.take(i as int).push(self.rdata@[i as int]));
            i = i + 1;
        }
        assert(self.rdata@.take(len as int) =~= self.rdata@);
        assert(out@ =~= answer_encode(self@)->Ok_0);
        Ok(out)
    }

    /// Decodes the resource record at `pos` of the message `buf`, and returns
    /// it with the offset just past it.
    pub fn parse(buf: &[u8], pos: usize) -> (r: Result<(Answer, usize), DecodeError>)
        ensures
            match r {
                Ok((a, e)) => answer_at(buf@, pos as int) == Ok::<(AnswerView, int), DecodeError>(
                    (a@, e as int),
                ),
                Err(e) => answer_at(buf@, pos as int) == Err::<(AnswerView, int), DecodeError>(e),
            },
            r matches Ok((a, e)) ==> e <= buf@.len(),
            pos <= buf@.len() ==> (r matches Err(e) ==> e.offset <= buf@.len()),
    {
        let n = buf.len();
        let (name, c) = match read_name(buf, pos) {
            Ok(t) => t,
            Err(e) => return Err(e),
        };
        let p = pos + c;
        if n - p < 10 {
            return Err(DecodeError { phase: Phase::Record, kind: ErrorKind::TruncatedInput, offset: p });
        }
        let rtype = read_u16(buf, p);
        let class = read_u16(buf, p + 2);
        let ttl = read_u32(buf, p + 4);
        let rdlen = read_u16(buf, p + 8) as usize;
        if n - p - 10 < rdlen {
            return Err(DecodeError { phase: Phase::Record, kind: ErrorKind::TruncatedInput, offset: p + 8 });
        }
        let start = p + 10;
        let end = start + rdlen;
        let mut rdata: Vec<u8> = Vec::with_capacity(rdlen);
        let mut k: usize = start;
        while k < end
            invariant
                start <= k <= end <= n == buf@.len(),
                rdata@ == buf@.subrange(start as int, k as int),
            decreases end - k,
        {
            rdata.push(buf[k]);
            assert(buf@.subrange(start as int, k + 1) =~= buf@.subrange(start as int, k as int).push(buf@[k as int]));
            k = k + 1;
        }
        Ok((Answer { name, rtype, class, ttl, rdata }, end))
    }
}

/// A plain record encodes, and decoding its wire bytes gives it back and
/// ends just past them.
pub proof fn lemma_answer_round_trip(a: AnswerView, buf: Seq<u8>, pos: int)
    requires
        answer_plain(a),
        0 <= pos,
        pos + answer_wire(a).len() <= buf.len(),
        buf.subrange(pos, pos + answer_wire(a).len()) == answer_wire(a),
    ensures
        answer_encode(a) == Ok::<Seq<u8>, ErrorKind>(answer_wire(a)),
        answer_at(buf, pos) == Ok::<(AnswerView, int), DecodeError>(
            (a, pos + answer_wire(a).len()),
        ),
{
    let w = answer_wire(a);
    let nw = name_wire(text_bytes(a.name));
    let m = nw.len() as int;
    let p = pos + m;
    let len = a.rdata.len() as int;
    assert(buf.subrange(pos, p) =~= w.subrange(0, m));
    assert(w.subrange(0, m) =~= nw);
    lemma_text_round_trip(a.name, buf, pos);
    assert(buf.subrange(p, p + 2) =~= w.subrange(m, m + 2));
    assert(w.subrange(m, m + 2) =~= be16(a.rtype));
    lemma_get16_be16(buf, p, a.rtype);
    assert(buf.subrange(p + 2, p + 4) =~= w.subrange(m + 2, m + 4));
    assert(w.subrange(m + 2, m + 4) =~= be16(a.class));
    lemma_get16_be16(buf, p + 2, a.class);
    assert(buf.subrange(p + 4, p + 8) =~= w.subrange(m + 4, m + 8));
    assert(w.subrange(m + 4, m + 8) =~= be32(a.ttl));
    lemma_get32_be32(buf, p + 4, a.ttl);
    assert(buf.subrange(p + 8, p + 10) =~= w.subrange(m + 8, m + 10));
    assert(w.subrange(m + 8, m + 10) =~= be16(len as u16));
    lemma_get16_be16(buf, p + 8, len as u16);
    assert(buf.subrange(p + 10, p + 10 + len) =~= w.subrange(m + 10, m + 10 + len));
    assert(w.subrange(m + 10, m + 10 + len) =~= a.rdata);
}

/// A buffer that ends inside the wire form of a plain record fails to decode
/// it with `TruncatedInput`.
pub proof fn lemma_answer_truncated(a: AnswerView, buf: Seq<u8>, pos: int)
    requires
        answer_plain(a),
        holds_prefix(buf, pos, answer_wire(a)),
        buf.len() < pos + answer_wire(a).len(),
    ensures
        answer_at(buf, pos) is Err,
        answer_at(buf, pos)->Err_0.kind == ErrorKind::TruncatedInput,
{
    let w = answer_wire(a);
    let nw = name_wire(text_bytes(a.name));
    let m = nw.len() as int;
    let p = pos + m;
    let len = a.rdata.len() as int;
    if buf.len() < p {
        assert(buf.subrange(pos, buf.len() as int) =~= nw.take(buf.len() - pos));
        lemma_text_truncated(a.name, buf, pos);
    } else {
        lemma_prefix_slice(buf, pos, w, pos, p);
        assert(w.subrange(0, m) =~= nw);
        lemma_text_round_trip(a.name, buf, pos);
        if p + 10 <= buf.len() {
            lemma_prefix_slice(buf, pos, w, p + 8, p + 10);
            assert(w.subrange(m + 8, m + 10) =~= be16(len as u16));
            lemma_get16_be16(buf, p + 8, len as u16);
        }
    }
}

} // verus!
