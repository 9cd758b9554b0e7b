use vstd::prelude::*;
use crate::error::{DecodeError, ErrorKind, Phase};
use crate::name::{
    lemma_text_round_trip, lemma_text_truncated, name_encodable, name_to_bytes, name_wire, plain_name, read_name, text_at,
    text_bytes,
};
use crate::wire::{
    be16, get16, holds_prefix, lemma_get16_be16, lemma_prefix_slice, push_u16, read_u16,
};

verus! {

/// One entry of the question section.
#[derive(Debug)]
pub struct Question {
    /// The dotted name asked about; its case is kept as given.
    pub qname: String,
    /// The record type asked for.
    pub qtype: u16,
    /// The class asked for, almost always 1 (IN).
    pub qclass: u16,
}

/// What a question holds, as mathematical values.
pub struct QuestionView {
    pub qname: Seq<char>,
    pub qtype: u16,
    pub qclass: u16,
}

impl View for Question {
    type V = QuestionView;

    open spec fn view(&self) -> QuestionView {
        QuestionView { qname: self.qname@, qtype: self.qtype, qclass: self.qclass }
    }
}

/// The wire bytes of an encoding result.
pub open spec fn bytes_result(r: Result<Vec<u8>, ErrorKind>) -> Result<Seq<u8>, ErrorKind> {
    match r {
        Ok(v) => Ok(v@),
        Err(e) => Err(e),
    }
}

/// Encoding a question: its name, then type and class.
pub open spec fn question_encode(q: QuestionView) -> Result<Seq<u8>, ErrorKind> {
    if !name_encodable(text_bytes(q.qname)) {
        Err(ErrorKind::LabelTooLong)
    } else {
        Ok(question_wire(q))
    }
}

/// The wire form of a question whose name can be encoded.
pub open spec fn question_wire(q: QuestionView) -> Seq<u8> {
    name_wire(text_bytes(q.qname)) + be16(q.qtype) + be16(q.qclass)
}

/// A question whose name has labels of 1 to 63 bytes, or is the root.
pub open spec fn question_plain(q: QuestionView) -> bool {
    plain_name(text_bytes(q.qname))
}

/// Decoding a question at `pos`: the question and the offset just past it.
pub open spec fn question_at(buf: Seq<u8>, pos: int) -> Result<(QuestionView, int), DecodeError> {
    match text_at(buf, pos) {
        Ok((t, c)) => {
            let p = pos + c;
            if p + 4 > buf.len() {
                Err(DecodeError::at(Phase::Question, ErrorKind::TruncatedInput, p))
            } else {
                Ok((QuestionView { qname: t, qtype: get16(buf, p), qclass: get16(buf, p + 2) }, p + 4))
            }
        },
        Err(e) => Err(e),
    }
}

impl Question {
    pub fn new(qname: String, qtype: u16, qclass: u16) -> (r: Question)
        ensures
            r@ == (QuestionView { qname: qname@, qtype, qclass }),
    {
        Question { qname, qtype, qclass }
    }

    /// The wire bytes of this question; fails when a label of the name is too long.
    pub fn to_bytes(&self) -> (r: Result<Vec<u8>, ErrorKind>)
        ensures
            bytes_result(r) == question_encode(self@),
    {
        let mut out = match name_to_bytes(&self.qname) {
            Ok(v) => v,
            Err(e) => return Err(e),
        };
        push_u16(&mut out, self.qtype);
        push_u16(&mut out, self.qclass);
        assert(out@ =~= name_wire(text_bytes(self.qname@)) + be16(self.qtype) + be16(self.qclass));
        Ok(out)
    }

    /// Decodes the question at `pos` of the message `buf`, and returns it with
    /// the offset just past it.
    pub fn parse(buf: &[u8], pos: usize) -> (r: Result<(Question, usize), DecodeError>)
        ensures
            match r {
                Ok((q, e)) => question_at(buf@, pos as int) == Ok::<(QuestionView, int), DecodeError>(
                    (q@, e as int),
                ),
                Err(e) => question_at(buf@, pos as int) == Err::<(QuestionView, int), DecodeError>(e),
            },
            r matches Ok((q, e)) ==> e <= buf@.len(),
            pos <= buf@.len() ==> (r matches Err(e) ==> e.offset <= buf@.len()),
    {
        let n = buf.len();
        let (qname, c) = match read_name(buf, pos) {
            Ok(t) => t,
            Err(e) => return Err(e),
        };
        let p = pos + c;
        if n - p < 4 {
            return Err(DecodeError { phase: Phase::Question, kind: ErrorKind::TruncatedInput, offset: p });
        }
        let qtype = read_u16(buf, p);
        let qclass = read_u16(buf, p + 2);
        Ok((Question { qname, qtype, qclass }, p + 4))
    }
}

/// A question with a plain name encodes, and decoding its wire bytes gives
/// it back and ends just past them.
pub proof fn lemma_question_round_trip(q: QuestionView, buf: Seq<u8>, pos: int)
    requires
        question_plain(q),
        0 <= pos,
        pos + question_wire(q).len() <= buf.len(),
        buf.subrange(pos, pos + question_wire(q).len()) == question_wire(q),
    ensures
        question_encode(q) == Ok::<Seq<u8>, ErrorKind>(question_wire(q)),
        question_at(buf, pos) == Ok::<(QuestionView, int), DecodeError>(
            (q, pos + question_wire(q).len()),
        ),
{
    let w = question_wire(q);
    let nw = name_wire(text_bytes(q.qname));
    let m = nw.len() as int;
    let p = pos + m;
    assert(buf.subrange(pos, p) =~= w.subrange(0, m));
    assert(w.subrange(0, m) =~= nw);
    lemma_text_round_trip(q.qname, buf, pos);
    assert(buf.subrange(p, p + 2) =~= w.subrange(m, m + 2));
    assert(w.subrange(m, m + 2) =~= be16(q.qtype));
    lemma_get16_be16(buf, p, q.qtype);
    assert(buf.subrange(p + 2, p + 4) =~= w.subrange(m + 2, m + 4));
    assert(w.subrange(m + 2, m + 4) =~= be16(q.qclass));
    lemma_get16_be16(buf, p + 2, q.qclass);
}

/// A buffer that ends inside the wire form of a plain question fails to
/// decode it with `TruncatedInput`.
pub proof fn lemma_question_truncated(q: QuestionView, buf: Seq<u8>, pos: int)
    requires
        question_plain(q),
        holds_prefix(buf, pos, question_wire(q)),
        buf.len() < pos + question_wire(q).len(),
    ensures
        question_at(buf, pos) is Err,
        question_at(buf, pos)->Err_0.kind == ErrorKind::TruncatedInput,
{
    let w = question_wire(q);
    let nw = name_wire(text_bytes(q.qname));
    let m = nw.len() as int;
    if buf.len() < pos + m {
        assert(buf.subrange(pos, buf.len() as int) =~= nw.take(buf.len() - pos));
        lemma_text_truncated(q.qname, buf, pos);
    } else {
        lemma_prefix_slice(buf, pos, w, pos, pos + m);
        assert(w.subrange(0, m) =~= nw);
        lemma_text_round_trip(q.qname, buf, pos);
    }
}

} // verus!
