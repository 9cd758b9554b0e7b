use vstd::prelude::*;
use crate::error::{DecodeError, ErrorKind};
use crate::wire::{holds_prefix, lemma_prefix_slice, lemma_prefix_tail};
use crate::header::{header_at, header_wire, lemma_header_round_trip, record_count, Header};
use crate::question::{
    bytes_result, lemma_question_round_trip, lemma_question_truncated, question_at, question_encode, question_plain,
    question_wire, Question, QuestionView,
};
use crate::record::{
    answer_at, answer_encode, answer_plain, answer_wire, lemma_answer_round_trip, lemma_answer_truncated, Answer, AnswerView,
};

verus! {

/// A whole message: a header, then questions, then resource records.
#[derive(Debug)]
pub struct Packet {
    pub header: Header,
    /// The question section, absent when the header declares no question.
    pub questions: Option<Vec<Question>>,
    /// The answer, authority and additional sections one after the other,
    /// absent when the header declares no record.
    pub answers: Option<Vec<Answer>>,
}

/// What a message holds, as mathematical values.
pub struct PacketView {
    pub header: Header,
    pub questions: Option<Seq<QuestionView>>,
    pub answers: Option<Seq<AnswerView>>,
}

pub open spec fn questions_view(v: Option<Vec<Question>>) -> Option<Seq<QuestionView>> {
    match v {
        Some(v) => Some(v@.map_values(|q: Question| q@)),
        None => None,
    }
}

pub open spec fn answers_view(v: Option<Vec<Answer>>) -> Option<Seq<AnswerView>> {
    match v {
        Some(v) => Some(v@.map_values(|a: Answer| a@)),
        None => None,
    }
}

impl View for Packet {
    type V = PacketView;

    open spec fn view(&self) -> PacketView {
        PacketView {
            header: self.header,
            questions: questions_view(self.questions),
            answers: answers_view(self.answers),
        }
    }
}

/// The entries of a section that may be absent.
pub open spec fn entries<T>(o: Option<Seq<T>>) -> Seq<T> {
    match o {
        Some(s) => s,
        None => Seq::empty(),
    }
}

pub open spec fn prefix_bytes(pre: Seq<u8>, r: Result<Seq<u8>, ErrorKind>) -> Result<Seq<u8>, ErrorKind> {
    match r {
        Ok(w) => Ok(pre + w),
        Err(e) => Err(e),
    }
}

/// Encoding questions one after the other; the first failure wins.
pub open spec fn questions_encode(s: Seq<QuestionView>) -> Result<Seq<u8>, ErrorKind>
    decreases s.len(),
{
    if s.len() == 0 {
        Ok(Seq::empty())
    } else {
        match question_encode(s[0]) {
            Ok(w) => prefix_bytes(w, questions_encode(s.drop_first())),
            Err(e) => Err(e),
        }
    }
}

/// Encoding records one after the other; the first failure wins.
pub open spec fn answers_encode(s: Seq<AnswerView>) -> Result<Seq<u8>, ErrorKind>
    decreases s.len(),
{
    if s.len() == 0 {
        Ok(Seq::empty())
    } else {
        match answer_encode(s[0]) {
            Ok(w) => prefix_bytes(w, answers_encode(s.drop_first())),
            Err(e) => Err(e),
        }
    }
}

/// Encoding a message: header, questions, records.
pub open spec fn packet_encode(p: PacketView) -> Result<Seq<u8>, ErrorKind> {
    match questions_encode(entries(p.questions)) {
        Ok(qw) => match answers_encode(entries(p.answers)) {
            Ok(aw) => Ok(header_wire(p.header) + qw + aw),
            Err(e) => Err(e),
        },
        Err(e) => Err(e),
    }
}

/// Decoding `k` questions from `pos` on: the questions and the offset past them.
pub open spec fn questions_at(buf: Seq<u8>, pos: int, k: nat) -> Result<(Seq<QuestionView>, int), DecodeError>
    decreases k,
{
    if k == 0 {
        Ok((Seq::empty(), pos))
    } else {
        match question_at(buf, pos) {
            Ok((q, p)) => match questions_at(buf, p, (k - 1) as nat) {
                Ok((rest, e)) => Ok((seq![q] + rest, e)),
                Err(e) => Err(e),
            },
            Err(e) => Err(e),
        }
    }
}

/// Decoding `k` records from `pos` on: the records and the offset past them.
pub open spec fn answers_at(buf: Seq<u8>, pos: int, k: nat) -> Result<(Seq<AnswerView>, int), DecodeError>
    decreases k,
{
    if k == 0 {
        Ok((Seq::empty(), pos))
    } else {
        match answer_at(buf, pos) {
            Ok((a, p)) => match answers_at(buf, p, (k - 1) as nat) {
                Ok((rest, e)) => Ok((seq![a] + rest, e)),
                Err(e) => Err(e),
            },
            Err(e) => Err(e),
        }
    }
}

/// Decoding a message: the header, then as many questions and records as it
/// declares. A section with a count of zero is absent.
#[verifier::opaque]
pub open spec fn packet_at(buf: Seq<u8>) -> Result<PacketView, DecodeError> {
    match header_at(buf) {
        Ok(h) => match questions_at(buf, 12, h.qdcount as nat) {
            Ok((qs, p)) => match answers_at(buf, p, record_count(h) as nat) {
                Ok((rs, e)) => Ok(
                    PacketView {
                        header: h,
                        questions: if h.qdcount == 0 { None } else { Some(qs) },
                        answers: if record_count(h) == 0 { None } else { Some(rs) },
                    },
                ),
                Err(e) => Err(e),
            },
            Err(e) => Err(e),
        },
        Err(e) => Err(e),
    }
}

impl Packet {
    pub fn new(header: Header, questions: Option<Vec<Question>>, answers: Option<Vec<Answer>>) -> (r: Packet)
        ensures
            r.header == header,
            r@.questions == questions_view(questions),
            r@.answers == answers_view(answers),
    {
        Packet { header, questions, answers }
    }

    /// The wire bytes of this message, or the first error that one of its
    /// entries gives.
    pub fn to_bytes(&self) -> (r: Result<Vec<u8>, ErrorKind>)
        ensures
            bytes_result(r) == packet_encode(self@),
    {
        let mut out = self.header.to_bytes();
        let ghost hw = out@;
        let ghost qs = entries(self@.questions);
        let ghost aws = entries(self@.answers);
        match &self.questions {
            Some(v) => {
                if let Err(e) = append_questions(&mut out, v) {
                    return Err(e);
                }
            },
            None => {},
        }
        match &self.answers {
            Some(v) => {
                if let Err(e) = append_answers(&mut out, v) {
                    return Err(e);
                }
            },
            None => {},
        }
        proof {
            let qw = questions_encode(qs)->Ok_0;
            let aw = answers_encode(aws)->Ok_0;
            assert(out@ =~= hw + qw + aw);
        }
        Ok(out)
    }

    /// Decodes a whole message. Any failure aborts the decoding and says in
    /// which part and at which offset it happened.
    pub fn parse(data: &[u8]) -> (r: Result<Packet, DecodeError>)
        ensures
            match r {
                Ok(p) => packet_at(data@) == Ok::<PacketView, DecodeError>(p@),
                Err(e) => packet_at(data@) == Err::<PacketView, DecodeError>(e),
            },
            r matches Err(e) ==> e.offset <= data@.len(),
    {
        proof {
            reveal(packet_at);
        }
        let header = match Header::parse(data) {
            Ok(h) => h,
            Err(e) => return Err(e),
        };
        let (qs, p) = match parse_questions(data, 12, header.qdcount) {
            Ok(t) => t,
            Err(e) => return Err(e),
        };
        let total = header.ancount as usize + header.nscount as usize + header.arcount as usize;
        let (rs, _end) = match parse_answers(data, p, total) {
            Ok(t) => t,
            Err(e) => return Err(e),
        };
        let questions = if header.qdcount == 0 { None } else { Some(qs) };
        let answers = if total == 0 { None } else { Some(rs) };
        Ok(Packet { header, questions, answers })
    }
}

/// Decodes `k` questions from `pos` on.
fn parse_questions(buf: &[u8], pos: usize, k: u16) -> (r: Result<(Vec<Question>, usize), DecodeError>)
    ensures
        match r {
            Ok((v, e)) => questions_at(buf@, pos as int, k as nat) == Ok::<(Seq<QuestionView>, int), DecodeError>(
                (v@.map_values(|q: Question| q@), e as int),
            ),
            Err(e) => questions_at(buf@, pos as int, k as nat) == Err::<(Seq<QuestionView>, int), DecodeError>(e),
        },
        pos <= buf@.len() ==> (r matches Ok((v, e)) ==> e <= buf@.len()),
        pos <= buf@.len() ==> (r matches Err(e) ==> e.offset <= buf@.len()),
{
    let mut v: Vec<Question> = Vec::new();
    let mut p: usize = pos;
    let mut i: u16 = 0;
    assert(v@.map_values(|q: Question| q@) + questions_at(buf@, pos as int, k as nat)->Ok_0.0 =~= questions_at(buf@, pos as int, k as nat)->Ok_0.0);
    while i < k
        invariant
            i <= k,
            pos <= buf@.len() ==> p <= buf@.len(),
            match questions_at(buf@, p as int, (k - i) as nat) {
                Ok((rest, e)) => questions_at(buf@, pos as int, k as nat) == Ok::<(Seq<QuestionView>, int), DecodeError>(
                    (v@.map_values(|q: Question| q@) + rest, e),
                ),
                Err(e) => questions_at(buf@, pos as int, k as nat) == Err::<(Seq<QuestionView>, int), DecodeError>(e),
            },
        decreases k - i,
    {
        let (q, e) = match Question::parse(buf, p) {
            Ok(t) => t,
            Err(e) => return Err(e),
        };
        proof {
            let acc = v@.map_values(|q: Question| q@);
            let r = questions_at(buf@, e as int, (k - i - 1) as nat);
            assert(acc.push(q@) =~= v@.push(q).map_values(|q: Question| q@));
            if r is Ok {
                assert(acc + (seq![q@] + r->Ok_0.0) =~= acc.push(q@) + r->Ok_0.0);
            }
        }
        v.push(q);
        p = e;
        i = i + 1;
    }
    assert(v@.map_values(|q: Question| q@) + Seq::<QuestionView>::empty() =~= v@.map_values(|q: Question| q@));
    Ok((v, p))
}

/// Decodes `k` records from `pos` on.
fn parse_answers(buf: &[u8], pos: usize, k: usize) -> (r: Result<(Vec<Answer>, usize), DecodeError>)
    ensures
        match r {
            Ok((v, e)) => answers_at(buf@, pos as int, k as nat) == Ok::<(Seq<AnswerView>, int), DecodeError>(
                (v@.map_values(|a: Answer| a@), e as int),
            ),
            Err(e) => answers_at(buf@, pos as int, k as nat) == Err::<(Seq<AnswerView>, int), DecodeError>(e),
        },
        pos <= buf@.len() ==> (r matches Err(e) ==> e.offset <= buf@.len()),
{
    let mut v: Vec<Answer> = Vec::new();
    let mut p: usize = pos;
    let mut i: usize = 0;
    assert(v@.map_values(|a: Answer| a@) + answers_at(buf@, pos as int, k as nat)->Ok_0.0 =~= answers_at(buf@, pos as int, k as nat)->Ok_0.0);
    while i < k
        invariant
            i <= k,
            pos <= buf@.len() ==> p <= buf@.len(),
            match answers_at(buf@, p as int, (k - i) as nat) {
                Ok((rest, e)) => answers_at(buf@, pos as int, k as nat) == Ok::<(Seq<AnswerView>, int), DecodeError>(
                    (v@.map_values(|a: Answer| a@) + rest, e),
                ),
                Err(e) => answers_at(buf@, pos as int, k as nat) == Err::<(Seq<AnswerView>, int), DecodeError>(e),
            },
        decreases k - i,
    {
        let (a, e) = match Answer::parse(buf, p) {
            Ok(t) => t,
            Err(e) => return Err(e),
        };
        proof {
            let acc = v@.map_values(|a: Answer| a@);
            let r = answers_at(buf@, e as int, (k - i - 1) as nat);
            assert(acc.push(a@) =~= v@.push(a).map_values(|a: Answer| a@));
            if r is Ok {
                assert(acc + (seq![a@] + r->Ok_0.0) =~= acc.push(a@) + r->Ok_0.0);
            }
        }
        v.push(a);
        p = e;
        i = i + 1;
    }
    assert(v@.map_values(|a: Answer| a@) + Seq::<AnswerView>::empty() =~= v@.map_values(|a: Answer| a@));
    Ok((v, p))
}

/// Appends the wire bytes of each question in turn, stopping at the first
/// failure.
fn append_questions(out: &mut Vec<u8>, v: &Vec<Question>) -> (r: Result<(), ErrorKind>)
    ensures
        match questions_encode(v@.map_values(|q: Question| q@)) {
            Ok(w) => r is Ok && final(out)@ == old(out)@ + w,
            Err(e) => r == Err::<(), ErrorKind>(e),
        },
{
    let ghost qs = v@.map_values(|q: Question| q@);
    let ghost base = out@;
    let mut i: usize = 0;
    assert(qs.skip(0) =~= qs);
    assert(base + Seq::<u8>::empty() =~= base);
    while i < v.len()
        invariant
            qs == v@.map_values(|q: Question| q@),
            i <= v@.len(),
            prefix_bytes(base, questions_encode(qs)) == prefix_bytes(
                out@,
                questions_encode(qs.skip(i as int)),
            ),
        decreases v@.len() - i,
    {
        assert(qs.skip(i as int)[0] == qs[i as int]);
        assert(qs.skip(i as int).drop_first() =~= qs.skip(i + 1));
        let mut w = match v[i].to_bytes() {
            Ok(w) => w,
            Err(e) => {
                return Err(e);
            },
        };
        let ghost before = out@;
        let ghost wb = w@;
        out.append(&mut w);
        proof {
            let r = questions_encode(qs.skip(i + 1));
            if r is Ok {
                assert(before + (wb + r->Ok_0) =~= out@ + r->Ok_0);
            }
        }
        i = i + 1;
    }
    assert(qs.skip(i as int) =~= Seq::<QuestionView>::empty());
    assert(out@ + Seq::<u8>::empty() =~= out@);
    proof {
        let r = questions_encode(qs);
        if r is Ok {
            assert(out@ =~= base + r->Ok_0);
        }
    }
    Ok(())
}

/// Appends the wire bytes of each record in turn, stopping at the first
/// failure.
fn append_answers(out: &mut Vec<u8>, v: &Vec<Answer>) -> (r: Result<(), ErrorKind>)
    ensures
        match answers_encode(v@.map_values(|a: Answer| a@)) {
            Ok(w) => r is Ok && final(out)@ == old(out)@ + w,
            Err(e) => r == Err::<(), ErrorKind>(e),
        },
{
    let ghost rs = v@.map_values(|a: Answer| a@);
    let ghost base = out@;
    let mut i: usize = 0;
    assert(rs.skip(0) =~= rs);
    assert(base + Seq::<u8>::empty() =~= base);
    while i < v.len()
        invariant
            rs == v@.map_values(|a: Answer| a@),
            i <= v@.len(),
            prefix_bytes(base, answers_encode(rs)) == prefix_bytes(
                out@,
                answers_encode(rs.skip(i as int)),
            ),
        decreases v@.len() - i,
    {
        assert(rs.skip(i as int)[0] == rs[i as int]);
        assert(rs.skip(i as int).drop_first() =~= rs.skip(i + 1));
        let mut w = match v[i].to_bytes() {
            Ok(w) => w,
            Err(e) => {
                return Err(e);
            },
        };
        let ghost before = out@;
        let ghost wb = w@;
        out.append(&mut w);
        proof {
            let r = answers_encode(rs.skip(i + 1));
            if r is Ok {
                assert(before + (wb + r->Ok_0) =~= out@ + r->Ok_0);
            }
        }
        i = i + 1;
    }
    assert(rs.skip(i as int) =~= Seq::<AnswerView>::empty());
    assert(out@ + Seq::<u8>::empty() =~= out@);
    proof {
        let r = answers_encode(rs);
        if r is Ok {
            assert(out@ =~= base + r->Ok_0);
        }
    }
    Ok(())
}

proof fn lemma_questions_round_trip(qs: Seq<QuestionView>, buf: Seq<u8>, pos: int)
    requires
        forall|i: int| 0 <= i < qs.len() ==> question_plain(#[trigger] qs[i]),
        0 <= pos,
    ensures
        questions_encode(qs) is Ok,
        ({
            let w = questions_encode(qs)->Ok_0;
            pos + w.len() <= buf.len() && buf.subrange(pos, pos + w.len()) == w ==> questions_at(
                buf,
                pos,
                qs.len(),
            ) == Ok::<(Seq<QuestionView>, int), DecodeError>((qs, pos + w.len()))
        }),
    decreases qs.len(),
{
    if qs.len() == 0 {
        assert(qs =~= Seq::<QuestionView>::empty());
    } else {
        let q = qs[0];
        let rest = qs.drop_first();
        let w0 = question_wire(q);
        let m = w0.len() as int;
        assert forall|i: int| 0 <= i < rest.len() implies question_plain(#[trigger] rest[i]) by {
            assert(rest[i] == qs[i + 1]);
        }
        lemma_questions_round_trip(rest, buf, pos + m);
        lemma_question_encodes(q);
        let wr = questions_encode(rest)->Ok_0;
        let w = w0 + wr;
        if pos + w.len() <= buf.len() && buf.subrange(pos, pos + w.len()) == w {
            assert(buf.subrange(pos, pos + m) =~= w.subrange(0, m));
            assert(w.subrange(0, m) =~= w0);
            assert(buf.subrange(pos + m, pos + w.len()) =~= w.subrange(m, w.len() as int));
            assert(w.subrange(m, w.len() as int) =~= wr);
            lemma_question_round_trip(q, buf, pos);
            assert(seq![q] + rest =~= qs);
        }
    }
}

proof fn lemma_question_encodes(q: QuestionView)
    requires
        question_plain(q),
    ensures
        question_encode(q) == Ok::<Seq<u8>, ErrorKind>(question_wire(q)),
{
    let w = question_wire(q);
    assert(w.subrange(0, w.len() as int) =~= w);
    lemma_question_round_trip(q, w, 0);
}

proof fn lemma_answer_encodes(a: AnswerView)
    requires
        answer_plain(a),
    ensures
        answer_encode(a) == Ok::<Seq<u8>, ErrorKind>(answer_wire(a)),
{
    let w = answer_wire(a);
    assert(w.subrange(0, w.len() as int) =~= w);
    lemma_answer_round_trip(a, w, 0);
}

proof fn lemma_answers_round_trip(rs: Seq<AnswerView>, buf: Seq<u8>, pos: int)
    requires
        forall|i: int| 0 <= i < rs.len() ==> answer_plain(#[trigger] rs[i]),
        0 <= pos,
    ensures
        answers_encode(rs) is Ok,
        ({
            let w = answers_encode(rs)->Ok_0;
            pos + w.len() <= buf.len() && buf.subrange(pos, pos + w.len()) == w ==> answers_at(
                buf,
                pos,
                rs.len(),
            ) == Ok::<(Seq<AnswerView>, int), DecodeError>((rs, pos + w.len()))
        }),
    decreases rs.len(),
{
    if rs.len() == 0 {
        assert(rs =~= Seq::<AnswerView>::empty());
    } else {
        let a = rs[0];
        let rest = rs.drop_first();
        let w0 = answer_wire(a);
        let m = w0.len() as int;
        assert forall|i: int| 0 <= i < rest.len() implies answer_plain(#[trigger] rest[i]) by {
            assert(rest[i] == rs[i + 1]);
        }
        lemma_answers_round_trip(rest, buf, pos + m);
        lemma_answer_encodes(a);
        let wr = answers_encode(rest)->Ok_0;
        let w = w0 + wr;
        if pos + w.len() <= buf.len() && buf.subrange(pos, pos + w.len()) == w {
            assert(buf.subrange(pos, pos + m) =~= w.subrange(0, m));
            assert(w.subrange(0, m) =~= w0);
            assert(buf.subrange(pos + m, pos + w.len()) =~= w.subrange(m, w.len() as int));
            assert(w.subrange(m, w.len() as int) =~= wr);
            lemma_answer_round_trip(a, buf, pos);
            assert(seq![a] + rest =~= rs);
        }
    }
}

/// A message whose sections agree with the header's counts (an absent section
/// for a count of zero), whose names have labels of 1 to 63 bytes or are the
/// root, whose record data fit their length field and whose four-bit header
/// fields fit.
pub open spec fn packet_consistent(p: PacketView) -> bool {
    &&& p.header.wf()
    &&& match p.questions {
        None => p.header.qdcount == 0,
        Some(qs) => qs.len() == p.header.qdcount && qs.len() > 0 && forall|i: int|
            0 <= i < qs.len() ==> question_plain(#[trigger] qs[i]),
    }
    &&& match p.answers {
        None => record_count(p.header) == 0,
        Some(rs) => rs.len() == record_count(p.header) && rs.len() > 0 && forall|i: int|
            0 <= i < rs.len() ==> answer_plain(#[trigger] rs[i]),
    }
}

proof fn lemma_sections_round_trip(h: Header, qs: Seq<QuestionView>, rs: Seq<AnswerView>)
    requires
        h.wf(),
        qs.len() == h.qdcount,
        rs.len() == record_count(h),
        forall|i: int| 0 <= i < qs.len() ==> question_plain(#[trigger] qs[i]),
        forall|i: int| 0 <= i < rs.len() ==> answer_plain(#[trigger] rs[i]),
        questions_encode(qs) is Ok,
        answers_encode(rs) is Ok,
    ensures
        packet_at(header_wire(h) + questions_encode(qs)->Ok_0 + answers_encode(rs)->Ok_0) == Ok::<
            PacketView,
            DecodeError,
        >(
            PacketView {
                header: h,
                questions: if h.qdcount == 0 {
                    None
                } else {
                    Some(qs)
                },
                answers: if record_count(h) == 0 {
                    None
                } else {
                    Some(rs)
                },
            },
        ),
{
    let hw = header_wire(h);
    let qw = questions_encode(qs)->Ok_0;
    let aw = answers_encode(rs)->Ok_0;
    let buf = hw + qw + aw;
    let qn = qw.len() as int;
    let an = aw.len() as int;
    assert(buf.subrange(0, 12) =~= hw);
    lemma_header_round_trip(h, buf);
    assert(buf.subrange(12, 12 + qn) =~= qw);
    lemma_questions_round_trip(qs, buf, 12);
    assert(buf.subrange(12 + qn, 12 + qn + an) =~= aw);
    lemma_answers_round_trip(rs, buf, 12 + qn);
    reveal(packet_at);
}

/// Decoding the encoding of a consistent message gives the message back.
pub proof fn lemma_packet_round_trip(p: PacketView)
    requires
        packet_consistent(p),
    ensures
        packet_encode(p) is Ok,
        packet_at(packet_encode(p)->Ok_0) == Ok::<PacketView, DecodeError>(p),
{
    lemma_consistent_parts(p);
    lemma_sections_round_trip(p.header, entries(p.questions), entries(p.answers));
}

proof fn lemma_questions_truncated(qs: Seq<QuestionView>, buf: Seq<u8>, pos: int)
    requires
        forall|i: int| 0 <= i < qs.len() ==> question_plain(#[trigger] qs[i]),
        questions_encode(qs) is Ok,
        holds_prefix(buf, pos, questions_encode(qs)->Ok_0),
        buf.len() < pos + questions_encode(qs)->Ok_0.len(),
    ensures
        questions_at(buf, pos, qs.len()) is Err,
        questions_at(buf, pos, qs.len())->Err_0.kind == ErrorKind::TruncatedInput,
    decreases qs.len(),
{
    if qs.len() > 0 {
        let q = qs[0];
        let rest = qs.drop_first();
        let w0 = question_wire(q);
        let m = w0.len() as int;
        assert forall|i: int| 0 <= i < rest.len() implies question_plain(#[trigger] rest[i]) by {
            assert(rest[i] == qs[i + 1]);
        }
        lemma_question_encodes(q);
        lemma_questions_round_trip(rest, buf, pos + m);
        let wr = questions_encode(rest)->Ok_0;
        let w = w0 + wr;
        assert(questions_encode(qs)->Ok_0 == w);
        if buf.len() < pos + m {
            assert(buf.subrange(pos, buf.len() as int) =~= w0.take(buf.len() - pos));
            lemma_question_truncated(q, buf, pos);
        } else {
            lemma_prefix_slice(buf, pos, w, pos, pos + m);
            assert(w.subrange(0, m) =~= w0);
            lemma_question_round_trip(q, buf, pos);
            lemma_prefix_tail(buf, pos, w, pos + m);
            assert(w.subrange(m, w.len() as int) =~= wr);
            lemma_questions_truncated(rest, buf, pos + m);
        }
    }
}

proof fn lemma_answers_truncated(rs: Seq<AnswerView>, buf: Seq<u8>, pos: int)
    requires
        forall|i: int| 0 <= i < rs.len() ==> answer_plain(#[trigger] rs[i]),
        answers_encode(rs) is Ok,
        holds_prefix(buf, pos, answers_encode(rs)->Ok_0),
        buf.len() < pos + answers_encode(rs)->Ok_0.len(),
    ensures
        answers_at(buf, pos, rs.len()) is Err,
        answers_at(buf, pos, rs.len())->Err_0.kind == ErrorKind::TruncatedInput,
    decreases rs.len(),
{
    if rs.len() > 0 {
        let a = rs[0];
        let rest = rs.drop_first();
        let w0 = answer_wire(a);
        let m = w0.len() as int;
        assert forall|i: int| 0 <= i < rest.len() implies answer_plain(#[trigger] rest[i]) by {
            assert(rest[i] == rs[i + 1]);
        }
        lemma_answer_encodes(a);
        lemma_answers_round_trip(rest, buf, pos + m);
        let wr = answers_encode(rest)->Ok_0;
        let w = w0 + wr;
        assert(answers_encode(rs)->Ok_0 == w);
        if buf.len() < pos + m {
            assert(buf.subrange(pos, buf.len() as int) =~= w0.take(buf.len() - pos));
            lemma_answer_truncated(a, buf, pos);
        } else {
            lemma_prefix_slice(buf, pos, w, pos, pos + m);
            assert(w.subrange(0, m) =~= w0);
            lemma_answer_round_trip(a, buf, pos);
            lemma_prefix_tail(buf, pos, w, pos + m);
            assert(w.subrange(m, w.len() as int) =~= wr);
            lemma_answers_truncated(rest, buf, pos + m);
        }
    }
}

/// The facts of `packet_consistent` that the proofs below use, one by one.
proof fn lemma_consistent_parts(p: PacketView)
    requires
        packet_consistent(p),
    ensures
        p.header.wf(),
        entries(p.questions).len() == p.header.qdcount,
        entries(p.answers).len() == record_count(p.header),
        forall|i: int|
            0 <= i < entries(p.questions).len() ==> question_plain(#[trigger] entries(p.questions)[i]),
        forall|i: int|
            0 <= i < entries(p.answers).len() ==> answer_plain(#[trigger] entries(p.answers)[i]),
        questions_encode(entries(p.questions)) is Ok,
        answers_encode(entries(p.answers)) is Ok,
        packet_encode(p) == Ok::<Seq<u8>, ErrorKind>(
            header_wire(p.header) + questions_encode(entries(p.questions))->Ok_0 + answers_encode(
                entries(p.answers),
            )->Ok_0,
        ),
        p.questions == (if p.header.qdcount == 0 {
            None
        } else {
            Some(entries(p.questions))
        }),
        p.answers == (if record_count(p.header) == 0 {
            None
        } else {
            Some(entries(p.answers))
        }),
{
    lemma_questions_round_trip(entries(p.questions), Seq::empty(), 0);
    lemma_answers_round_trip(entries(p.answers), Seq::empty(), 0);
}

/// Decoding fails with `TruncatedInput` once the header decodes and the
/// question section does not.
proof fn lemma_packet_at_questions_fail(buf: Seq<u8>, h: Header)
    requires
        header_at(buf) == Ok::<Header, DecodeError>(h),
        questions_at(buf, 12, h.qdcount as nat) is Err,
        questions_at(buf, 12, h.qdcount as nat)->Err_0.kind == ErrorKind::TruncatedInput,
    ensures
        packet_at(buf) is Err && packet_at(buf)->Err_0.kind == ErrorKind::TruncatedInput,
{
    reveal(packet_at);
}

/// Decoding fails with `TruncatedInput` once the header and the questions
/// decode and the records do not.
proof fn lemma_packet_at_answers_fail(buf: Seq<u8>, h: Header, qs: Seq<QuestionView>, e: int)
    requires
        header_at(buf) == Ok::<Header, DecodeError>(h),
        questions_at(buf, 12, h.qdcount as nat) == Ok::<(Seq<QuestionView>, int), DecodeError>(
            (qs, e),
        ),
        answers_at(buf, e, record_count(h) as nat) is Err,
        answers_at(buf, e, record_count(h) as nat)->Err_0.kind == ErrorKind::TruncatedInput,
    ensures
        packet_at(buf) is Err && packet_at(buf)->Err_0.kind == ErrorKind::TruncatedInput,
{
    reveal(packet_at);
}

/// Decoding fails with `TruncatedInput` when the header does not fit.
proof fn lemma_packet_at_header_fail(buf: Seq<u8>)
    requires
        buf.len() < 12,
    ensures
        packet_at(buf) is Err && packet_at(buf)->Err_0.kind == ErrorKind::TruncatedInput,
{
    reveal(packet_at);
}

proof fn lemma_sections_truncated(
    h: Header,
    qs: Seq<QuestionView>,
    rs: Seq<AnswerView>,
    k: int,
)
    requires
        h.wf(),
        qs.len() == h.qdcount,
        rs.len() == record_count(h),
        forall|i: int| 0 <= i < qs.len() ==> question_plain(#[trigger] qs[i]),
        forall|i: int| 0 <= i < rs.len() ==> answer_plain(#[trigger] rs[i]),
        questions_encode(qs) is Ok,
        answers_encode(rs) is Ok,
        0 <= k < (header_wire(h) + questions_encode(qs)->Ok_0 + answers_encode(rs)->Ok_0).len(),
    ensures
        ({
            let buf = (header_wire(h) + questions_encode(qs)->Ok_0 + answers_encode(rs)->Ok_0).take(k);
            packet_at(buf) is Err && packet_at(buf)->Err_0.kind == ErrorKind::TruncatedInput
        }),
{
    let hw = header_wire(h);
    let qw = questions_encode(qs)->Ok_0;
    let aw = answers_encode(rs)->Ok_0;
    let full = hw + qw + aw;
    let qn = qw.len() as int;
    let buf = full.take(k);
    if k < 12 {
        lemma_packet_at_header_fail(buf);
    } else {
        assert(buf.subrange(0, 12) =~= hw);
        lemma_header_round_trip(h, buf);
        if k < 12 + qn {
            assert(buf.subrange(12, k) =~= qw.take(k - 12));
            lemma_questions_truncated(qs, buf, 12);
            lemma_packet_at_questions_fail(buf, h);
        } else {
            assert(buf.subrange(12, 12 + qn) =~= qw);
            lemma_questions_round_trip(qs, buf, 12);
            assert(buf.subrange(12 + qn, k) =~= aw.take(k - 12 - qn));
            lemma_answers_truncated(rs, buf, 12 + qn);
            lemma_packet_at_answers_fail(buf, h, qs, 12 + qn);
        }
    }
}

/// Every strict prefix of the encoding of a consistent message fails to
/// decode with `TruncatedInput`.
pub proof fn lemma_packet_truncated(p: PacketView, k: int)
    requires
        packet_consistent(p),
        0 <= k < packet_encode(p)->Ok_0.len(),
    ensures
        packet_at(packet_encode(p)->Ok_0.take(k)) is Err,
        packet_at(packet_encode(p)->Ok_0.take(k))->Err_0.kind == ErrorKind::TruncatedInput,
{
    lemma_consistent_parts(p);
    lemma_sections_truncated(p.header, entries(p.questions), entries(p.answers), k);
}

} // verus!
