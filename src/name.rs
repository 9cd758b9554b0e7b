use vstd::prelude::*;
use vstd::utf8::{decode_utf8, encode_utf8, valid_utf8};
use crate::error::{DecodeError, ErrorKind, Phase};
use crate::wire::{holds_prefix, lemma_prefix_slice, lemma_prefix_tail};

verus! {

/// The byte that separates labels in a dotted name.
pub const DOT: u8 = 46;

/// The longest label that a length byte can announce.
pub const MAX_LABEL_LEN: usize = 63;

/// How many compression pointers one name may follow before decoding gives up.
pub const MAX_POINTER_HOPS: usize = 128;

/// The labels of a dotted name: the bytes between dots, in order.
/// An empty name, or one with two dots in a row, has empty labels.
pub open spec fn split_labels(b: Seq<u8>) -> Seq<Seq<u8>>
    decreases b.len(),
{
    if b.len() == 0 {
        seq![Seq::empty()]
    } else {
        let p = split_labels(b.drop_last());
        if b.last() == DOT {
            p.push(Seq::empty())
        } else {
            p.update(p.len() - 1, p.last().push(b.last()))
        }
    }
}

/// Labels joined by dots.
pub open spec fn join_labels(ls: Seq<Seq<u8>>) -> Seq<u8>
    decreases ls.len(),
{
    if ls.len() == 0 {
        Seq::empty()
    } else if ls.len() == 1 {
        ls[0]
    } else {
        join_labels(ls.drop_last()) + seq![DOT] + ls.last()
    }
}

/// Each label preceded by its length byte.
pub open spec fn labels_wire(ls: Seq<Seq<u8>>) -> Seq<u8>
    decreases ls.len(),
{
    if ls.len() == 0 {
        Seq::empty()
    } else {
        seq![ls[0].len() as u8] + ls[0] + labels_wire(ls.drop_first())
    }
}

/// Every label fits in a length byte.
pub open spec fn labels_fit(ls: Seq<Seq<u8>>) -> bool {
    forall|i: int| 0 <= i < ls.len() ==> #[trigger] ls[i].len() <= MAX_LABEL_LEN
}

/// A name can be encoded when none of its labels is too long.
pub open spec fn name_encodable(b: Seq<u8>) -> bool {
    labels_fit(split_labels(b))
}

/// The wire form of a dotted name: length-prefixed labels and a zero byte.
/// The empty name is the root, a single zero byte.
pub open spec fn name_wire(b: Seq<u8>) -> Seq<u8> {
    if b.len() == 0 {
        seq![0u8]
    } else {
        labels_wire(split_labels(b)) + seq![0u8]
    }
}

/// The bytes of a name held as text.
pub open spec fn text_bytes(s: Seq<char>) -> Seq<u8> {
    encode_utf8(s)
}

/// Where a compression pointer at `pos` leads: its low fourteen bits.
pub open spec fn pointer_target(buf: Seq<u8>, pos: int) -> int {
    (buf[pos] - 192) * 256 + buf[pos + 1]
}

pub open spec fn name_error(kind: ErrorKind, pos: int) -> DecodeError {
    DecodeError::at(Phase::Name, kind, pos)
}

/// The labels read from `pos` on, following at most `hops` pointers.
/// A pointer that leads outside the buffer fails at the pointer itself.
pub open spec fn walk(buf: Seq<u8>, pos: int, hops: nat) -> Result<Seq<Seq<u8>>, DecodeError>
    decreases hops, buf.len() - pos,
{
    if pos < 0 || pos >= buf.len() {
        Err(name_error(ErrorKind::TruncatedInput, pos))
    } else {
        let n = buf[pos] as int;
        if n == 0 {
            Ok(Seq::empty())
        } else if n >= 192 {
            if pos + 1 >= buf.len() || pointer_target(buf, pos) >= buf.len() {
                Err(name_error(ErrorKind::TruncatedInput, pos))
            } else if hops == 0 {
                Err(name_error(ErrorKind::PointerLoop, pos))
            } else {
                walk(buf, pointer_target(buf, pos), (hops - 1) as nat)
            }
        } else if n >= 64 {
            Err(name_error(ErrorKind::MalformedName, pos))
        } else if pos + 1 + n > buf.len() {
            Err(name_error(ErrorKind::TruncatedInput, pos))
        } else {
            match walk(buf, pos + 1 + n, hops) {
                Ok(rest) => Ok(seq![buf.subrange(pos + 1, pos + 1 + n)] + rest),
                Err(e) => Err(e),
            }
        }
    }
}

/// How many bytes a name at `pos` occupies in place: up to and including its
/// terminating zero byte or its first pointer, but not what a pointer leads to.
pub open spec fn span(buf: Seq<u8>, pos: int) -> int
    decreases buf.len() - pos,
{
    if pos < 0 || pos >= buf.len() {
        0
    } else {
        let n = buf[pos] as int;
        if n == 0 {
            1
        } else if n >= 192 {
            2
        } else if pos + 1 + n > buf.len() {
            0
        } else {
            1 + n + span(buf, pos + 1 + n)
        }
    }
}

/// Decoding a name at `pos`: its dotted bytes and the bytes it occupies in place.
pub open spec fn name_at(buf: Seq<u8>, pos: int) -> Result<(Seq<u8>, int), DecodeError> {
    match walk(buf, pos, MAX_POINTER_HOPS as nat) {
        Ok(ls) => Ok((join_labels(ls), span(buf, pos))),
        Err(e) => Err(e),
    }
}

/// Decoding a name at `pos` as text.
pub open spec fn text_at(buf: Seq<u8>, pos: int) -> Result<(Seq<char>, int), DecodeError> {
    match name_at(buf, pos) {
        Ok((b, c)) => if valid_utf8(b) {
            Ok((decode_utf8(b), c))
        } else {
            Err(name_error(ErrorKind::InvalidUtf8, pos))
        },
        Err(e) => Err(e),
    }
}

pub open spec fn prepend(acc: Seq<Seq<u8>>, r: Result<Seq<Seq<u8>>, DecodeError>) -> Result<
    Seq<Seq<u8>>,
    DecodeError,
> {
    match r {
        Ok(rest) => Ok(acc + rest),
        Err(e) => Err(e),
    }
}

proof fn lemma_labels_wire_push(ls: Seq<Seq<u8>>, l: Seq<u8>)
    ensures
        labels_wire(ls.push(l)) == labels_wire(ls) + seq![l.len() as u8] + l,
    decreases ls.len(),
{
    if ls.len() == 0 {
        assert(ls.push(l).drop_first() =~= Seq::<Seq<u8>>::empty());
        assert(labels_wire(Seq::<Seq<u8>>::empty()) == Seq::<u8>::empty());
        assert(labels_wire(ls.push(l)) =~= labels_wire(ls) + seq![l.len() as u8] + l);
    } else {
        assert(ls.push(l).drop_first() =~= ls.drop_first().push(l));
        lemma_labels_wire_push(ls.drop_first(), l);
        assert(labels_wire(ls.push(l)) =~= labels_wire(ls) + seq![l.len() as u8] + l);
    }
}

proof fn lemma_split_len(b: Seq<u8>)
    ensures
        split_labels(b).len() >= 1,
    decreases b.len(),
{
    if b.len() > 0 {
        lemma_split_len(b.drop_last());
    }
}

/// Splitting a longer prefix keeps at least as many labels, and the label
/// that was last grows or stays.
proof fn lemma_split_prefix(b: Seq<u8>, j: int, k: int)
    requires
        0 <= j <= k <= b.len(),
    ensures
        1 <= split_labels(b.take(j)).len() <= split_labels(b.take(k)).len(),
        split_labels(b.take(j)).last().len() <= split_labels(b.take(k))[split_labels(
            b.take(j),
        ).len() - 1].len(),
    decreases k - j,
{
    lemma_split_len(b.take(j));
    if k > j {
        lemma_split_prefix(b, j, k - 1);
        lemma_split_len(b.take(k - 1));
        assert(b.take(k).drop_last() =~= b.take(k - 1));
    }
}

/// Appends one label with its length byte.
fn push_label(out: &mut Vec<u8>, b: &[u8], start: usize, end: usize)
    requires
        start <= end <= b@.len(),
        end - start <= MAX_LABEL_LEN,
    ensures
        final(out)@ == old(out)@ + seq![(end - start) as u8] + b@.subrange(start as int, end as int),
{
    out.push((end - start) as u8);
    let ghost base = out@;
    let mut k: usize = start;
    while k < end
        invariant
            start <= k <= end <= b@.len(),
            out@ == base + b@.subrange(start as int, k as int),
        decreases end - k,
    {
        out.push(b[k]);
        assert(b@.subrange(start as int, k + 1) =~= b@.subrange(start as int, k as int).push(b@[k as int]));
        k = k + 1;
    }
}

/// Encodes a dotted name as length-prefixed labels ended by a zero byte.
/// Fails with `LabelTooLong` when a label has more than 63 bytes.
pub fn name_to_bytes(name: &String) -> (r: Result<Vec<u8>, ErrorKind>)
    ensures
        match r {
            Ok(v) => name_encodable(text_bytes(name@)) && v@ == name_wire(text_bytes(name@)),
            Err(e) => !name_encodable(text_bytes(name@)) && e == ErrorKind::LabelTooLong,
        },
{
    let b: &[u8] = name.as_str().as_bytes();
    let n = b.len();
    assert(b@ == text_bytes(name@));
    let mut out: Vec<u8> = Vec::new();
    if n == 0 {
        out.push(0);
        assert(out@ =~= name_wire(b@));
        assert(split_labels(b@)[0].len() == 0);
        return Ok(out);
    }
    let mut start: usize = 0;
    let mut i: usize = 0;
    let ghost mut done: Seq<Seq<u8>> = Seq::empty();
    assert(b@.take(0) =~= Seq::<u8>::empty());
    assert(done.push(b@.subrange(0, 0)) =~= split_labels(b@.take(0)));
    while i < n
        invariant
            n == b@.len(),
            b@ == text_bytes(name@),
            start <= i <= n,
            split_labels(b@.take(i as int)) == done.push(b@.subrange(start as int, i as int)),
            labels_fit(done),
            out@ == labels_wire(done),
        decreases n - i,
    {
        assert(b@.take(i + 1).drop_last() =~= b@.take(i as int));
        if i - start > MAX_LABEL_LEN {
            proof {
                assert(b@.take(n as int) =~= b@);
                lemma_split_prefix(b@, i as int, n as int);
                let ls = split_labels(b@);
                let k = split_labels(b@.take(i as int)).len() - 1;
                assert(split_labels(b@.take(i as int)).last() == b@.subrange(start as int, i as int));
                assert(ls[k].len() > MAX_LABEL_LEN);
                assert(!name_encodable(b@));
            }
            return Err(ErrorKind::LabelTooLong);
        }
        if b[i] == DOT {
            push_label(&mut out, b, start, i);
            proof {
                lemma_labels_wire_push(done, b@.subrange(start as int, i as int));
                done = done.push(b@.subrange(start as int, i as int));
                assert(b@.subrange(i + 1, i + 1) =~= Seq::<u8>::empty());
            }
            start = i + 1;
        } else {
            assert(b@.subrange(start as int, i + 1) =~= b@.subrange(start as int, i as int).push(b@[i as int]));
            assert(done.push(b@.subrange(start as int, i as int)).update(done.len() as int, b@.subrange(start as int, i + 1))
                =~= done.push(b@.subrange(start as int, i + 1)));
        }
        i = i + 1;
    }
    assert(b@.take(n as int) =~= b@);
    if i - start > MAX_LABEL_LEN {
        assert(split_labels(b@)[done.len() as int].len() > MAX_LABEL_LEN);
        return Err(ErrorKind::LabelTooLong);
    }
    push_label(&mut out, b, start, i);
    proof {
        lemma_labels_wire_push(done, b@.subrange(start as int, i as int));
    }
    out.push(0);
    assert(out@ =~= name_wire(b@));
    Ok(out)
}


proof fn lemma_join_push(acc: Seq<Seq<u8>>, l: Seq<u8>)
    ensures
        join_labels(acc.push(l)) == if acc.len() == 0 {
            l
        } else {
            join_labels(acc) + seq![DOT] + l
        },
{
    assert(acc.push(l).drop_last() =~= acc);
}

/// Decodes the dotted bytes of the name at `start`, following compression
/// pointers, and says how many bytes the name occupies at `start`.
pub fn decode_name(buf: &[u8], start: usize) -> (r: Result<(Vec<u8>, usize), DecodeError>)
    ensures
        match r {
            Ok((v, c)) => name_at(buf@, start as int) == Ok::<(Seq<u8>, int), DecodeError>(
                (v@, c as int),
            ),
            Err(e) => name_at(buf@, start as int) == Err::<(Seq<u8>, int), DecodeError>(e),
        },
        r matches Ok((v, c)) ==> start + c <= buf@.len(),
        start <= buf@.len() ==> (r matches Err(e) ==> e.offset <= buf@.len()),
{
    let n = buf.len();
    let mut pos: usize = start;
    let mut hops: usize = MAX_POINTER_HOPS;
    let mut out: Vec<u8> = Vec::new();
    let ghost mut acc: Seq<Seq<u8>> = Seq::empty();
    let mut consumed: usize = 0;
    let mut jumped = false;
    let mut first = true;
    assert(acc + walk(buf@, pos as int, hops as nat)->Ok_0 =~= walk(buf@, pos as int, hops as nat)->Ok_0);
    loop
        invariant
            n == buf@.len(),
            hops <= MAX_POINTER_HOPS,
            prepend(acc, walk(buf@, pos as int, hops as nat)) == walk(
                buf@,
                start as int,
                MAX_POINTER_HOPS as nat,
            ),
            out@ == join_labels(acc),
            first == (acc.len() == 0),
            !jumped ==> start <= pos && span(buf@, start as int) == (pos - start) + span(
                buf@,
                pos as int,
            ),
            jumped ==> consumed == span(buf@, start as int) && start + consumed <= n,
            start <= n ==> pos <= n,
        decreases hops, n - pos,
    {
        if pos >= n {
            return Err(DecodeError { phase: Phase::Name, kind: ErrorKind::TruncatedInput, offset: pos });
        }
        let len = buf[pos];
        if len == 0 {
            if !jumped {
                consumed = pos - start + 1;
            }
            return Ok((out, consumed));
        } else if len >= 192 {
            if pos + 1 >= n {
                return Err(DecodeError { phase: Phase::Name, kind: ErrorKind::TruncatedInput, offset: pos });
            }
            let target = ((len - 192) as usize) * 256 + (buf[pos + 1] as usize);
            if target >= n {
                return Err(DecodeError { phase: Phase::Name, kind: ErrorKind::TruncatedInput, offset: pos });
            }
            if hops == 0 {
                return Err(DecodeError { phase: Phase::Name, kind: ErrorKind::PointerLoop, offset: pos });
            }
            if !jumped {
                consumed = pos - start + 2;
                jumped = true;
            }
            pos = target;
            hops = hops - 1;
        } else if len >= 64 {
            return Err(DecodeError { phase: Phase::Name, kind: ErrorKind::MalformedName, offset: pos });
        } else {
            if len as usize > n - pos - 1 {
                return Err(DecodeError { phase: Phase::Name, kind: ErrorKind::TruncatedInput, offset: pos });
            }
            let end = pos + 1 + len as usize;
            if !first {
                out.push(DOT);
            }
            first = false;
            let ghost before = out@;
            let mut k: usize = pos + 1;
            while k < end
                invariant
                    pos + 1 <= k <= end <= n == buf@.len(),
                    out@ == before + buf@.subrange(pos + 1, k as int),
                decreases end - k,
            {
                out.push(buf[k]);
                assert(buf@.subrange(pos + 1, k + 1) =~= buf@.subrange(pos + 1, k as int).push(buf@[k as int]));
                k = k + 1;
            }
            proof {
                let l = buf@.subrange(pos + 1, end as int);
                lemma_join_push(acc, l);
                let w = walk(buf@, end as int, hops as nat);
                if w is Ok {
                    assert(acc + (seq![l] + w->Ok_0) =~= acc.push(l) + w->Ok_0);
                }
                acc = acc.push(l);
            }
            pos = end;
        }
    }
}

/// Relies on String::from_utf8: it succeeds exactly when the bytes are valid
/// UTF-8, and the string it returns holds those bytes.
#[verifier::external_body]
fn string_from_utf8(bytes: Vec<u8>) -> (r: Option<String>)
    ensures
        r is Some <==> valid_utf8(bytes@),
        r matches Some(s) ==> encode_utf8(s@) == bytes@,
{
    String::from_utf8(bytes).ok()
}

/// Decodes the name at `start` as text, and says how many bytes it occupies
/// at `start`.
pub fn read_name(buf: &[u8], start: usize) -> (r: Result<(String, usize), DecodeError>)
    ensures
        match r {
            Ok((s, c)) => text_at(buf@, start as int) == Ok::<(Seq<char>, int), DecodeError>(
                (s@, c as int),
            ),
            Err(e) => text_at(buf@, start as int) == Err::<(Seq<char>, int), DecodeError>(e),
        },
        r matches Ok((s, c)) ==> start + c <= buf@.len(),
        start <= buf@.len() ==> (r matches Err(e) ==> e.offset <= buf@.len()),
{
    match decode_name(buf, start) {
        Ok((bytes, c)) => match string_from_utf8(bytes) {
            Some(s) => {
                proof {
                    vstd::utf8::encode_utf8_decode_utf8(s@);
                }
                Ok((s, c))
            },
            None => Err(DecodeError { phase: Phase::Name, kind: ErrorKind::InvalidUtf8, offset: start }),
        },
        Err(e) => Err(e),
    }
}

/// A name whose labels all have between 1 and 63 bytes, or the root.
pub open spec fn plain_name(b: Seq<u8>) -> bool {
    b.len() == 0 || forall|i: int|
        0 <= i < split_labels(b).len() ==> 1 <= #[trigger] split_labels(b)[i].len() <= MAX_LABEL_LEN
}

proof fn lemma_join_split(b: Seq<u8>)
    ensures
        join_labels(split_labels(b)) == b,
    decreases b.len(),
{
    if b.len() == 0 {
        assert(join_labels(split_labels(b)) =~= b);
    } else {
        let p = split_labels(b.drop_last());
        lemma_split_len(b.drop_last());
        lemma_join_split(b.drop_last());
        if b.last() == DOT {
            assert(p.push(Seq::empty()).drop_last() =~= p);
            assert(join_labels(split_labels(b)) =~= b);
        } else {
            let q = p.update(p.len() - 1, p.last().push(b.last()));
            if p.len() == 1 {
                assert(join_labels(q) =~= b);
            } else {
                assert(q.drop_last() =~= p.drop_last());
                assert(join_labels(p) == join_labels(p.drop_last()) + seq![DOT] + p.last());
                assert(join_labels(q) == join_labels(p.drop_last()) + seq![DOT] + q.last());
                assert(q.last() == p.last().push(b.last()));
                assert(join_labels(q) =~= join_labels(p).push(b.last()));
                assert(b.drop_last().push(b.last()) =~= b);
            }
        }
    }
}

proof fn lemma_walk_wire(buf: Seq<u8>, pos: int, ls: Seq<Seq<u8>>, hops: nat)
    requires
        forall|i: int| 0 <= i < ls.len() ==> 1 <= #[trigger] ls[i].len() <= MAX_LABEL_LEN,
        0 <= pos,
        pos + labels_wire(ls).len() + 1 <= buf.len(),
        buf.subrange(pos, pos + labels_wire(ls).len() + 1) == labels_wire(ls) + seq![0u8],
    ensures
        walk(buf, pos, hops) == Ok::<Seq<Seq<u8>>, DecodeError>(ls),
        span(buf, pos) == labels_wire(ls).len() + 1,
    decreases ls.len(),
{
    let w = labels_wire(ls) + seq![0u8];
    assert(buf[pos] == buf.subrange(pos, pos + w.len())[0]);
    if ls.len() > 0 {
        let l = ls[0];
        let n = l.len() as int;
        let rest = ls.drop_first();
        let rw = labels_wire(rest);
        assert(labels_wire(ls) == seq![n as u8] + l + rw);
        assert(w =~= seq![n as u8] + l + (rw + seq![0u8]));
        assert(w.subrange(1, 1 + n) =~= l);
        assert(w.subrange(1 + n, w.len() as int) =~= rw + seq![0u8]);
        assert(buf[pos] == n);
        assert(buf.subrange(pos + 1, pos + 1 + n) =~= w.subrange(1, 1 + n));
        assert(buf.subrange(pos + 1 + n, pos + 1 + n + rw.len() + 1) =~= w.subrange(
            1 + n,
            w.len() as int,
        ));
        assert forall|i: int| 0 <= i < rest.len() implies 1 <= #[trigger] rest[i].len()
            <= MAX_LABEL_LEN by {
            assert(rest[i] == ls[i + 1]);
        }
        lemma_walk_wire(buf, pos + 1 + n, rest, hops);
        assert(seq![l] + rest =~= ls);
    } else {
        assert(w =~= seq![0u8]);
        assert(ls =~= Seq::<Seq<u8>>::empty());
    }
}

/// Decoding the wire form of a name with labels of 1 to 63 bytes gives the
/// name back and reads exactly its wire bytes.
pub proof fn lemma_name_round_trip(b: Seq<u8>, buf: Seq<u8>, pos: int)
    requires
        plain_name(b),
        0 <= pos,
        pos + name_wire(b).len() <= buf.len(),
        buf.subrange(pos, pos + name_wire(b).len()) == name_wire(b),
    ensures
        name_encodable(b),
        name_at(buf, pos) == Ok::<(Seq<u8>, int), DecodeError>((b, name_wire(b).len() as int)),
{
    lemma_join_split(b);
    if b.len() == 0 {
        assert(split_labels(b)[0].len() == 0);
        lemma_walk_wire(buf, pos, Seq::empty(), MAX_POINTER_HOPS as nat);
        assert(join_labels(Seq::<Seq<u8>>::empty()) =~= b);
    } else {
        lemma_walk_wire(buf, pos, split_labels(b), MAX_POINTER_HOPS as nat);
    }
}

/// The same for a name held as text.
pub proof fn lemma_text_round_trip(s: Seq<char>, buf: Seq<u8>, pos: int)
    requires
        plain_name(text_bytes(s)),
        0 <= pos,
        pos + name_wire(text_bytes(s)).len() <= buf.len(),
        buf.subrange(pos, pos + name_wire(text_bytes(s)).len()) == name_wire(text_bytes(s)),
    ensures
        name_encodable(text_bytes(s)),
        text_at(buf, pos) == Ok::<(Seq<char>, int), DecodeError>(
            (s, name_wire(text_bytes(s)).len() as int),
        ),
{
    lemma_name_round_trip(text_bytes(s), buf, pos);
    vstd::utf8::encode_utf8_valid_utf8(s);
    vstd::utf8::encode_utf8_decode_utf8(s);
}

proof fn lemma_walk_more_hops(buf: Seq<u8>, pos: int, hops: nat, more: nat)
    requires
        walk(buf, pos, hops) is Ok,
        hops <= more,
    ensures
        walk(buf, pos, more) == walk(buf, pos, hops),
    decreases hops, buf.len() - pos,
{
    if 0 <= pos < buf.len() {
        let n = buf[pos] as int;
        if n >= 192 {
            lemma_walk_more_hops(buf, pointer_target(buf, pos), (hops - 1) as nat, (more - 1) as nat);
        } else if 0 < n < 64 && pos + 1 + n <= buf.len() {
            lemma_walk_more_hops(buf, pos + 1 + n, hops, more);
        }
    }
}

/// A name made of a single pointer to offset `o` decodes to the same name as
/// the one at `o`, whenever that one decodes with a pointer hop to spare, and
/// occupies the two pointer bytes only.
pub proof fn lemma_pointer_resolution(buf: Seq<u8>, q: int, o: int)
    requires
        0 <= q,
        q + 1 < buf.len(),
        buf[q] >= 192,
        pointer_target(buf, q) == o,
        walk(buf, o, (MAX_POINTER_HOPS - 1) as nat) is Ok,
    ensures
        name_at(buf, q) is Ok,
        name_at(buf, o) is Ok,
        name_at(buf, q)->Ok_0.0 == name_at(buf, o)->Ok_0.0,
        name_at(buf, q)->Ok_0.1 == 2,
{
    lemma_walk_more_hops(buf, o, (MAX_POINTER_HOPS - 1) as nat, MAX_POINTER_HOPS as nat);
}

/// A pointer that leads to itself is rejected as a loop, at its own offset,
/// whatever the number of hops allowed.
pub proof fn lemma_self_pointer_rejected(buf: Seq<u8>, o: int, hops: nat)
    requires
        0 <= o,
        o + 1 < buf.len(),
        buf[o] >= 192,
        pointer_target(buf, o) == o,
    ensures
        walk(buf, o, hops) == Err::<Seq<Seq<u8>>, DecodeError>(name_error(ErrorKind::PointerLoop, o)),
    decreases hops,
{
    if hops > 0 {
        lemma_self_pointer_rejected(buf, o, (hops - 1) as nat);
    }
}

/// Decoding a name that starts with a pointer to itself fails with
/// `PointerLoop` at that offset.
pub proof fn lemma_self_pointer_name_rejected(buf: Seq<u8>, o: int)
    requires
        0 <= o,
        o + 1 < buf.len(),
        buf[o] >= 192,
        pointer_target(buf, o) == o,
    ensures
        name_at(buf, o) == Err::<(Seq<u8>, int), DecodeError>(name_error(ErrorKind::PointerLoop, o)),
{
    lemma_self_pointer_rejected(buf, o, MAX_POINTER_HOPS as nat);
}

proof fn lemma_walk_wire_short(buf: Seq<u8>, pos: int, ls: Seq<Seq<u8>>, hops: nat)
    requires
        forall|i: int| 0 <= i < ls.len() ==> 1 <= #[trigger] ls[i].len() <= MAX_LABEL_LEN,
        holds_prefix(buf, pos, labels_wire(ls) + seq![0u8]),
        buf.len() < pos + labels_wire(ls).len() + 1,
    ensures
        walk(buf, pos, hops) is Err,
        walk(buf, pos, hops)->Err_0.kind == ErrorKind::TruncatedInput,
    decreases ls.len(),
{
    let w = labels_wire(ls) + seq![0u8];
    if pos < buf.len() && ls.len() > 0 {
        let l = ls[0];
        let n = l.len() as int;
        let rest = ls.drop_first();
        let rw = labels_wire(rest);
        assert(labels_wire(ls) == seq![n as u8] + l + rw);
        assert(w =~= seq![n as u8] + l + (rw + seq![0u8]));
        lemma_prefix_slice(buf, pos, w, pos, pos + 1);
        assert(buf[pos] == buf.subrange(pos, pos + 1)[0]);
        if pos + 1 + n <= buf.len() {
            lemma_prefix_tail(buf, pos, w, pos + 1 + n);
            assert(w.subrange(1 + n, w.len() as int) =~= rw + seq![0u8]);
            assert forall|i: int| 0 <= i < rest.len() implies 1 <= #[trigger] rest[i].len()
                <= MAX_LABEL_LEN by {
                assert(rest[i] == ls[i + 1]);
            }
            lemma_walk_wire_short(buf, pos + 1 + n, rest, hops);
        }
    } else if pos < buf.len() {
        assert(w =~= seq![0u8]);
    }
}

/// A buffer that ends inside the wire form of a name with labels of 1 to 63
/// bytes fails to decode it with `TruncatedInput`.
pub proof fn lemma_text_truncated(s: Seq<char>, buf: Seq<u8>, pos: int)
    requires
        plain_name(text_bytes(s)),
        holds_prefix(buf, pos, name_wire(text_bytes(s))),
        buf.len() < pos + name_wire(text_bytes(s)).len(),
    ensures
        text_at(buf, pos) is Err,
        text_at(buf, pos)->Err_0.kind == ErrorKind::TruncatedInput,
{
    let b = text_bytes(s);
    if b.len() == 0 {
        assert(labels_wire(Seq::<Seq<u8>>::empty()) + seq![0u8] =~= name_wire(b));
        lemma_walk_wire_short(buf, pos, Seq::empty(), MAX_POINTER_HOPS as nat);
    } else {
        lemma_walk_wire_short(buf, pos, split_labels(b), MAX_POINTER_HOPS as nat);
    }
}

/// Reading ordinary labels from `pos` up to `q` and then on from `q`.
proof fn lemma_walk_labels_then(buf: Seq<u8>, pos: int, ls: Seq<Seq<u8>>, q: int, hops: nat)
    requires
        forall|i: int| 0 <= i < ls.len() ==> 1 <= #[trigger] ls[i].len() <= MAX_LABEL_LEN,
        0 <= pos,
        q == pos + labels_wire(ls).len(),
        q < buf.len(),
        buf.subrange(pos, q) == labels_wire(ls),
    ensures
        walk(buf, pos, hops) == prepend(ls, walk(buf, q, hops)),
        span(buf, pos) == labels_wire(ls).len() + span(buf, q),
    decreases ls.len(),
{
    if ls.len() > 0 {
        let l = ls[0];
        let n = l.len() as int;
        let rest = ls.drop_first();
        let rw = labels_wire(rest);
        let w = labels_wire(ls);
        assert(w == seq![n as u8] + l + rw);
        assert(buf[pos] == buf.subrange(pos, q)[0]);
        assert(buf.subrange(pos + 1, pos + 1 + n) =~= w.subrange(1, 1 + n));
        assert(w.subrange(1, 1 + n) =~= l);
        assert(buf.subrange(pos + 1 + n, q) =~= w.subrange(1 + n, w.len() as int));
        assert(w.subrange(1 + n, w.len() as int) =~= rw);
        assert forall|i: int| 0 <= i < rest.len() implies 1 <= #[trigger] rest[i].len()
            <= MAX_LABEL_LEN by {
            assert(rest[i] == ls[i + 1]);
        }
        lemma_walk_labels_then(buf, pos + 1 + n, rest, q, hops);
        let r = walk(buf, q, hops);
        if r is Ok {
            assert(seq![l] + (rest + r->Ok_0) =~= ls + r->Ok_0);
        }
    } else {
        assert(ls + walk(buf, q, hops)->Ok_0 =~= walk(buf, q, hops)->Ok_0);
    }
}

/// Joining two non-empty runs of labels puts a dot between their joins.
pub proof fn lemma_join_concat(a: Seq<Seq<u8>>, b: Seq<Seq<u8>>)
    requires
        a.len() > 0,
    ensures
        join_labels(a + b) == if b.len() == 0 {
            join_labels(a)
        } else {
            join_labels(a) + seq![DOT] + join_labels(b)
        },
    decreases b.len(),
{
    if b.len() == 0 {
        assert(a + b =~= a);
    } else if b.len() == 1 {
        assert((a + b).drop_last() =~= a);
    } else {
        assert((a + b).drop_last() =~= a + b.drop_last());
        lemma_join_concat(a, b.drop_last());
        assert(join_labels(a + b) =~= join_labels(a) + seq![DOT] + join_labels(b));
    }
}

/// A name made of labels `ls` (possibly none) in place at `c`, followed by a
/// pointer at `q` to offset `o`, decodes to those labels followed by the name
/// at `o` (itself possibly reached through further pointers), whenever that
/// one decodes with a pointer hop to spare; in place it occupies the labels and
/// the two pointer bytes only.
pub proof fn lemma_labels_then_pointer(buf: Seq<u8>, c: int, ls: Seq<Seq<u8>>, q: int, o: int)
    requires
        forall|i: int| 0 <= i < ls.len() ==> 1 <= #[trigger] ls[i].len() <= MAX_LABEL_LEN,
        0 <= c,
        q == c + labels_wire(ls).len(),
        q + 1 < buf.len(),
        buf.subrange(c, q) == labels_wire(ls),
        buf[q] >= 192,
        pointer_target(buf, q) == o,
        walk(buf, o, (MAX_POINTER_HOPS - 1) as nat) is Ok,
    ensures
        name_at(buf, o) is Ok,
        walk(buf, c, MAX_POINTER_HOPS as nat) == Ok::<Seq<Seq<u8>>, DecodeError>(
            ls + walk(buf, o, MAX_POINTER_HOPS as nat)->Ok_0,
        ),
        name_at(buf, c) == Ok::<(Seq<u8>, int), DecodeError>(
            (
                join_labels(ls + walk(buf, o, MAX_POINTER_HOPS as nat)->Ok_0),
                labels_wire(ls).len() + 2int,
            ),
        ),
{
    lemma_walk_more_hops(buf, o, (MAX_POINTER_HOPS - 1) as nat, MAX_POINTER_HOPS as nat);
    lemma_walk_labels_then(buf, c, ls, q, MAX_POINTER_HOPS as nat);
}

/// Step `i` of a pointer cycle: from `ps[i]`, the labels `lss[i]` lead to
/// a pointer at `qs[i]` to the next start, the first one after the last.
pub open spec fn cycle_step(
    buf: Seq<u8>,
    ps: Seq<int>,
    qs: Seq<int>,
    lss: Seq<Seq<Seq<u8>>>,
    i: int,
) -> bool {
    &&& forall|j: int| 0 <= j < lss[i].len() ==> 1 <= #[trigger] lss[i][j].len() <= MAX_LABEL_LEN
    &&& 0 <= ps[i]
    &&& qs[i] == ps[i] + labels_wire(lss[i]).len()
    &&& qs[i] + 1 < buf.len()
    &&& buf.subrange(ps[i], qs[i]) == labels_wire(lss[i])
    &&& buf[qs[i]] >= 192
    &&& pointer_target(buf, qs[i]) == ps[(i + 1) % ps.len() as int]
}

/// Names that lead through pointers back to where they started, after one
/// or more hops with any labels in between.
pub open spec fn pointer_cycle(
    buf: Seq<u8>,
    ps: Seq<int>,
    qs: Seq<int>,
    lss: Seq<Seq<Seq<u8>>>,
) -> bool {
    &&& ps.len() >= 1
    &&& qs.len() == ps.len()
    &&& lss.len() == ps.len()
    &&& forall|i: int| 0 <= i < ps.len() ==> #[trigger] cycle_step(buf, ps, qs, lss, i)
}

/// Decoding from any start of a pointer cycle fails with `PointerLoop`,
/// whatever the number of hops allowed.
pub proof fn lemma_pointer_cycle_rejected(
    buf: Seq<u8>,
    ps: Seq<int>,
    qs: Seq<int>,
    lss: Seq<Seq<Seq<u8>>>,
    hops: nat,
)
    requires
        pointer_cycle(buf, ps, qs, lss),
    ensures
        forall|i: int|
            0 <= i < ps.len() ==> #[trigger] walk(buf, ps[i], hops) is Err && walk(
                buf,
                ps[i],
                hops,
            )->Err_0.kind == ErrorKind::PointerLoop,
    decreases hops,
{
    if hops > 0 {
        lemma_pointer_cycle_rejected(buf, ps, qs, lss, (hops - 1) as nat);
    }
    assert forall|i: int| 0 <= i < ps.len() implies #[trigger] walk(buf, ps[i], hops) is Err
        && walk(buf, ps[i], hops)->Err_0.kind == ErrorKind::PointerLoop by {
        assert(cycle_step(buf, ps, qs, lss, i));
        let next = (i + 1) % ps.len() as int;
        assert(0 <= next < ps.len());
        assert(cycle_step(buf, ps, qs, lss, next));
        lemma_walk_labels_then(buf, ps[i], lss[i], qs[i], hops);
        if hops > 0 {
            assert(walk(buf, qs[i], hops) == walk(buf, ps[next], (hops - 1) as nat));
        }
    }
}

/// In particular, decoding a name that starts on a pointer cycle fails with
/// `PointerLoop`.
pub proof fn lemma_pointer_cycle_name_rejected(
    buf: Seq<u8>,
    ps: Seq<int>,
    qs: Seq<int>,
    lss: Seq<Seq<Seq<u8>>>,
    i: int,
)
    requires
        pointer_cycle(buf, ps, qs, lss),
        0 <= i < ps.len(),
    ensures
        name_at(buf, ps[i]) is Err,
        name_at(buf, ps[i])->Err_0.kind == ErrorKind::PointerLoop,
{
    lemma_pointer_cycle_rejected(buf, ps, qs, lss, MAX_POINTER_HOPS as nat);
    assert(walk(buf, ps[i], MAX_POINTER_HOPS as nat) is Err);
}

} // verus!
