use dns_codec::{
    decode_name, name_to_bytes, read_name, Answer, DecodeError, ErrorKind, Header, Packet, Phase,
    Question,
};

fn query_header(qdcount: u16, ancount: u16) -> Header {
    Header::new(65, false, 0, false, false, true, false, 0, qdcount, ancount, 0, 0)
}

const WWW_IEFT_ORG: [u8; 14] = [
    0x03, 0x77, 0x77, 0x77, 0x04, 0x69, 0x65, 0x66, 0x74, 0x03, 0x6F, 0x72, 0x67, 0x00,
];

#[test]
fn header_literal_bytes() {
    let h = query_header(1, 0);
    assert_eq!(
        h.to_bytes(),
        vec![0x00, 0x41, 0x01, 0x00, 0x00, 0x01, 0x00, 0x00, 0x00, 0x00, 0x00, 0x00]
    );
}

#[test]
fn header_all_flags() {
    let h = Header::new(0xABCD, true, 2, true, true, true, true, 3, 1, 2, 3, 4);
    assert_eq!(
        h.to_bytes(),
        vec![0xAB, 0xCD, 0x97, 0x83, 0x00, 0x01, 0x00, 0x02, 0x00, 0x03, 0x00, 0x04]
    );
    assert_eq!(Header::parse(&h.to_bytes()), Ok(h));
}

#[test]
fn header_round_trip_zero_counts() {
    let h = Header::new(0x1234, true, 5, false, true, false, true, 9, 0, 0, 0, 0);
    assert_eq!(Header::parse(&h.to_bytes()), Ok(h));
}

#[test]
fn header_wide_fields_are_masked() {
    let h = Header::new(1, false, 0x1F, false, false, false, false, 0xF2, 0, 0, 0, 0);
    let b = h.to_bytes();
    assert_eq!(b[2], 0x78);
    assert_eq!(b[3], 0x02);
}

#[test]
fn header_short_buffer() {
    let r = Header::parse(&[0u8; 11]);
    assert_eq!(
        r,
        Err(DecodeError { phase: Phase::Header, kind: ErrorKind::TruncatedInput, offset: 11 })
    );
}

#[test]
fn name_literal_bytes() {
    let b = name_to_bytes(&String::from("www.ieft.org")).unwrap();
    assert_eq!(b, WWW_IEFT_ORG.to_vec());
}

#[test]
fn name_empty_is_root() {
    assert_eq!(name_to_bytes(&String::new()), Ok(vec![0]));
}

#[test]
fn name_empty_label_gets_zero_length() {
    assert_eq!(name_to_bytes(&String::from("a..b")), Ok(vec![1, b'a', 0, 1, b'b', 0]));
}

#[test]
fn name_label_of_63_bytes() {
    let label = "x".repeat(63);
    let b = name_to_bytes(&format!("{}.com", label)).unwrap();
    assert_eq!(b.len(), 1 + 63 + 1 + 3 + 1);
    assert_eq!(b[0], 63);
}

#[test]
fn name_label_too_long() {
    let label = "x".repeat(64);
    assert_eq!(name_to_bytes(&format!("a.{}.com", label)), Err(ErrorKind::LabelTooLong));
    assert_eq!(name_to_bytes(&label), Err(ErrorKind::LabelTooLong));
}

#[test]
fn name_round_trip() {
    for name in ["mail.example.com", "a", "www.ieft.org", "x-1.y_2.z"] {
        let b = name_to_bytes(&String::from(name)).unwrap();
        let (decoded, used) = read_name(&b, 0).unwrap();
        assert_eq!(decoded, name);
        assert_eq!(used, b.len());
    }
}

#[test]
fn name_decode_at_offset() {
    let mut buf = vec![0xEE, 0xEE];
    buf.extend_from_slice(&WWW_IEFT_ORG);
    assert_eq!(read_name(&buf, 2), Ok((String::from("www.ieft.org"), 14)));
    assert_eq!(decode_name(&buf, 2), Ok((b"www.ieft.org".to_vec(), 14)));
}

#[test]
fn pointer_resolution() {
    let mut buf = WWW_IEFT_ORG.to_vec();
    buf.extend_from_slice(&[0xC0, 0x00]);
    let direct = read_name(&buf, 0).unwrap();
    let via_pointer = read_name(&buf, 14).unwrap();
    assert_eq!(direct, (String::from("www.ieft.org"), 14));
    assert_eq!(via_pointer, (String::from("www.ieft.org"), 2));
}

#[test]
fn pointer_after_labels() {
    let mut buf = WWW_IEFT_ORG.to_vec();
    buf.extend_from_slice(&[4, b'm', b'a', b'i', b'l', 0xC0, 0x04]);
    assert_eq!(read_name(&buf, 14), Ok((String::from("mail.ieft.org"), 7)));
}

#[test]
fn pointer_chain() {
    let mut buf = WWW_IEFT_ORG.to_vec();
    buf.extend_from_slice(&[0xC0, 0x00, 0xC0, 0x0E, 0xC0, 0x10]);
    assert_eq!(read_name(&buf, 18), Ok((String::from("www.ieft.org"), 2)));
}

#[test]
fn pointer_to_root() {
    let buf = [0u8, 0xC0, 0x00];
    assert_eq!(read_name(&buf, 1), Ok((String::new(), 2)));
}

fn pointer_ladder(rungs: usize) -> Vec<u8> {
    let mut buf = vec![0u8];
    for i in 1..=rungs {
        let target = 2 * i - 2;
        let target = if i == 1 { 0 } else { target - 1 };
        buf.push(0xC0 | (target >> 8) as u8);
        buf.push((target & 0xFF) as u8);
    }
    buf
}

#[test]
fn pointer_hop_limit() {
    let buf = pointer_ladder(129);
    let at = |i: usize| 2 * i - 1;
    assert_eq!(read_name(&buf, at(128)), Ok((String::new(), 2)));
    assert_eq!(
        read_name(&buf, at(129)),
        Err(DecodeError { phase: Phase::Name, kind: ErrorKind::PointerLoop, offset: 1 })
    );
}

#[test]
fn pointer_to_itself() {
    let buf = [0u8, 0u8, 0xC0, 0x02];
    assert_eq!(
        read_name(&buf, 2),
        Err(DecodeError { phase: Phase::Name, kind: ErrorKind::PointerLoop, offset: 2 })
    );
}

#[test]
fn pointer_cycle() {
    let buf = [0xC0u8, 0x02, 0xC0, 0x00];
    let e = read_name(&buf, 0).unwrap_err();
    assert_eq!(e.kind, ErrorKind::PointerLoop);
    assert_eq!(e.phase, Phase::Name);
}

#[test]
fn pointer_out_of_buffer() {
    let buf = [0xC0u8, 0x20];
    assert_eq!(
        read_name(&buf, 0),
        Err(DecodeError { phase: Phase::Name, kind: ErrorKind::TruncatedInput, offset: 0 })
    );
}

#[test]
fn pointer_missing_second_byte() {
    assert_eq!(
        read_name(&[0xC0u8], 0),
        Err(DecodeError { phase: Phase::Name, kind: ErrorKind::TruncatedInput, offset: 0 })
    );
}

#[test]
fn malformed_length_bytes() {
    for first in [0x40u8, 0x80, 0xBF] {
        assert_eq!(
            read_name(&[first, 0, 0], 0),
            Err(DecodeError { phase: Phase::Name, kind: ErrorKind::MalformedName, offset: 0 })
        );
    }
}

#[test]
fn truncated_label() {
    assert_eq!(
        read_name(&[3u8, b'a'], 0),
        Err(DecodeError { phase: Phase::Name, kind: ErrorKind::TruncatedInput, offset: 0 })
    );
    assert_eq!(
        read_name(&[], 0),
        Err(DecodeError { phase: Phase::Name, kind: ErrorKind::TruncatedInput, offset: 0 })
    );
    assert_eq!(
        read_name(&[1u8, b'a'], 0),
        Err(DecodeError { phase: Phase::Name, kind: ErrorKind::TruncatedInput, offset: 2 })
    );
}

#[test]
fn invalid_utf8_label() {
    assert_eq!(
        read_name(&[1u8, 0xFF, 0], 0),
        Err(DecodeError { phase: Phase::Name, kind: ErrorKind::InvalidUtf8, offset: 0 })
    );
}

#[test]
fn question_literal_bytes() {
    let q = Question::new(String::from("www.ieft.org"), 1, 1);
    let mut expected = WWW_IEFT_ORG.to_vec();
    expected.extend_from_slice(&[0x00, 0x01, 0x00, 0x01]);
    assert_eq!(q.to_bytes(), Ok(expected));
}

#[test]
fn question_parse() {
    let mut buf = WWW_IEFT_ORG.to_vec();
    buf.extend_from_slice(&[0x00, 0x1C, 0x00, 0x01]);
    let (q, end) = Question::parse(&buf, 0).unwrap();
    assert_eq!(q.qname, "www.ieft.org");
    assert_eq!(q.qtype, 28);
    assert_eq!(q.qclass, 1);
    assert_eq!(end, 18);
}

#[test]
fn question_truncated_fields() {
    let mut buf = WWW_IEFT_ORG.to_vec();
    buf.extend_from_slice(&[0x00, 0x01, 0x00]);
    assert_eq!(
        Question::parse(&buf, 0).unwrap_err(),
        DecodeError { phase: Phase::Question, kind: ErrorKind::TruncatedInput, offset: 14 }
    );
}

#[test]
fn answer_bytes() {
    let a = Answer::new(String::from("a.b"), 1, 1, 0x0102_0304, vec![10, 0, 0, 1]);
    assert_eq!(
        a.to_bytes(),
        Ok(vec![
            1, b'a', 1, b'b', 0, 0, 1, 0, 1, 1, 2, 3, 4, 0, 4, 10, 0, 0, 1
        ])
    );
}

#[test]
fn answer_rdata_limits() {
    let ok = Answer::new(String::from("a"), 16, 1, 0, vec![7; 65535]);
    let b = ok.to_bytes().unwrap();
    assert_eq!(b.len(), 3 + 10 + 65535);
    assert_eq!(&b[11..13], &[0xFF, 0xFF]);
    let big = Answer::new(String::from("a"), 16, 1, 0, vec![7; 65536]);
    assert_eq!(big.to_bytes(), Err(ErrorKind::RdataTooLarge));
    let both = Answer::new("y".repeat(70), 16, 1, 0, vec![7; 65536]);
    assert_eq!(both.to_bytes(), Err(ErrorKind::LabelTooLong));
}

#[test]
fn answer_parse_with_compression() {
    let mut buf = WWW_IEFT_ORG.to_vec();
    buf.extend_from_slice(&[0xC0, 0x00, 0, 1, 0, 1, 0, 0, 0x0E, 0x10, 0, 4, 93, 184, 216, 34]);
    let (a, end) = Answer::parse(&buf, 14).unwrap();
    assert_eq!(a.name, "www.ieft.org");
    assert_eq!(a.rtype, 1);
    assert_eq!(a.class, 1);
    assert_eq!(a.ttl, 3600);
    assert_eq!(a.rdata, vec![93, 184, 216, 34]);
    assert_eq!(end, buf.len());
}

#[test]
fn answer_rdata_past_end() {
    let buf = [0u8, 0, 1, 0, 1, 0, 0, 0, 0, 0, 5, 1, 2];
    assert_eq!(
        Answer::parse(&buf, 0).unwrap_err(),
        DecodeError { phase: Phase::Record, kind: ErrorKind::TruncatedInput, offset: 9 }
    );
    assert_eq!(
        Answer::parse(&buf[..8], 0).unwrap_err(),
        DecodeError { phase: Phase::Record, kind: ErrorKind::TruncatedInput, offset: 1 }
    );
}

fn sample_packet() -> Packet {
    let q = Question::new(String::from("www.ieft.org"), 1, 1);
    let a1 = Answer::new(String::from("www.ieft.org"), 1, 1, 300, vec![192, 0, 2, 1]);
    let a2 = Answer::new(String::from("ns.ieft.org"), 2, 1, 86400, vec![]);
    let h = Header::new(7, true, 0, true, false, true, true, 0, 1, 1, 1, 0);
    Packet::new(h, Some(vec![q]), Some(vec![a1, a2]))
}

#[test]
fn packet_round_trip() {
    let p = sample_packet();
    let bytes = p.to_bytes().unwrap();
    let back = Packet::parse(&bytes).unwrap();
    assert_eq!(back.header, p.header);
    let qs = back.questions.unwrap();
    assert_eq!(qs.len(), 1);
    assert_eq!(qs[0].qname, "www.ieft.org");
    assert_eq!((qs[0].qtype, qs[0].qclass), (1, 1));
    let rs = back.answers.unwrap();
    assert_eq!(rs.len(), 2);
    assert_eq!(rs[0].name, "www.ieft.org");
    assert_eq!((rs[0].rtype, rs[0].class, rs[0].ttl), (1, 1, 300));
    assert_eq!(rs[0].rdata, vec![192, 0, 2, 1]);
    assert_eq!(rs[1].name, "ns.ieft.org");
    assert_eq!((rs[1].rtype, rs[1].class, rs[1].ttl), (2, 1, 86400));
    assert!(rs[1].rdata.is_empty());
}

#[test]
fn packet_query_bytes() {
    let q = Question::new(String::from("www.ieft.org"), 1, 1);
    let p = Packet::new(query_header(1, 0), Some(vec![q]), None);
    let mut expected = vec![0x00, 0x41, 0x01, 0x00, 0x00, 0x01, 0x00, 0x00, 0x00, 0x00, 0x00, 0x00];
    expected.extend_from_slice(&WWW_IEFT_ORG);
    expected.extend_from_slice(&[0x00, 0x01, 0x00, 0x01]);
    assert_eq!(p.to_bytes(), Ok(expected));
}

#[test]
fn packet_without_sections() {
    let h = Header::new(9, false, 1, false, false, false, false, 0, 0, 0, 0, 0);
    let p = Packet::new(h, None, None);
    let bytes = p.to_bytes().unwrap();
    assert_eq!(bytes.len(), 12);
    let back = Packet::parse(&bytes).unwrap();
    assert_eq!(back.header, h);
    assert!(back.questions.is_none());
    assert!(back.answers.is_none());
}

#[test]
fn packet_trailing_bytes_ignored() {
    let p = sample_packet();
    let mut bytes = p.to_bytes().unwrap();
    let n = bytes.len();
    bytes.resize(1024, 0);
    let back = Packet::parse(&bytes).unwrap();
    assert_eq!(back.answers.unwrap().len(), 2);
    assert!(n < 1024);
}

#[test]
fn packet_every_truncation_fails() {
    let bytes = sample_packet().to_bytes().unwrap();
    for k in 0..bytes.len() {
        let e = Packet::parse(&bytes[..k]).unwrap_err();
        assert_eq!(e.kind, ErrorKind::TruncatedInput, "prefix of {} bytes", k);
        assert!(e.offset <= k);
    }
}

#[test]
fn packet_error_phases() {
    let bytes = sample_packet().to_bytes().unwrap();
    assert_eq!(Packet::parse(&bytes[..5]).unwrap_err().phase, Phase::Header);
    assert_eq!(Packet::parse(&bytes[..20]).unwrap_err().phase, Phase::Name);
    assert_eq!(
        Packet::parse(&bytes[..28]).unwrap_err(),
        DecodeError { phase: Phase::Question, kind: ErrorKind::TruncatedInput, offset: 26 }
    );
    assert_eq!(Packet::parse(&bytes[..50]).unwrap_err().phase, Phase::Record);
}

#[test]
fn packet_compressed_response() {
    let mut buf = vec![0x00, 0x41, 0x81, 0x80, 0x00, 0x01, 0x00, 0x01, 0x00, 0x00, 0x00, 0x00];
    buf.extend_from_slice(&WWW_IEFT_ORG);
    buf.extend_from_slice(&[0x00, 0x01, 0x00, 0x01]);
    buf.extend_from_slice(&[0xC0, 0x0C, 0, 1, 0, 1, 0, 0, 0, 60, 0, 4, 1, 2, 3, 4]);
    let p = Packet::parse(&buf).unwrap();
    assert!(p.header.qr && p.header.rd && p.header.ra);
    assert_eq!(p.header.rcode, 0);
    let rs = p.answers.unwrap();
    assert_eq!(rs.len(), 1);
    assert_eq!(rs[0].name, "www.ieft.org");
    assert_eq!(rs[0].ttl, 60);
    assert_eq!(rs[0].rdata, vec![1, 2, 3, 4]);
}

#[test]
fn packet_encode_stops_at_first_error() {
    let bad = Question::new("z".repeat(64), 1, 1);
    let big = Answer::new(String::from("a"), 1, 1, 0, vec![0; 70000]);
    let h = query_header(1, 1);
    let p = Packet::new(h, Some(vec![bad]), Some(vec![big]));
    assert_eq!(p.to_bytes(), Err(ErrorKind::LabelTooLong));
    let good = Question::new(String::from("ok"), 1, 1);
    let big = Answer::new(String::from("a"), 1, 1, 0, vec![0; 70000]);
    let p = Packet::new(h, Some(vec![good]), Some(vec![big]));
    assert_eq!(p.to_bytes(), Err(ErrorKind::RdataTooLarge));
}

#[test]
fn packet_pointer_past_end_fails_at_pointer() {
    let mut buf = vec![0x00, 0x01, 0x00, 0x00, 0x00, 0x01, 0x00, 0x00, 0x00, 0x00, 0x00, 0x00];
    buf.extend_from_slice(&[0xC0, 0xFF]);
    assert_eq!(
        Packet::parse(&buf).unwrap_err(),
        DecodeError { phase: Phase::Name, kind: ErrorKind::TruncatedInput, offset: 12 }
    );
}

#[test]
fn pointer_cycle_of_three_with_labels() {
    let buf = [1u8, b'a', 0xC0, 0x04, 0xC0, 0x06, 1, b'b', 0xC0, 0x00];
    for start in [0usize, 4, 6] {
        let e = read_name(&buf, start).unwrap_err();
        assert_eq!(e.kind, ErrorKind::PointerLoop);
        assert!(e.offset < buf.len());
    }
}
