use dns_forwarder::dns_answer::DnsAnswer;
use dns_forwarder::dns_header::DnsHeader;
use dns_forwarder::dns_packet::DnsPacket;
use dns_forwarder::dns_question::DnsQuestion;
use dns_forwarder::dns_serde::{DnsDeserialize, DnsError, DnsSerialize};
use dns_forwarder::dns_type::DnsType;
use dns_forwarder::label_seq::LabelSeq;

#[test]
fn it_serializes() {
    let h = DnsHeader {
        id: 1234,
        qr: 1,
        ..Default::default()
    };
    let q = DnsQuestion::default();
    let a = DnsAnswer {
        name: LabelSeq::_new("codecrafters.io"),
        _type: DnsType::A(8, 8, 8, 8),
        ..Default::default()
    };
    let p = DnsPacket::new(h, vec![q], Some(vec![a]));
    // the empty name of the default question encodes as its terminating zero byte alone
    assert_eq!(
        p.serialize().unwrap(),
        [
            4, 210, 128, 0, 0, 1, 0, 1, 0, 0, 0, 0, 0, 0, 1, 0, 1, 12, 99, 111, 100, 101,
            99, 114, 97, 102, 116, 101, 114, 115, 2, 105, 111, 0, 0, 1, 0, 1, 0, 0, 0, 0, 0, 4,
            8, 8, 8, 8
        ]
    )
}

#[test]
fn it_kinda_serdes() {
    let h = DnsHeader {
        id: 1234,
        qr: 1,
        qdcount: 1,
        ..Default::default()
    };
    let q = DnsQuestion {
        name: LabelSeq::_new("codecrafters.io"),
        ..Default::default()
    };
    let p = DnsPacket {
        header: h.clone(),
        questions: vec![q.clone()],
        ..Default::default()
    };
    let s = p.serialize().unwrap();
    let (dh, dq, _) = DnsPacket::deserialize(&s).unwrap().1.into_parts();
    assert_eq!(dh, h);
    assert_eq!(dq[0], q);
}

#[test]
fn new_recomputes_counts_and_decode_agrees() {
    let h = DnsHeader { id: 9, qdcount: 40, ancount: 17, nscount: 0, ..Default::default() };
    let q1 = DnsQuestion { name: LabelSeq::_new("a.com"), ..Default::default() };
    let q2 = DnsQuestion { name: LabelSeq::_new("b.com"), ..Default::default() };
    let a = DnsAnswer { name: LabelSeq::_new("a.com"), _type: DnsType::A(1, 2, 3, 4), ..Default::default() };
    let p = DnsPacket::new(h, vec![q1.clone(), q2.clone()], Some(vec![a.clone()]));
    assert_eq!(p.header.qdcount, 2);
    assert_eq!(p.header.ancount, 1);
    let bytes = p.serialize().unwrap();
    let (rest, d) = DnsPacket::deserialize(&bytes).unwrap();
    assert!(rest.is_empty());
    let (dh, dq, da) = d.into_parts();
    assert_eq!(dh.qdcount, 2);
    assert_eq!(dh.ancount, 1);
    assert_eq!(dh.id, 9);
    assert_eq!(dq, vec![q1, q2]);
    assert_eq!(da, Some(vec![a]));

    let none = DnsPacket::new(h, vec![], None);
    assert_eq!(none.header.qdcount, 0);
    assert_eq!(none.header.ancount, 0);
    let (_, d2) = DnsPacket::deserialize(&none.serialize().unwrap()).unwrap();
    assert_eq!(d2.answers, Some(vec![]));
}

#[test]
fn add_answer_and_all_answered() {
    let h = DnsHeader { id: 1, ..Default::default() };
    let q = DnsQuestion { name: LabelSeq::_new("a"), ..Default::default() };
    let a = DnsAnswer { name: LabelSeq::_new("a"), _type: DnsType::A(1, 1, 1, 1), ..Default::default() };
    let mut without = DnsPacket::new(h, vec![q.clone()], None);
    without.add_answer(a.clone());
    assert!(without.answers.is_none());
    assert!(!without.all_questions_answered());

    let mut with = DnsPacket::new(h, vec![q], Some(vec![]));
    assert!(!with.all_questions_answered());
    with.add_answer(a.clone());
    assert_eq!(with.answers, Some(vec![a]));
    assert!(with.all_questions_answered());

    let empty = DnsPacket::new(h, vec![], None);
    assert!(empty.all_questions_answered());
}

#[test]
fn prepare_for_response_sets_flags_and_counts() {
    let h = DnsHeader { id: 3, opcode: 1, qdcount: 5, ancount: 5, rcode: 0, ..Default::default() };
    let q = DnsQuestion { name: LabelSeq::_new("a"), ..Default::default() };
    let a = DnsAnswer { name: LabelSeq::_new("a"), _type: DnsType::A(1, 1, 1, 1), ..Default::default() };
    let mut p = DnsPacket { header: h, questions: vec![q.clone()], answers: Some(vec![a]) };
    assert!(!p.all_questions_answered());
    p.prepare_for_response(1);
    assert_eq!(p.header.qr, 1);
    assert_eq!(p.header.qdcount, 1);
    assert_eq!(p.header.ancount, 1);
    assert_eq!(p.header.rcode, 4);
    assert!(p.all_questions_answered());

    let mut unanswered = DnsPacket { header: h, questions: vec![q], answers: Some(vec![]) };
    unanswered.prepare_for_response(1);
    assert_eq!(unanswered.header.qr, 1);
    assert!(!unanswered.all_questions_answered());
}

#[test]
fn packet_errors() {
    assert_eq!(DnsPacket::deserialize(&[0u8; 5]).map(|_| ()), Err(DnsError::Truncated));
    let h = DnsHeader { id: 1, qdcount: 1, ..Default::default() };
    assert_eq!(DnsPacket::deserialize(&h.serialize().unwrap()).map(|_| ()), Err(DnsError::Truncated));
    let c = DnsAnswer { _type: DnsType::_Cname, ..Default::default() };
    let p = DnsPacket::new(h, vec![], Some(vec![c]));
    assert_eq!(p.serialize(), Err(DnsError::UnsupportedType(5)));
}
