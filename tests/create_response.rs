use dns_forwarder::create_response::{create_response, questions_as_answers};
use dns_forwarder::dns_answer::DnsAnswer;
use dns_forwarder::dns_header::DnsHeader;
use dns_forwarder::dns_packet::DnsPacket;
use dns_forwarder::dns_question::DnsQuestion;
use dns_forwarder::dns_serde::{DnsDeserialize, DnsError, DnsSerialize};
use dns_forwarder::dns_type::DnsType;
use dns_forwarder::label_seq::LabelSeq;

#[test]
fn it_converts_questions_to_answers() {
    let q = DnsQuestion {
        name: LabelSeq::_new("google.com"),
        ..Default::default()
    };
    let ans = questions_as_answers(&vec![q]);
    assert_eq!(ans.len(), 1);
    assert_eq!(
        ans[0],
        DnsAnswer {
            name: LabelSeq::_new("google.com"),
            _type: DnsType::A(8, 8, 8, 8),
            ..Default::default()
        }
    )
}

#[test]
fn stub_response_answers_every_question() {
    let h = DnsHeader { id: 77, opcode: 0, rd: 1, ..Default::default() };
    let q1 = DnsQuestion { name: LabelSeq::_new("a.org"), ..Default::default() };
    let q2 = DnsQuestion { name: LabelSeq::_new("b.org"), ..Default::default() };
    let query = DnsPacket::new(h, vec![q1.clone(), q2.clone()], None).serialize().unwrap();
    let bytes = create_response(&query).unwrap();
    let (_, r) = DnsPacket::deserialize(&bytes).unwrap();
    assert_eq!(r.header.id, 77);
    assert_eq!(r.header.qr, 1);
    assert_eq!(r.header.rcode, 0);
    assert_eq!(r.header.qdcount, 2);
    assert_eq!(r.header.ancount, 2);
    assert_eq!(r.questions, vec![q1, q2]);
    let answers = r.answers.unwrap();
    assert_eq!(answers[1].name, LabelSeq::_new("b.org"));
    assert_eq!(answers[1]._type, DnsType::A(8, 8, 8, 8));
    assert_eq!(create_response(&[1, 2, 3]), Err(DnsError::Truncated));
}
