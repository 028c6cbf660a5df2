use dns_forwarder::dns_answer::DnsAnswer;
use dns_forwarder::dns_question::DnsQuestion;
use dns_forwarder::dns_serde::{DnsError, DnsSerialize};
use dns_forwarder::dns_type::DnsType;
use dns_forwarder::label_seq::LabelSeq;

#[test]
fn it_serdes_multiple() {
    let q1 = DnsQuestion {
        name: LabelSeq::_new("codecrafters.io"),
        ..Default::default()
    };
    let q2 = DnsQuestion {
        name: LabelSeq::_new("google.com"),
        ..Default::default()
    };
    let mut the_bytes = q1.serialize().unwrap();
    the_bytes.extend_from_slice(&q2.serialize().unwrap());

    let (remainder, r) = DnsQuestion::deserialize_multiple(&the_bytes, 2).unwrap();
    assert_eq!(r.len(), 2);
    assert_eq!(r[0], q1);
    assert_eq!(r[1], q2);
    assert_eq!(remainder.len(), 0);
}

#[test]
fn multiple_stops_at_first_error() {
    let q = DnsQuestion { name: LabelSeq::_new("a"), ..Default::default() };
    let bytes = q.serialize().unwrap();
    assert_eq!(DnsQuestion::deserialize_multiple(&bytes, 2), Err(DnsError::Truncated));
    let (rest, none) = DnsQuestion::deserialize_multiple(&bytes, 0).unwrap();
    assert!(none.is_empty());
    assert_eq!(rest.len(), bytes.len());
}

#[test]
fn multiple_answers_leave_the_rest() {
    let a = DnsAnswer { name: LabelSeq::_new("a"), _type: DnsType::A(1, 1, 1, 1), ..Default::default() };
    let b = DnsAnswer { name: LabelSeq::_new("b"), _type: DnsType::A(2, 2, 2, 2), ..Default::default() };
    let mut bytes = a.serialize().unwrap();
    bytes.extend_from_slice(&b.serialize().unwrap());
    bytes.push(1);
    let (rest, r) = DnsAnswer::deserialize_multiple(&bytes, 2).unwrap();
    assert_eq!(r, vec![a, b]);
    assert_eq!(rest, &[1u8][..]);
}
