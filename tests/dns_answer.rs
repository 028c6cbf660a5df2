use dns_forwarder::dns_answer::DnsAnswer;
use dns_forwarder::dns_question::DnsQuestion;
use dns_forwarder::dns_serde::{DnsDeserialize, DnsError, DnsSerialize};
use dns_forwarder::dns_type::DnsType;
use dns_forwarder::label_seq::LabelSeq;

#[test]
fn dns_answer_it_serdes() {
    let a = DnsAnswer {
        name: LabelSeq::_new("codecrafters.io"),
        _type: DnsType::A(8, 8, 8, 8),
        ..Default::default()
    };
    let expected_bytes = [
        12, 99, 111, 100, 101, 99, 114, 97, 102, 116, 101, 114, 115, 2, 105, 111, 0, 0, 1, 0,
        1, 0, 0, 0, 0, 0, 4, 8, 8, 8, 8,
    ];
    assert_eq!(a.serialize().unwrap(), expected_bytes);
    let (remainder, da) = DnsAnswer::deserialize(&expected_bytes).unwrap();
    assert_eq!(da, a);
    assert_eq!(remainder.len(), 0);
}

#[test]
fn answer_ttl_and_class_round_trip() {
    let a = DnsAnswer {
        name: LabelSeq::_new("n"),
        _type: DnsType::A(1, 2, 3, 4),
        _class: 0x0304,
        ttl: 0x0a0b0c0d,
    };
    let bytes = a.serialize().unwrap();
    assert_eq!(bytes, vec![1, b'n', 0, 0, 1, 3, 4, 10, 11, 12, 13, 0, 4, 1, 2, 3, 4]);
    let (rest, back) = DnsAnswer::deserialize(&bytes).unwrap();
    assert_eq!(back, a);
    assert!(rest.is_empty());
}

#[test]
fn answer_errors() {
    let cname = DnsAnswer { name: LabelSeq::_new("n"), _type: DnsType::_Cname, _class: 1, ttl: 0 };
    assert_eq!(cname.serialize(), Err(DnsError::UnsupportedType(5)));
    assert_eq!(
        DnsAnswer::deserialize(&[1, b'n', 0, 0, 5, 0, 1, 0, 0, 0, 0, 0, 4, 1, 2, 3, 4]),
        Err(DnsError::UnsupportedType(5))
    );
    assert_eq!(
        DnsAnswer::deserialize(&[1, b'n', 0, 0, 1, 0, 1, 0, 0, 0, 0, 0, 2, 1, 2]),
        Err(DnsError::BadRdataLength(2))
    );
    assert_eq!(DnsAnswer::deserialize(&[1, b'n', 0, 0, 1, 0, 1, 0]), Err(DnsError::Truncated));
    let long = DnsAnswer { name: LabelSeq::_new(&"a".repeat(300)), ..Default::default() };
    assert_eq!(long.serialize(), Err(DnsError::LabelTooLong));
}

#[test]
fn answer_from_question_and_resolve() {
    let q = DnsQuestion { name: LabelSeq::_new("google.com"), _type: DnsType::A(0, 0, 0, 0), _class: 1 };
    let mut a = DnsAnswer::from(&q);
    assert_eq!(
        a,
        DnsAnswer { name: LabelSeq::_new("google.com"), _type: DnsType::A(0, 0, 0, 0), _class: 1, ttl: 0 }
    );
    a.resolve();
    assert_eq!(a._type, DnsType::A(8, 8, 8, 8));
    let mut c = DnsAnswer { _type: DnsType::_Cname, ..Default::default() };
    c.resolve();
    assert_eq!(c._type, DnsType::_Cname);
}
