use dns_forwarder::dns_serde::{DnsError, DnsSerialize};
use dns_forwarder::dns_type::DnsType;

#[test]
fn dns_type_it_serdes() {
    let t = DnsType::A(8, 8, 8, 8);

    let expected_bytes = [0, 4, 8, 8, 8, 8];
    assert_eq!(t.serialize_to_length_and_data().unwrap(), expected_bytes);
    assert_eq!(
        DnsType::deserialize(1u16.to_be_bytes(), &expected_bytes).unwrap().1,
        t
    );
}

#[test]
fn it_returns_correct_type_id() {
    assert_eq!(DnsType::A(8, 8, 8, 8).int_as_bytes(), [0, 1]);
    assert_eq!(DnsType::_Cname.int_as_bytes(), [0, 5]);
}

#[test]
fn type_codes_map_back() {
    assert_eq!(DnsType::from_bytes([0, 1]), DnsType::A(0, 0, 0, 0));
    assert_eq!(DnsType::from_bytes([0, 5]), DnsType::_Cname);
    assert_eq!(DnsType::from_bytes([0, 28]), DnsType::A(0, 0, 0, 0));
    assert_eq!(DnsType::from_bytes([1, 5]), DnsType::A(0, 0, 0, 0));
}

#[test]
fn cname_has_no_rdata_codec() {
    assert_eq!(
        DnsType::_Cname.serialize_to_length_and_data(),
        Err(DnsError::UnsupportedType(5))
    );
    assert_eq!(DnsType::_Cname.serialize(), Err(DnsError::UnsupportedType(5)));
    assert_eq!(
        DnsType::deserialize([0, 5], &[0, 4, 1, 2, 3, 4]),
        Err(DnsError::UnsupportedType(5))
    );
    assert_eq!(
        DnsType::deserialize([0, 28], &[0, 4, 1, 2, 3, 4]),
        Err(DnsError::UnsupportedType(28))
    );
}

#[test]
fn rdata_length_is_checked() {
    assert_eq!(
        DnsType::deserialize([0, 1], &[0, 16, 1, 2, 3, 4]),
        Err(DnsError::BadRdataLength(16))
    );
    assert_eq!(DnsType::deserialize([0, 1], &[0, 4, 1, 2, 3]), Err(DnsError::Truncated));
    assert_eq!(DnsType::deserialize([0, 1], &[0]), Err(DnsError::Truncated));
    let (rest, t) = DnsType::deserialize([0, 1], &[0, 4, 1, 2, 3, 4, 9]).unwrap();
    assert_eq!(t, DnsType::A(1, 2, 3, 4));
    assert_eq!(rest, &[9u8][..]);
}

#[test]
fn a_rdata_is_the_address() {
    assert_eq!(DnsType::A(10, 0, 0, 1).serialize().unwrap(), vec![10u8, 0, 0, 1]);
    assert_eq!(DnsType::default(), DnsType::A(0, 0, 0, 0));
}
