use dns_forwarder::dns_header::DnsHeader;
use dns_forwarder::dns_serde::{DnsDeserialize, DnsError, DnsSerialize};

#[test]
fn dns_header_it_serdes() {
    let h = DnsHeader {
        id: 1234,
        qr: 1,
        opcode: 2,
        aa: 1,
        tc: 0,
        rd: 1,
        ra: 0,     // 0b00000000
        z: 7,      // 0b00000111
        rcode: 15, // 0b00001111
        qdcount: 2,
        ancount: 2,
        nscount: 7,
        arcount: 8,
    };
    let expected_bytes = [4, 210, 149, 127, 0, 2, 0, 2, 0, 7, 0, 8];
    assert_eq!(h.serialize().unwrap(), expected_bytes);
    let (remainder, dh) = DnsHeader::deserialize(&expected_bytes).unwrap();
    assert_eq!(dh, h);
    assert_eq!(remainder.len(), 0);
}

#[test]
fn short_header_is_truncated() {
    assert_eq!(DnsHeader::deserialize(&[0u8; 11]), Err(DnsError::Truncated));
    assert_eq!(DnsHeader::deserialize(&[]), Err(DnsError::Truncated));
}

#[test]
fn header_round_trip_keeps_trailing_bytes() {
    let h = DnsHeader {
        id: 0xffff,
        qr: 0,
        opcode: 15,
        aa: 0,
        tc: 1,
        rd: 0,
        ra: 1,
        z: 0,
        rcode: 3,
        qdcount: 65535,
        ancount: 256,
        nscount: 1,
        arcount: 0,
    };
    let mut bytes = h.serialize().unwrap();
    assert_eq!(bytes, vec![255, 255, 0b0111_1010, 0b1000_0011, 255, 255, 1, 0, 0, 1, 0, 0]);
    bytes.push(42);
    let (rest, back) = DnsHeader::deserialize(&bytes).unwrap();
    assert_eq!(back, h);
    assert_eq!(rest, &[42u8][..]);
}

#[test]
fn response_header_sets_qr_and_rcode() {
    let q = DnsHeader { id: 5, opcode: 0, rcode: 9, rd: 1, ..Default::default() };
    let r = DnsHeader::create_response(q);
    assert_eq!(r, DnsHeader { qr: 1, rcode: 0, ..q });
    let q2 = DnsHeader { id: 6, opcode: 2, ..Default::default() };
    let r2 = DnsHeader::create_response(q2);
    assert_eq!(r2.qr, 1);
    assert_eq!(r2.rcode, 4);
    assert_eq!(r2.opcode, 2);
}
