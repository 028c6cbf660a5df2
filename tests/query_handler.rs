use dns_forwarder::dns_answer::DnsAnswer;
use dns_forwarder::dns_header::DnsHeader;
use dns_forwarder::dns_packet::DnsPacket;
use dns_forwarder::dns_question::DnsQuestion;
use dns_forwarder::dns_serde::{DnsDeserialize, DnsSerialize};
use dns_forwarder::dns_type::DnsType;
use dns_forwarder::label_seq::LabelSeq;
use dns_forwarder::query_handler::{Outbound, QueryHandler};

fn question(name: &str) -> DnsQuestion {
    DnsQuestion { name: LabelSeq::_new(name), ..Default::default() }
}

fn upstream_reply(id: u16, name: &str, addr: (u8, u8, u8, u8)) -> Vec<u8> {
    let h = DnsHeader { id, qr: 1, ..Default::default() };
    let a = DnsAnswer {
        name: LabelSeq::_new(name),
        _type: DnsType::A(addr.0, addr.1, addr.2, addr.3),
        ..Default::default()
    };
    DnsPacket::new(h, vec![question(name)], Some(vec![a])).serialize().unwrap()
}

#[test]
fn handler_forwards_and_reassembles() {
    let mut handler: QueryHandler<&str> = QueryHandler::new();
    let h = DnsHeader { id: 7, qr: 0, rd: 1, ..Default::default() };
    let query = DnsPacket::new(h, vec![question("example.com")], None).serialize().unwrap();

    let out = handler.handle_query(&query, "S");
    assert_eq!(out.len(), 1);
    let forwarded = match &out[0] {
        Outbound::Upstream(b) => b.clone(),
        Outbound::Reply(..) => panic!("expected an upstream datagram"),
    };
    let (_, f) = DnsPacket::deserialize(&forwarded).unwrap();
    assert_eq!(f.header.qr, 0);
    assert_eq!(f.header.id, 7);
    assert_eq!(f.header.qdcount, 1);
    assert_eq!(f.questions, vec![question("example.com")]);
    assert!(handler.is_pending(7));

    let reply = upstream_reply(7, "example.com", (8, 8, 8, 8));
    let out = handler.handle_query(&reply, "upstream");
    assert_eq!(out.len(), 1);
    let (to, bytes) = match &out[0] {
        Outbound::Reply(to, b) => (*to, b.clone()),
        Outbound::Upstream(_) => panic!("expected a reply"),
    };
    assert_eq!(to, "S");
    let (_, r) = DnsPacket::deserialize(&bytes).unwrap();
    assert_eq!(r.header.qr, 1);
    assert_eq!(r.header.id, 7);
    assert_eq!(r.header.qdcount, 1);
    assert_eq!(r.header.ancount, 1);
    assert_eq!(r.questions.len(), 1);
    let answers = r.answers.unwrap();
    assert_eq!(answers.len(), 1);
    assert_eq!(answers[0]._type, DnsType::A(8, 8, 8, 8));
    assert!(!handler.is_pending(7));
}

#[test]
fn handler_drops_unmatched_response() {
    let mut handler: QueryHandler<u32> = QueryHandler::new();
    let out = handler.handle_query(&upstream_reply(99, "x.net", (1, 2, 3, 4)), 5);
    assert!(out.is_empty());
    assert!(!handler.is_pending(99));
}

#[test]
fn handler_waits_for_every_question() {
    let mut handler: QueryHandler<u32> = QueryHandler::new();
    let h = DnsHeader { id: 21, ..Default::default() };
    let query = DnsPacket::new(h, vec![question("a.net"), question("b.net")], None)
        .serialize()
        .unwrap();
    let out = handler.handle_query(&query, 1);
    assert_eq!(out.len(), 2);
    let out = handler.handle_query(&upstream_reply(21, "a.net", (1, 1, 1, 1)), 2);
    assert!(out.is_empty());
    assert!(handler.is_pending(21));
    let out = handler.handle_query(&upstream_reply(21, "b.net", (2, 2, 2, 2)), 2);
    assert_eq!(out.len(), 1);
    match &out[0] {
        Outbound::Reply(to, b) => {
            assert_eq!(*to, 1);
            let (_, r) = DnsPacket::deserialize(b).unwrap();
            assert_eq!(r.header.ancount, 2);
        }
        Outbound::Upstream(_) => panic!("expected a reply"),
    }
    assert!(!handler.is_pending(21));
}

#[test]
fn handler_ignores_garbage_and_empty_replies() {
    let mut handler: QueryHandler<u32> = QueryHandler::new();
    assert!(handler.handle_query(&[1, 2, 3], 1).is_empty());
    let h = DnsHeader { id: 4, ..Default::default() };
    let query = DnsPacket::new(h, vec![question("c.net")], None).serialize().unwrap();
    assert_eq!(handler.handle_query(&query, 1).len(), 1);
    let empty = DnsPacket::new(DnsHeader { id: 4, qr: 1, ..Default::default() }, vec![question("c.net")], Some(vec![]))
        .serialize()
        .unwrap();
    assert!(handler.handle_query(&empty, 2).is_empty());
    assert!(handler.is_pending(4));
}

#[test]
fn handler_appends_to_entry_without_questions() {
    let mut handler: QueryHandler<u32> = QueryHandler::new();
    let query = DnsPacket::new(DnsHeader { id: 30, ..Default::default() }, vec![], None)
        .serialize()
        .unwrap();
    assert!(handler.handle_query(&query, 1).is_empty());
    assert!(handler.is_pending(30));
    let out = handler.handle_query(&upstream_reply(30, "d.net", (4, 4, 4, 4)), 2);
    assert!(out.is_empty());
    assert!(handler.is_pending(30));
}

#[test]
fn handler_keeps_answers_carried_by_query() {
    let mut handler: QueryHandler<u32> = QueryHandler::new();
    let h = DnsHeader { id: 31, ..Default::default() };
    let carried = DnsAnswer {
        name: LabelSeq::_new("e.net"),
        _type: DnsType::A(9, 9, 9, 9),
        ..Default::default()
    };
    let query = DnsPacket::new(h, vec![question("e.net"), question("f.net")], Some(vec![carried.clone()]))
        .serialize()
        .unwrap();
    assert_eq!(handler.handle_query(&query, 1).len(), 2);
    let out = handler.handle_query(&upstream_reply(31, "f.net", (5, 5, 5, 5)), 2);
    assert_eq!(out.len(), 1);
    match &out[0] {
        Outbound::Reply(to, b) => {
            assert_eq!(*to, 1);
            let (_, r) = DnsPacket::deserialize(b).unwrap();
            let answers = r.answers.unwrap();
            assert_eq!(answers.len(), 2);
            assert_eq!(answers[0], carried);
            assert_eq!(answers[1]._type, DnsType::A(5, 5, 5, 5));
        }
        Outbound::Upstream(_) => panic!("expected a reply"),
    }
    assert!(!handler.is_pending(31));
}
