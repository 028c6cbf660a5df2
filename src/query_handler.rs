use crate::dns_answer::{AnswerModel, DnsAnswer};
use crate::dns_header::header_wf;
use crate::dns_packet::{
    all_answered, answers_or_empty, answers_round_trip, lemma_decoded_packet_fits, lemma_packet_round_trip,
    new_packet, prepared, questions_round_trip, with_answer, DnsPacket, PacketModel,
};
use crate::dns_question::{lemma_question_round_trip, DnsQuestion};
use crate::dns_serde::{lemma_serialize_all_ok, DnsDeserialize, DnsError, DnsSerialize};
use crate::label_seq::labels_fit;
use std::collections::HashMap;
use vstd::prelude::*;

verus! {

broadcast use vstd::std_specs::hash::group_hash_axioms;

/// The size of the receive buffer: classic DNS over UDP, without larger EDNS0 payloads.
pub const MAX_DATAGRAM: usize = 512;

/// A datagram that the handler asks the transport to send.
#[derive(Debug)]
pub enum Outbound<A> {
    /// A single-question query for the configured upstream resolver.
    Upstream(Vec<u8>),
    /// A finished response for the client at the given address.
    Reply(A, Vec<u8>),
}

/// The value of an outbound datagram.
pub enum OutboundModel<A> {
    Upstream(Seq<u8>),
    Reply(A, Seq<u8>),
}

impl<A> View for Outbound<A> {
    type V = OutboundModel<A>;

    open spec fn view(&self) -> OutboundModel<A> {
        match self {
            Outbound::Upstream(b) => OutboundModel::Upstream(b@),
            Outbound::Reply(a, b) => OutboundModel::Reply(*a, b@),
        }
    }
}

/// A pending entry can be extended and sent: its flags fit their widths, it has an answer
/// section, QDCOUNT is the number of its questions, and its questions and answers round-trip.
pub open spec fn pending_ok(p: PacketModel) -> bool {
    &&& header_wf(p.header)
    &&& p.answers is Some
    &&& p.questions.len() == p.header.qdcount
    &&& questions_round_trip(p.questions)
    &&& answers_round_trip(p.answers->Some_0)
}

/// Every pending entry can be extended and sent, and is stored under its own ID.
pub open spec fn pending_wf<A>(pending: Map<u16, (A, PacketModel)>) -> bool {
    forall|id: u16| #[trigger] pending.contains_key(id) ==> pending_ok(pending[id].1) && pending[id].1.header.id == id
}

/// The query forwarded upstream for question `i` of `p`: the query's header with QR 0 and the
/// counts and RCODE recomputed, that one question, and no answer section.
pub open spec fn forward_query(p: PacketModel, i: int) -> PacketModel {
    prepared(new_packet(p.header, seq![p.questions[i]], None), 0)
}

/// One upstream datagram per question of `p`, in order.
pub open spec fn forwards<A>(p: PacketModel) -> Seq<OutboundModel<A>> {
    Seq::new(p.questions.len(), |i: int| OutboundModel::Upstream(DnsPacket::spec_serialize(forward_query(p, i))->Ok_0))
}

/// The effect of an upstream response `r` on the pending map: its first answer, if it has one,
/// is appended to the entry with the same ID, if there is one; once every question has an
/// answer the entry is removed and its response sent to the client that asked.
pub open spec fn on_response<A>(pending: Map<u16, (A, PacketModel)>, r: PacketModel) -> (Map<u16, (A, PacketModel)>, Seq<OutboundModel<A>>) {
    let id = r.header.id;
    if !pending.contains_key(id) || r.answers->Some_0.len() == 0 {
        (pending, Seq::empty())
    } else {
        let (client, q) = pending[id];
        let q2 = with_answer(q, r.answers->Some_0[0]);
        if all_answered(q2) {
            (pending.remove(id), seq![OutboundModel::Reply(client, DnsPacket::spec_serialize(prepared(q2, 1))->Ok_0)])
        } else {
            (pending.insert(id, (client, q2)), Seq::empty())
        }
    }
}

/// One step of the handler on a datagram `data` from `source`: the new pending map and the
/// datagrams to send. Undecodable datagrams are dropped. A query (QR 0) is remembered under its
/// ID and each of its questions forwarded upstream; anything else is a response from upstream.
pub open spec fn handler_step<A>(pending: Map<u16, (A, PacketModel)>, data: Seq<u8>, source: A) -> (Map<u16, (A, PacketModel)>, Seq<OutboundModel<A>>) {
    match DnsPacket::spec_deserialize(data) {
        Err(_) => (pending, Seq::empty()),
        Ok((_, p)) => if p.header.qr == 0 {
            (pending.insert(p.header.id, (source, p)), forwards(p))
        } else {
            on_response(pending, p)
        },
    }
}

/// The forwarded query for question `i` of a query whose flags fit and whose questions
/// round-trip encodes, and decodes back to itself with an empty answer section.
proof fn lemma_forward_round_trip(p: PacketModel, i: int, rest: Seq<u8>)
    requires
        header_wf(p.header),
        questions_round_trip(p.questions),
        0 <= i < p.questions.len(),
    ensures
        DnsPacket::spec_serialize(forward_query(p, i)) matches Ok(b) && DnsPacket::spec_deserialize(b + rest)
            == Ok::<(nat, PacketModel), DnsError>(
            (b.len(), PacketModel { answers: Some(Seq::<AnswerModel>::empty()), ..forward_query(p, i) }),
        ),
{
    let f = forward_query(p, i);
    assert(questions_round_trip(f.questions)) by {
        assert(f.questions == seq![p.questions[i]]);
    }
    assert(answers_or_empty(f.answers) =~= Seq::<AnswerModel>::empty());
    lemma_packet_round_trip(f, rest);
}

/// Appending a record of type A with fitting labels keeps a pending entry sendable.
proof fn lemma_with_answer_ok(q: PacketModel, a: AnswerModel)
    requires
        pending_ok(q),
        labels_fit(a.name),
        a._type is A,
    ensures
        pending_ok(with_answer(q, a)),
{
    let ans = with_answer(q, a).answers->Some_0;
    assert(ans == q.answers->Some_0.push(a));
    assert forall|i: int| 0 <= i < ans.len() implies labels_fit(#[trigger] ans[i].name) && ans[i]._type is A by {
        if i < q.answers->Some_0.len() {
            assert(ans[i] == q.answers->Some_0[i]);
        }
    }
}

/// The reply for a pending entry that `a` completes encodes, and decodes back to itself.
proof fn lemma_reply_round_trip(q: PacketModel, a: AnswerModel, rest: Seq<u8>)
    requires
        pending_ok(q),
        labels_fit(a.name),
        a._type is A,
        all_answered(with_answer(q, a)),
    ensures
        DnsPacket::spec_serialize(prepared(with_answer(q, a), 1)) matches Ok(b) && DnsPacket::spec_deserialize(
            b + rest,
        ) == Ok::<(nat, PacketModel), DnsError>((b.len(), prepared(with_answer(q, a), 1))),
{
    let q2 = with_answer(q, a);
    let p = prepared(q2, 1);
    let ans = q2.answers->Some_0;
    lemma_with_answer_ok(q, a);
    assert(p.answers == Some(ans));
    assert(answers_or_empty(p.answers) == ans);
    lemma_packet_round_trip(p, rest);
    assert(PacketModel { answers: Some(answers_or_empty(p.answers)), ..p } == p);
}

/// Every datagram that a step of the handler sends decodes back. An upstream datagram is a
/// query (QR 0) with the ID of the client's query and exactly one of its questions, in order,
/// and an empty answer section. A reply is a response (QR 1) with the ID of the upstream
/// response, as many answers as questions, QDCOUNT and ANCOUNT equal to those lengths, and
/// RCODE 0 for a standard query or 4 for any other opcode.
pub proof fn lemma_step_datagrams_decode<A>(pending: Map<u16, (A, PacketModel)>, data: Seq<u8>, source: A)
    requires
        pending_wf(pending),
    ensures
        ({
            let out = handler_step(pending, data, source).1;
            let p = DnsPacket::spec_deserialize(data)->Ok_0.1;
            forall|i: int| 0 <= i < out.len() ==> match #[trigger] out[i] {
                OutboundModel::Upstream(b) => DnsPacket::spec_deserialize(b) matches Ok((n, d)) && n == b.len()
                    && d.header.qr == 0 && d.header.id == p.header.id && d.header.qdcount == 1 && d.questions
                    == seq![p.questions[i]] && d.answers == Some(Seq::<AnswerModel>::empty()),
                OutboundModel::Reply(_, b) => DnsPacket::spec_deserialize(b) matches Ok((n, d)) && n == b.len()
                    && d.header.qr == 1 && d.header.id == p.header.id && d.questions.len() == d.header.qdcount
                    && d.answers is Some && d.answers->Some_0.len() == d.header.ancount
                    && d.answers->Some_0.len() == d.questions.len()
                    && d.header.rcode == (if d.header.opcode == 0 { 0u8 } else { 4u8 }),
            }
        }),
{
    lemma_decoded_packet_fits(data);
    if let Ok((_, p)) = DnsPacket::spec_deserialize(data) {
        let out = handler_step(pending, data, source).1;
        if p.header.qr == 0 {
            assert forall|i: int| 0 <= i < out.len() implies match #[trigger] out[i] {
                OutboundModel::Upstream(b) => DnsPacket::spec_deserialize(b) matches Ok((n, d)) && n == b.len()
                    && d.header.qr == 0 && d.header.id == p.header.id && d.header.qdcount == 1 && d.questions
                    == seq![p.questions[i]] && d.answers == Some(Seq::<AnswerModel>::empty()),
                OutboundModel::Reply(_, b) => false,
            } by {
                lemma_forward_round_trip(p, i, Seq::empty());
                let b = DnsPacket::spec_serialize(forward_query(p, i))->Ok_0;
                assert(b + Seq::<u8>::empty() =~= b);
            }
        } else if pending.contains_key(p.header.id) && p.answers->Some_0.len() > 0 {
            let q = pending[p.header.id].1;
            let a = p.answers->Some_0[0];
            if all_answered(with_answer(q, a)) {
                lemma_reply_round_trip(q, a, Seq::empty());
                let b = DnsPacket::spec_serialize(prepared(with_answer(q, a), 1))->Ok_0;
                assert(b + Seq::<u8>::empty() =~= b);
                assert(out.len() == 1);
            }
        }
    }
}

/// Forwards queries upstream one question at a time and reassembles the answers into the
/// response for the client, correlating by transaction ID.
///
/// Answers are matched to a query by ID alone and appended in the order they arrive. Entries
/// whose answers never come stay pending: nothing expires them.
pub struct QueryHandler<A> {
    pending_queries: HashMap<u16, (A, DnsPacket)>,
}

impl<A> View for QueryHandler<A> {
    type V = Map<u16, (A, PacketModel)>;

    closed spec fn view(&self) -> Map<u16, (A, PacketModel)> {
        self.pending_queries@.map_values(|e: (A, DnsPacket)| (e.0, e.1@))
    }
}

impl<A> QueryHandler<A> {
    /// Every pending entry can be extended and sent, and is stored under its own ID.
    pub open spec fn wf(&self) -> bool {
        pending_wf(self@)
    }

    /// A handler with nothing pending.
    pub fn new() -> (r: Self)
        ensures
            r@ == Map::<u16, (A, PacketModel)>::empty(),
            r.wf(),
    {
        let r = QueryHandler { pending_queries: HashMap::new() };
        proof {
            assert(r@ =~= Map::<u16, (A, PacketModel)>::empty());
        }
        r
    }

    /// Whether a query with transaction ID `id` is waiting for answers.
    pub fn is_pending(&self, id: u16) -> (r: bool)
        ensures
            r == self@.contains_key(id),
    {
        self.pending_queries.contains_key(&id)
    }

    /// Handles one datagram from `source_addr`: a query is remembered and its questions are
    /// forwarded upstream one per datagram; an upstream response adds its first answer to the
    /// pending query with the same ID and, once every question is answered, completes it.
    /// Datagrams that do not decode are dropped. Returns the datagrams to send.
    pub fn handle_query(&mut self, query_bytes: &[u8], source_addr: A) -> (out: Vec<Outbound<A>>)
        requires
            old(self).wf(),
        ensures
            final(self).wf(),
            (final(self)@, out@.map_values(|o: Outbound<A>| o@)) == handler_step(old(self)@, query_bytes@, source_addr),
    {
        let packet = match DnsPacket::deserialize(query_bytes) {
            Ok((_, p)) => p,
            Err(_) => {
                let out: Vec<Outbound<A>> = Vec::new();
                proof {
                    assert(out@.map_values(|o: Outbound<A>| o@) =~= Seq::<OutboundModel<A>>::empty());
                }
                return out;
            },
        };
        proof {
            lemma_decoded_packet_fits(query_bytes@);
            let pv = packet@;
            assert forall|i: int| 0 <= i < pv.questions.len() implies #[trigger] DnsQuestion::spec_serialize(pv.questions[i]) is Ok by {
                lemma_question_round_trip(pv.questions[i], Seq::empty());
            }
        }
        if packet.header.qr == 0 {
            let out = forward_datagrams(&packet);
            let id = packet.header.id;
            let ghost pv = packet@;
            self.pending_queries.insert(id, (source_addr, packet));
            proof {
                assert(self@ =~= old(self)@.insert(id, (source_addr, pv)));
            }
            out
        } else {
            self.take_answer(packet)
        }
    }

    /// Adds the first answer of the upstream response `r` to the pending query with its ID.
    #[verifier::rlimit(40)]
    fn take_answer(&mut self, r: DnsPacket) -> (out: Vec<Outbound<A>>)
        requires
            old(self).wf(),
            r@.answers is Some,
            answers_round_trip(r@.answers->Some_0),
        ensures
            final(self).wf(),
            (final(self)@, out@.map_values(|o: Outbound<A>| o@)) == on_response(old(self)@, r@),
    {
        let ghost rv = r@;
        let id = r.header.id;
        let (_, _, answers) = r.into_parts();
        let mut answers = match answers {
            Some(a) => a,
            None => Vec::new(),
        };
        let none: Vec<Outbound<A>> = Vec::new();
        proof {
            assert(rv.answers->Some_0 == answers@.map_values(|x: DnsAnswer| x@));
            assert(none@.map_values(|o: Outbound<A>| o@) =~= Seq::<OutboundModel<A>>::empty());
        }
        if answers.len() == 0 {
            return none;
        }
        let first = answers.swap_remove(0);
        proof {
            assert(first@ == rv.answers->Some_0[0]);
        }
        let entry = self.pending_queries.remove(&id);
        match entry {
            None => {
                proof {
                    assert(self@ =~= old(self)@);
                }
                none
            },
            Some((client, mut q)) => {
                let ghost qv = q@;
                proof {
                    assert(old(self)@.contains_key(id));
                    assert(old(self)@[id] == (client, qv));
                    assert(self@ =~= old(self)@.remove(id));
                }
                proof {
                    assert(pending_ok(qv));
                    let ra = rv.answers->Some_0;
                    assert(labels_fit(ra[0].name) && ra[0]._type is A);
                    lemma_with_answer_ok(qv, first@);
                }
                q.add_answer(first);
                if q.all_questions_answered() {
                    q.prepare_for_response(1);
                    proof {
                        lemma_reply_round_trip(qv, first@, Seq::empty());
                    }
                    match q.serialize() {
                        Ok(bytes) => {
                            let out = vec![Outbound::Reply(client, bytes)];
                            proof {
                                assert(out@.map_values(|o: Outbound<A>| o@) =~= on_response(old(self)@, rv).1);
                            }
                            out
                        },
                        Err(_) => {
                            proof {
                                assert(false);
                            }
                            none
                        },
                    }
                } else {
                    self.pending_queries.insert(id, (client, q));
                    proof {
                        assert(self@ =~= old(self)@.insert(id, (client, q@)));
                    }
                    none
                }
            },
        }
    }
}

/// One upstream datagram per question of `p`, in order.
fn forward_datagrams<A>(p: &DnsPacket) -> (out: Vec<Outbound<A>>)
    requires
        p@.questions.len() <= 0xffff,
        forall|i: int| 0 <= i < p@.questions.len() ==> #[trigger] DnsQuestion::spec_serialize(p@.questions[i]) is Ok,
    ensures
        out@.map_values(|o: Outbound<A>| o@) == forwards::<A>(p@),
{
    let mut out: Vec<Outbound<A>> = Vec::new();
    let mut i: usize = 0;
    while i < p.questions.len()
        invariant
            i <= p.questions@.len(),
            p@.questions.len() <= 0xffff,
            forall|j: int| 0 <= j < p@.questions.len() ==> #[trigger] DnsQuestion::spec_serialize(p@.questions[j]) is Ok,
            out@.map_values(|o: Outbound<A>| o@) == forwards::<A>(p@).take(i as int),
        decreases p.questions@.len() - i,
    {
        let q = p.questions[i].clone();
        let mut fwd = DnsPacket::new(p.header, vec![q], None);
        fwd.prepare_for_response(0);
        proof {
            assert(fwd@.questions =~= seq![p@.questions[i as int]]);
            assert(fwd@ == forward_query(p@, i as int));
            lemma_serialize_all_ok::<DnsQuestion>(fwd@.questions);
            assert(DnsQuestion::spec_serialize(p@.questions[i as int]) is Ok);
        }
        match fwd.serialize() {
            Ok(bytes) => {
                let ghost before = out@;
                proof {
                    assert(DnsPacket::spec_serialize(fwd@) == Ok::<Seq<u8>, DnsError>(bytes@));
                }
                let ghost bv = bytes@;
                out.push(Outbound::Upstream(bytes));
                proof {
                    let f = forwards::<A>(p@);
                    assert(f[i as int] == OutboundModel::<A>::Upstream(bv));
                    assert(out@.map_values(|o: Outbound<A>| o@) =~= before.map_values(|o: Outbound<A>| o@).push(
                        OutboundModel::<A>::Upstream(bv),
                    ));
                    assert(f.take(i + 1) =~= f.take(i as int).push(f[i as int]));
                }
            },
            Err(_) => {
                proof {
                    assert(false);
                }
            },
        }
        i = i + 1;
    }
    proof {
        assert(forwards::<A>(p@).take(i as int) =~= forwards::<A>(p@));
    }
    out
}

} // verus!
