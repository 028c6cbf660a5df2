use crate::dns_answer::{answer_for, resolved_type, AnswerModel, DnsAnswer};
use crate::dns_header::{response_header, DnsHeader};
use crate::dns_packet::{lemma_decoded_packet_fits, new_packet, DnsPacket};
use crate::dns_question::{DnsQuestion, QuestionModel};
use crate::dns_serde::{bytes_result, DnsDeserialize, DnsError, DnsSerialize};
use vstd::prelude::*;

verus! {

/// The stub answer to a question: same name, type and class, TTL 0, and an A record resolved
/// to the fixed address.
pub open spec fn stub_answer(q: QuestionModel) -> AnswerModel {
    AnswerModel { _type: resolved_type(q._type), ..answer_for(q) }
}

/// Answers every question with the stub resolver, in order.
pub fn questions_as_answers(questions: &[DnsQuestion]) -> (r: Vec<DnsAnswer>)
    ensures
        r@.map_values(|a: DnsAnswer| a@) == questions@.map_values(|q: DnsQuestion| stub_answer(q@)),
{
    let mut answers: Vec<DnsAnswer> = Vec::new();
    let mut i: usize = 0;
    while i < questions.len()
        invariant
            i <= questions@.len(),
            answers@.map_values(|a: DnsAnswer| a@) == questions@.take(i as int).map_values(|q: DnsQuestion| stub_answer(q@)),
        decreases questions@.len() - i,
    {
        let mut answer = DnsAnswer::from(&questions[i]);
        answer.resolve();
        let ghost before = answers@;
        answers.push(answer);
        proof {
            assert(answers@.map_values(|a: DnsAnswer| a@) =~= before.map_values(|a: DnsAnswer| a@).push(answer@));
            assert(questions@.take(i + 1).map_values(|q: DnsQuestion| stub_answer(q@)) =~= questions@.take(
                i as int,
            ).map_values(|q: DnsQuestion| stub_answer(q@)).push(stub_answer(questions@[i as int]@)));
        }
        i = i + 1;
    }
    proof {
        assert(questions@.take(i as int) =~= questions@);
    }
    answers
}

/// The stub resolver's response to a query: the response header, the questions, and one
/// resolved answer per question. A query that does not decode gives its decoding error.
pub fn create_response(query_bytes: &[u8]) -> (r: Result<Vec<u8>, DnsError>)
    ensures
        match DnsPacket::spec_deserialize(query_bytes@) {
            Err(e) => r == Err::<Vec<u8>, DnsError>(e),
            Ok((_, p)) => bytes_result(r) == DnsPacket::spec_serialize(
                new_packet(
                    response_header(p.header),
                    p.questions,
                    Some(p.questions.map_values(|q: QuestionModel| stub_answer(q))),
                ),
            ),
        },
{
    let (_, packet) = DnsPacket::deserialize(query_bytes)?;
    proof {
        lemma_decoded_packet_fits(query_bytes@);
    }
    let (header, questions, _) = packet.into_parts();
    let response_header = DnsHeader::create_response(header);
    let answers = questions_as_answers(questions.as_slice());
    proof {
        assert(answers@.map_values(|a: DnsAnswer| a@) =~= questions@.map_values(|q: DnsQuestion| q@).map_values(
            |q: QuestionModel| stub_answer(q),
        ));
    }
    let dns_packet = DnsPacket::new(response_header, questions, Some(answers));
    dns_packet.serialize()
}

} // verus!
