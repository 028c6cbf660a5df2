use crate::dns_answer::{lemma_answer_round_trip, lemma_decoded_answer_fits, AnswerModel, DnsAnswer};
use crate::dns_header::{header_wf, lemma_decoded_header_wf, lemma_header_round_trip, DnsHeader};
use crate::dns_question::{lemma_decoded_question_fits, lemma_question_decodes, lemma_question_round_trip, DnsQuestion, QuestionModel};
use crate::dns_type::{type_code, type_from_code};
use crate::label_seq::labels_fit;
use crate::dns_serde::{
    lemma_parse_many_bounded, lemma_parse_many_decoded, lemma_run_parses_back, lemma_run_round_trip, parses_back, round_trips, serialize_all, spec_parse_many, spec_serialize_all,
    DnsDeserialize, DnsError, DnsSerialize,
};
use vstd::prelude::*;

verus! {

/// A DNS message: header, questions, and an answer section that may be absent.
#[derive(Debug)]
pub struct DnsPacket {
    pub header: DnsHeader,
    pub questions: Vec<DnsQuestion>,
    pub answers: Option<Vec<DnsAnswer>>,
}

/// The value of a message. An absent answer section differs from an empty one.
pub struct PacketModel {
    pub header: DnsHeader,
    pub questions: Seq<QuestionModel>,
    pub answers: Option<Seq<AnswerModel>>,
}

/// The values of a list of questions.
pub open spec fn questions_view(qs: Seq<DnsQuestion>) -> Seq<QuestionModel> {
    qs.map_values(|q: DnsQuestion| q@)
}

/// The values of an optional list of answers.
pub open spec fn answers_view(ans: Option<Vec<DnsAnswer>>) -> Option<Seq<AnswerModel>> {
    match ans {
        Some(a) => Some(a@.map_values(|x: DnsAnswer| x@)),
        None => None,
    }
}

impl View for DnsPacket {
    type V = PacketModel;

    open spec fn view(&self) -> PacketModel {
        PacketModel {
            header: self.header,
            questions: questions_view(self.questions@),
            answers: answers_view(self.answers),
        }
    }
}

/// The number of answers: the length of the section, or 0 where there is none.
pub open spec fn answer_count(ans: Option<Seq<AnswerModel>>) -> nat {
    match ans {
        Some(a) => a.len(),
        None => 0,
    }
}

/// The message built from a header, questions and answers, with QDCOUNT and ANCOUNT taken from
/// the lists and never from the header given.
pub open spec fn new_packet(h: DnsHeader, qs: Seq<QuestionModel>, ans: Option<Seq<AnswerModel>>) -> PacketModel {
    PacketModel {
        header: DnsHeader { qdcount: qs.len() as u16, ancount: answer_count(ans) as u16, ..h },
        questions: qs,
        answers: ans,
    }
}

/// The message with `a` appended to its answer section; unchanged when it has none.
pub open spec fn with_answer(p: PacketModel, a: AnswerModel) -> PacketModel {
    match p.answers {
        Some(ans) => PacketModel { answers: Some(ans.push(a)), ..p },
        None => p,
    }
}

/// The answer section holds as many records as QDCOUNT announces questions, or there is no
/// section and QDCOUNT is 0.
pub open spec fn all_answered(p: PacketModel) -> bool {
    match p.answers {
        Some(ans) => ans.len() == p.header.qdcount,
        None => p.header.qdcount == 0,
    }
}

/// The message made ready to send: QR set to `qr`, the counts taken from the lists, and RCODE 0
/// for a standard query or 4 for any other opcode.
pub open spec fn prepared(p: PacketModel, qr: u8) -> PacketModel {
    PacketModel {
        header: DnsHeader {
            qr,
            qdcount: p.questions.len() as u16,
            ancount: answer_count(p.answers) as u16,
            rcode: if p.header.opcode == 0 { 0 } else { 4 },
            ..p.header
        },
        ..p
    }
}

/// The lists are short enough for the 16-bit counts.
pub open spec fn counts_fit(p: PacketModel) -> bool {
    p.questions.len() <= 0xffff && answer_count(p.answers) <= 0xffff
}

impl DnsPacket {
    /// Builds a message whose QDCOUNT and ANCOUNT are the lengths of the lists.
    pub fn new(header: DnsHeader, questions: Vec<DnsQuestion>, answers: Option<Vec<DnsAnswer>>) -> (r: Self)
        requires
            questions@.len() <= 0xffff,
            answers matches Some(a) ==> a@.len() <= 0xffff,
        ensures
            r@ == new_packet(header, questions_view(questions@), answers_view(answers)),
    {
        let mut header = header;
        header.qdcount = questions.len() as u16;
        header.ancount = match &answers {
            Some(a) => a.len() as u16,
            None => 0,
        };
        DnsPacket { header, questions, answers }
    }

    /// The header, the questions and the answer section.
    pub fn into_parts(self) -> (r: (DnsHeader, Vec<DnsQuestion>, Option<Vec<DnsAnswer>>))
        ensures
            r.0 == self.header,
            r.1 == self.questions,
            r.2 == self.answers,
    {
        (self.header, self.questions, self.answers)
    }

    /// Appends a record to the answer section, if the message has one.
    pub fn add_answer(&mut self, answer: DnsAnswer)
        ensures
            final(self)@ == with_answer(old(self)@, answer@),
    {
        if let Some(answers) = &mut self.answers {
            let ghost before = answers@;
            answers.push(answer);
            proof {
                assert(answers@.map_values(|x: DnsAnswer| x@) =~= before.map_values(|x: DnsAnswer| x@).push(answer@));
            }
        }
    }

    /// Whether every question announced by QDCOUNT has an answer.
    pub fn all_questions_answered(&self) -> (r: bool)
        ensures
            r == all_answered(self@),
    {
        match &self.answers {
            Some(answers) => answers.len() == self.header.qdcount as usize,
            None => self.header.qdcount == 0,
        }
    }

    /// Sets QR, recomputes QDCOUNT and ANCOUNT from the lists, and RCODE from the opcode.
    pub fn prepare_for_response(&mut self, qr: u8)
        requires
            qr <= 1,
            counts_fit(old(self)@),
        ensures
            final(self)@ == prepared(old(self)@, qr),
    {
        self.header.qr = qr;
        self.header.qdcount = self.questions.len() as u16;
        self.header.ancount = match &self.answers {
            Some(a) => a.len() as u16,
            None => 0,
        };
        self.header.rcode = if self.header.opcode == 0 { 0 } else { 4 };
    }
}

impl DnsSerialize for DnsPacket {
    /// The header, each question in order, then each answer in order where there is a section.
    open spec fn spec_serialize(p: PacketModel) -> Result<Seq<u8>, DnsError> {
        match DnsHeader::spec_serialize(p.header) {
            Err(e) => Err(e),
            Ok(hb) => match spec_serialize_all::<DnsQuestion>(p.questions) {
                Err(e) => Err(e),
                Ok(qb) => match p.answers {
                    None => Ok(hb + qb),
                    Some(ans) => match spec_serialize_all::<DnsAnswer>(ans) {
                        Err(e) => Err(e),
                        Ok(ab) => Ok(hb + qb + ab),
                    },
                },
            },
        }
    }

    fn serialize(&self) -> (r: Result<Vec<u8>, DnsError>) {
        let mut v = self.header.serialize()?;
        let qb = serialize_all(self.questions.as_slice())?;
        let ghost hb = v@;
        v.extend_from_slice(qb.as_slice());
        proof {
            assert(v@ =~= hb + qb@);
        }
        if let Some(answers) = &self.answers {
            let ab = serialize_all(answers.as_slice())?;
            let ghost hq = v@;
            v.extend_from_slice(ab.as_slice());
            proof {
                assert(v@ =~= hq + ab@);
            }
        }
        Ok(v)
    }
}

impl DnsDeserialize for DnsPacket {
    /// The header, then exactly QDCOUNT questions and ANCOUNT answers. The answer section of a
    /// decoded message is always present, possibly empty; what follows the answers is left.
    open spec fn spec_deserialize(data: Seq<u8>) -> Result<(nat, PacketModel), DnsError> {
        match DnsHeader::spec_deserialize(data) {
            Err(e) => Err(e),
            Ok((n, h)) => match spec_parse_many::<DnsQuestion>(data.skip(n as int), h.qdcount as nat) {
                Err(e) => Err(e),
                Ok((m, qs)) => match spec_parse_many::<DnsAnswer>(data.skip((n + m) as int), h.ancount as nat) {
                    Err(e) => Err(e),
                    Ok((k, ans)) => Ok((n + m + k, PacketModel { header: h, questions: qs, answers: Some(ans) })),
                },
            },
        }
    }

    proof fn lemma_consumed_bounded(data: Seq<u8>) {
        if let Ok((n, h)) = DnsHeader::spec_deserialize(data) {
            lemma_parse_many_bounded::<DnsQuestion>(data.skip(n as int), h.qdcount as nat);
            if let Ok((m, _)) = spec_parse_many::<DnsQuestion>(data.skip(n as int), h.qdcount as nat) {
                lemma_parse_many_bounded::<DnsAnswer>(data.skip((n + m) as int), h.ancount as nat);
            }
        }
    }

    fn deserialize(data: &[u8]) -> (r: Result<(&[u8], Self), DnsError>) {
        let (rest, header) = DnsHeader::deserialize(data)?;
        let (rest2, questions) = DnsQuestion::deserialize_multiple(rest, header.qdcount as usize)?;
        let ghost n = data@.len() - rest@.len();
        let ghost m = rest@.len() - rest2@.len();
        proof {
            assert(rest@ =~= data@.skip(n));
            assert(rest2@ =~= data@.skip(n + m));
        }
        let (rest3, answers) = DnsAnswer::deserialize_multiple(rest2, header.ancount as usize)?;
        proof {
            assert(rest3@ =~= data@.skip(data@.len() - rest3@.len()));
        }
        Ok((rest3, DnsPacket { header, questions, answers: Some(answers) }))
    }
}

impl Default for DnsPacket {
    /// The default header, one default question, and no answer section.
    fn default() -> (r: Self)
        ensures
            r.header == DnsHeader::spec_default(),
            r.questions@.len() == 1,
            r.questions@[0]@ == (QuestionModel {
                name: Seq::empty(),
                _type: crate::dns_type::DnsType::A(0, 0, 0, 0),
                _class: 1,
            }),
            r.answers is None,
    {
        DnsPacket { header: DnsHeader::default(), questions: vec![DnsQuestion::default()], answers: None }
    }
}

/// Questions that encode and decode back: labels of 1 to 255 bytes, and a type that is the
/// one its code stands for in a question.
pub open spec fn questions_round_trip(qs: Seq<QuestionModel>) -> bool {
    forall|i: int| 0 <= i < qs.len() ==> labels_fit(#[trigger] qs[i].name) && qs[i]._type == type_from_code(
        type_code(qs[i]._type),
    )
}

/// Records that encode and decode back: labels of 1 to 255 bytes, and type A.
pub open spec fn answers_round_trip(ans: Seq<AnswerModel>) -> bool {
    forall|i: int| 0 <= i < ans.len() ==> labels_fit(#[trigger] ans[i].name) && ans[i]._type is A
}

/// An answer section as decoding gives it back: an absent one comes back empty.
pub open spec fn answers_or_empty(ans: Option<Seq<AnswerModel>>) -> Seq<AnswerModel> {
    match ans {
        Some(a) => a,
        None => Seq::empty(),
    }
}

proof fn lemma_questions_round_trip(qs: Seq<QuestionModel>)
    requires
        questions_round_trip(qs),
    ensures
        forall|i: int| 0 <= i < qs.len() ==> round_trips::<DnsQuestion>(#[trigger] qs[i]),
{
    assert forall|i: int| 0 <= i < qs.len() implies round_trips::<DnsQuestion>(#[trigger] qs[i]) by {
        lemma_question_round_trip(qs[i], Seq::empty());
        let b = DnsQuestion::spec_serialize(qs[i])->Ok_0;
        assert forall|r: Seq<u8>| #[trigger] DnsQuestion::spec_deserialize(b + r) == Ok::<(nat, QuestionModel), DnsError>(
            (b.len(), qs[i]),
        ) by {
            lemma_question_round_trip(qs[i], r);
        }
    }
}

proof fn lemma_questions_parse_back(qs: Seq<QuestionModel>)
    requires
        forall|i: int| 0 <= i < qs.len() ==> labels_fit(#[trigger] qs[i].name),
    ensures
        forall|i: int| 0 <= i < qs.len() ==> parses_back::<DnsQuestion>(#[trigger] qs[i]),
{
    assert forall|i: int| 0 <= i < qs.len() implies parses_back::<DnsQuestion>(#[trigger] qs[i]) by {
        lemma_question_decodes(qs[i], Seq::empty());
        let b = DnsQuestion::spec_serialize(qs[i])->Ok_0;
        assert forall|r: Seq<u8>| #[trigger] DnsQuestion::spec_deserialize(b + r) matches Ok((n, _)) && n == b.len() by {
            lemma_question_decodes(qs[i], r);
        }
    }
}

proof fn lemma_answers_round_trip(a: Seq<AnswerModel>)
    requires
        answers_round_trip(a),
    ensures
        forall|i: int| 0 <= i < a.len() ==> round_trips::<DnsAnswer>(#[trigger] a[i]),
{
    assert forall|i: int| 0 <= i < a.len() implies round_trips::<DnsAnswer>(#[trigger] a[i]) by {
        lemma_answer_round_trip(a[i], Seq::empty());
        let b = DnsAnswer::spec_serialize(a[i])->Ok_0;
        assert forall|r: Seq<u8>| #[trigger] DnsAnswer::spec_deserialize(b + r) == Ok::<(nat, AnswerModel), DnsError>(
            (b.len(), a[i]),
        ) by {
            lemma_answer_round_trip(a[i], r);
        }
    }
}

/// A message whose flags fit their widths, whose counts are the lengths of its lists, and whose
/// questions and answers round-trip decodes from its encoding followed by any bytes: it comes
/// back unchanged (an absent answer section comes back empty), the encoding is consumed exactly
/// and the following bytes are left.
#[verifier::rlimit(40)]
pub proof fn lemma_packet_round_trip(p: PacketModel, rest: Seq<u8>)
    requires
        header_wf(p.header),
        p.header.qdcount == p.questions.len(),
        p.header.ancount == answer_count(p.answers),
        questions_round_trip(p.questions),
        answers_round_trip(answers_or_empty(p.answers)),
    ensures
        DnsPacket::spec_serialize(p) matches Ok(b) && DnsPacket::spec_deserialize(b + rest) == Ok::<
            (nat, PacketModel),
            DnsError,
        >((b.len(), PacketModel { answers: Some(answers_or_empty(p.answers)), ..p })),
{
    let qs = p.questions;
    let a = answers_or_empty(p.answers);
    lemma_questions_round_trip(qs);
    lemma_answers_round_trip(a);
    lemma_run_round_trip::<DnsAnswer>(a, rest);
    let ab = spec_serialize_all::<DnsAnswer>(a)->Ok_0;
    let tail = if p.answers is Some { ab } else { Seq::<u8>::empty() };
    lemma_run_round_trip::<DnsQuestion>(qs, tail + rest);
    let qb = spec_serialize_all::<DnsQuestion>(qs)->Ok_0;
    lemma_header_round_trip(p.header, qb + tail + rest);
    let hb = DnsHeader::spec_serialize(p.header)->Ok_0;
    let b = hb + qb + tail;
    assert(DnsPacket::spec_serialize(p) == Ok::<Seq<u8>, DnsError>(b));
    let data = b + rest;
    assert(data =~= hb + (qb + tail + rest));
    assert(data.skip(12) =~= qb + (tail + rest));
    assert(data.skip(12 + qb.len() as int) =~= tail + rest);
    if p.answers is None {
        assert(a =~= Seq::<AnswerModel>::empty());
        assert(spec_parse_many::<DnsAnswer>(tail + rest, 0) == Ok::<(nat, Seq<AnswerModel>), DnsError>((0, a)));
    }
}

/// Encoding a message built by `new` and decoding it again, whatever bytes follow, gives a
/// message whose QDCOUNT and ANCOUNT are the lengths of the lists given, whatever counts the
/// header carried. The rest of the header comes back unchanged, as do the answers (an absent
/// section comes back empty) and the number of questions; the encoding is consumed exactly.
#[verifier::rlimit(40)]
pub proof fn lemma_new_encode_decode(
    h: DnsHeader,
    qs: Seq<QuestionModel>,
    ans: Option<Seq<AnswerModel>>,
    rest: Seq<u8>,
)
    requires
        header_wf(h),
        qs.len() <= 0xffff,
        answer_count(ans) <= 0xffff,
        forall|i: int| 0 <= i < qs.len() ==> labels_fit(#[trigger] qs[i].name),
        answers_round_trip(answers_or_empty(ans)),
    ensures
        ({
            let p = new_packet(h, qs, ans);
            &&& DnsPacket::spec_serialize(p) matches Ok(b)
            &&& DnsPacket::spec_deserialize(b + rest) matches Ok((n, d))
            &&& n == b.len()
            &&& d.header == p.header
            &&& d.header.qdcount == qs.len()
            &&& d.header.ancount == answer_count(ans)
            &&& d.questions.len() == qs.len()
            &&& d.answers == Some(answers_or_empty(ans))
        }),
{
    let p = new_packet(h, qs, ans);
    let a = answers_or_empty(ans);
    lemma_questions_parse_back(qs);
    lemma_answers_round_trip(a);
    lemma_run_round_trip::<DnsAnswer>(a, rest);
    let ab = spec_serialize_all::<DnsAnswer>(a)->Ok_0;
    let tail = if ans is Some { ab } else { Seq::<u8>::empty() };
    lemma_run_parses_back::<DnsQuestion>(qs, tail + rest);
    let qb = spec_serialize_all::<DnsQuestion>(qs)->Ok_0;
    lemma_header_round_trip(p.header, qb + tail + rest);
    let hb = DnsHeader::spec_serialize(p.header)->Ok_0;
    let b = hb + qb + tail;
    assert(DnsPacket::spec_serialize(p) == Ok::<Seq<u8>, DnsError>(b));
    let data = b + rest;
    assert(data =~= hb + (qb + tail + rest));
    assert(data.skip(12) =~= qb + (tail + rest));
    assert(data.skip(12 + qb.len() as int) =~= tail + rest);
    if ans is None {
        assert(a =~= Seq::<AnswerModel>::empty());
        assert(spec_parse_many::<DnsAnswer>(tail + rest, 0) == Ok::<(nat, Seq<AnswerModel>), DnsError>((0, a)));
    }
}

/// A decoded message has flags within their widths, counts equal to the lengths of its lists,
/// an answer section, and questions and answers that round-trip.
pub proof fn lemma_decoded_packet_fits(data: Seq<u8>)
    ensures
        DnsPacket::spec_deserialize(data) matches Ok((_, p)) ==> {
            &&& header_wf(p.header)
            &&& p.questions.len() == p.header.qdcount
            &&& questions_round_trip(p.questions)
            &&& p.answers is Some
            &&& p.answers->Some_0.len() == p.header.ancount
            &&& answers_round_trip(p.answers->Some_0)
        },
{
    if let Ok((_, p)) = DnsPacket::spec_deserialize(data) {
        lemma_decoded_header_wf(data);
        let h = p.header;
        lemma_parse_many_decoded::<DnsQuestion>(data.skip(12), h.qdcount as nat);
        let m = spec_parse_many::<DnsQuestion>(data.skip(12), h.qdcount as nat)->Ok_0.0;
        lemma_parse_many_decoded::<DnsAnswer>(data.skip(12 + m as int), h.ancount as nat);
        assert forall|i: int| 0 <= i < p.questions.len() implies labels_fit(#[trigger] p.questions[i].name)
            && p.questions[i]._type == type_from_code(type_code(p.questions[i]._type)) by {
            lemma_decoded_question_fits(p.questions[i]);
        }
        let a = p.answers->Some_0;
        assert forall|i: int| 0 <= i < a.len() implies labels_fit(#[trigger] a[i].name) && a[i]._type is A by {
            lemma_decoded_answer_fits(a[i]);
        }
    }
}

/// After a message is made ready with QR 1, QR is 1 and the message counts as fully answered
/// exactly when its answer list is as long as its question list (or both are absent or empty).
pub proof fn lemma_prepared_reflects_answers(p: PacketModel)
    requires
        counts_fit(p),
    ensures
        prepared(p, 1).header.qr == 1,
        all_answered(prepared(p, 1)) == match p.answers {
            Some(a) => a.len() == p.questions.len(),
            None => p.questions.len() == 0,
        },
{
}

} // verus!
