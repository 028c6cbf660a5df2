use crate::dns_serde::{
    decoded_by, be16, spec_parse_many, u16_at, DnsDeserialize,
    DnsError, DnsSerialize,
};
use crate::dns_type::{type_code, type_from_code, DnsType};
use crate::label_seq::{labels_fit, lemma_label_round_trip, lemma_parsed_labels_fit, parse_labels, LabelSeq};
use vstd::prelude::*;

verus! {

/// A question: a name, the record type asked for, and a class (1 = IN).
#[derive(Debug, PartialEq, Eq)]
pub struct DnsQuestion {
    pub name: LabelSeq,
    pub _type: DnsType,
    pub _class: u16,
}

/// The value of a question, with the name as its labels.
pub struct QuestionModel {
    pub name: Seq<Seq<u8>>,
    pub _type: DnsType,
    pub _class: u16,
}

impl View for DnsQuestion {
    type V = QuestionModel;

    open spec fn view(&self) -> QuestionModel {
        QuestionModel { name: self.name@, _type: self._type, _class: self._class }
    }
}

impl DnsSerialize for DnsQuestion {
    /// The name, then the type code and the class, both big-endian.
    open spec fn spec_serialize(q: QuestionModel) -> Result<Seq<u8>, DnsError> {
        match LabelSeq::spec_serialize(q.name) {
            Ok(n) => Ok(n + be16(type_code(q._type)) + be16(q._class)),
            Err(e) => Err(e),
        }
    }

    fn serialize(&self) -> (r: Result<Vec<u8>, DnsError>) {
        let mut v = self.name.serialize()?;
        let t = self._type.int_as_bytes();
        v.push(t[0]);
        v.push(t[1]);
        v.push((self._class / 256) as u8);
        v.push((self._class % 256) as u8);
        proof {
            assert(v@ =~= LabelSeq::spec_serialize(self.name@)->Ok_0 + be16(type_code(self._type))
                + be16(self._class));
        }
        Ok(v)
    }
}

impl DnsDeserialize for DnsQuestion {
    /// The name, then four bytes of type code and class. A type code other than CNAME's is
    /// read as an A query.
    open spec fn spec_deserialize(data: Seq<u8>) -> Result<(nat, QuestionModel), DnsError> {
        match parse_labels(data) {
            Err(e) => Err(e),
            Ok((n, name)) => if data.len() < n + 4 {
                Err(DnsError::Truncated)
            } else {
                Ok(
                    (
                        n + 4,
                        QuestionModel {
                            name,
                            _type: type_from_code(u16_at(data, n as int)),
                            _class: u16_at(data, n + 2 as int),
                        },
                    ),
                )
            },
        }
    }

    proof fn lemma_consumed_bounded(data: Seq<u8>) {
    }

    fn deserialize(data: &[u8]) -> (r: Result<(&[u8], Self), DnsError>) {
        let (rest, name) = LabelSeq::deserialize(data)?;
        if rest.len() < 4 {
            return Err(DnsError::Truncated);
        }
        let ghost n = data@.len() - rest@.len();
        proof {
            assert(rest@[0] == data@[n]);
            assert(rest@[1] == data@[n + 1]);
            assert(rest@[2] == data@[n + 2]);
            assert(rest@[3] == data@[n + 3]);
        }
        let _type = DnsType::from_bytes([rest[0], rest[1]]);
        let _class: u16 = (rest[2] as u16) * 256 + (rest[3] as u16);
        let tail = &rest[4..rest.len()];
        proof {
            assert(tail@ =~= data@.skip(n + 4));
        }
        Ok((tail, DnsQuestion { name, _type, _class }))
    }
}

impl DnsQuestion {
    /// Decodes `count` questions one after another.
    pub fn deserialize_multiple(data: &[u8], count: usize) -> (r: Result<(&[u8], Vec<DnsQuestion>), DnsError>)
        ensures
            match r {
                Ok((rest, items)) => spec_parse_many::<DnsQuestion>(data@, count as nat) == Ok::<(nat, Seq<QuestionModel>), DnsError>(
                    ((data@.len() - rest@.len()) as nat, items@.map_values(|x: DnsQuestion| x@)),
                ) && rest@.len() <= data@.len() && rest@ == data@.skip(data@.len() - rest@.len()),
                Err(e) => spec_parse_many::<DnsQuestion>(data@, count as nat) == Err::<(nat, Seq<QuestionModel>), DnsError>(e),
            },
    {
        crate::dns_serde::deserialize_multiple(data, count)
    }
}

impl Clone for DnsQuestion {
    fn clone(&self) -> (r: Self)
        ensures
            r@ == self@,
    {
        DnsQuestion { name: self.name.clone(), _type: self._type, _class: self._class }
    }
}

impl Default for DnsQuestion {
    /// An A query for the empty name, class IN.
    fn default() -> (r: Self)
        ensures
            r@ == (QuestionModel { name: Seq::empty(), _type: DnsType::A(0, 0, 0, 0), _class: 1 }),
    {
        DnsQuestion { name: LabelSeq::default(), _type: DnsType::A(0, 0, 0, 0), _class: 1 }
    }
}

/// A question whose labels are 1 to 255 bytes long decodes from its encoding, consuming
/// exactly the encoding; its type comes back as the one its code stands for in a question.
pub proof fn lemma_question_decodes(q: QuestionModel, rest: Seq<u8>)
    requires
        labels_fit(q.name),
    ensures
        DnsQuestion::spec_serialize(q) matches Ok(b) && DnsQuestion::spec_deserialize(b + rest)
            == Ok::<(nat, QuestionModel), DnsError>(
            (b.len(), QuestionModel { _type: type_from_code(type_code(q._type)), ..q }),
        ),
{
    let enc = crate::label_seq::encode_labels(q.name);
    let tail = be16(type_code(q._type)) + be16(q._class) + rest;
    lemma_label_round_trip(q.name, tail);
    let b = enc + be16(type_code(q._type)) + be16(q._class);
    assert(b + rest =~= enc + tail);
    let n = enc.len();
    assert(u16_at(b + rest, n as int) == type_code(q._type));
    assert(u16_at(b + rest, n as int + 2) == q._class);
}

/// A question whose labels are 1 to 255 bytes long and whose type is the one its code stands
/// for in a question decodes from its encoding, consuming exactly the encoding.
pub proof fn lemma_question_round_trip(q: QuestionModel, rest: Seq<u8>)
    requires
        labels_fit(q.name),
        q._type == type_from_code(type_code(q._type)),
    ensures
        DnsQuestion::spec_serialize(q) matches Ok(b) && DnsQuestion::spec_deserialize(b + rest)
            == Ok::<(nat, QuestionModel), DnsError>((b.len(), q)),
{
    lemma_question_decodes(q, rest);
}

/// A decoded question has labels of 1 to 255 bytes and the type its code stands for.
pub proof fn lemma_decoded_question_fits(q: QuestionModel)
    requires
        decoded_by::<DnsQuestion>(q),
    ensures
        labels_fit(q.name),
        q._type == type_from_code(type_code(q._type)),
{
    let data = choose|data: Seq<u8>| #[trigger] DnsQuestion::spec_deserialize(data) is Ok
        && DnsQuestion::spec_deserialize(data)->Ok_0.1 == q;
    lemma_parsed_labels_fit(data);
}

} // verus!
