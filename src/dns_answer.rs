use crate::dns_question::{DnsQuestion, QuestionModel};
use crate::dns_serde::{
    decoded_by, be16, be32, spec_parse_many, u16_at, u32_at,
    DnsDeserialize, DnsError, DnsSerialize,
};
use crate::dns_type::{spec_deserialize_rdata, spec_length_and_data, type_code, DnsType};
use crate::label_seq::{labels_fit, lemma_label_round_trip, lemma_parsed_labels_fit, parse_labels, LabelSeq};
use vstd::prelude::*;

verus! {

/// A resource record: name, type with its RDATA, class and time to live.
#[derive(Debug, PartialEq, Eq)]
pub struct DnsAnswer {
    pub name: LabelSeq,
    pub _type: DnsType,
    pub _class: u16,
    pub ttl: u32,
}

/// The value of a resource record, with the name as its labels.
pub struct AnswerModel {
    pub name: Seq<Seq<u8>>,
    pub _type: DnsType,
    pub _class: u16,
    pub ttl: u32,
}

impl View for DnsAnswer {
    type V = AnswerModel;

    open spec fn view(&self) -> AnswerModel {
        AnswerModel { name: self.name@, _type: self._type, _class: self._class, ttl: self.ttl }
    }
}

/// The record that answers a question before it is resolved: same name, type and class, TTL 0.
pub open spec fn answer_for(q: QuestionModel) -> AnswerModel {
    AnswerModel { name: q.name, _type: q._type, _class: q._class, ttl: 0 }
}

/// The address that the stub resolver gives every A record.
pub open spec fn resolved_type(t: DnsType) -> DnsType {
    match t {
        DnsType::A(..) => DnsType::A(8, 8, 8, 8),
        DnsType::_Cname => DnsType::_Cname,
    }
}

impl DnsSerialize for DnsAnswer {
    /// The name, type code, class, TTL, then RDLENGTH and RDATA.
    open spec fn spec_serialize(a: AnswerModel) -> Result<Seq<u8>, DnsError> {
        match LabelSeq::spec_serialize(a.name) {
            Err(e) => Err(e),
            Ok(n) => match spec_length_and_data(a._type) {
                Err(e) => Err(e),
                Ok(rd) => Ok(n + be16(type_code(a._type)) + be16(a._class) + be32(a.ttl) + rd),
            },
        }
    }

    fn serialize(&self) -> (r: Result<Vec<u8>, DnsError>) {
        let mut v = self.name.serialize()?;
        let rd = self._type.serialize_to_length_and_data()?;
        let ghost name_bytes = v@;
        let t = self._type.int_as_bytes();
        v.push(t[0]);
        v.push(t[1]);
        v.push((self._class / 256) as u8);
        v.push((self._class % 256) as u8);
        v.push((self.ttl / 0x100_0000) as u8);
        v.push(((self.ttl / 0x1_0000) % 256) as u8);
        v.push(((self.ttl / 256) % 256) as u8);
        v.push((self.ttl % 256) as u8);
        let ghost head = v@;
        v.extend_from_slice(rd.as_slice());
        proof {
            assert(head =~= name_bytes + be16(type_code(self._type)) + be16(self._class) + be32(self.ttl));
            assert(v@ =~= head + rd@);
        }
        Ok(v)
    }
}

impl DnsDeserialize for DnsAnswer {
    /// The name, eight bytes of type code, class and TTL, then RDLENGTH and RDATA as the type
    /// code says.
    open spec fn spec_deserialize(data: Seq<u8>) -> Result<(nat, AnswerModel), DnsError> {
        match parse_labels(data) {
            Err(e) => Err(e),
            Ok((n, name)) => if data.len() < n + 8 {
                Err(DnsError::Truncated)
            } else {
                match spec_deserialize_rdata(u16_at(data, n as int), data.skip(n + 8 as int)) {
                    Err(e) => Err(e),
                    Ok((m, t)) => Ok(
                        (
                            n + 8 + m,
                            AnswerModel {
                                name,
                                _type: t,
                                _class: u16_at(data, n + 2 as int),
                                ttl: u32_at(data, n + 4 as int),
                            },
                        ),
                    ),
                }
            },
        }
    }

    proof fn lemma_consumed_bounded(data: Seq<u8>) {
    }

    fn deserialize(data: &[u8]) -> (r: Result<(&[u8], Self), DnsError>) {
        let (rest, name) = LabelSeq::deserialize(data)?;
        if rest.len() < 8 {
            return Err(DnsError::Truncated);
        }
        let ghost n = data@.len() - rest@.len();
        proof {
            assert forall|i: int| 0 <= i < 8 implies rest@[i] == #[trigger] data@[n + i] by {}
            assert(rest@[0] == data@[n]);
        }
        let _class: u16 = (rest[2] as u16) * 256 + (rest[3] as u16);
        let ttl: u32 = (rest[4] as u32) * 0x100_0000 + (rest[5] as u32) * 0x1_0000 + (rest[6] as u32)
            * 256 + (rest[7] as u32);
        let after = &rest[8..rest.len()];
        proof {
            assert(after@ =~= data@.skip(n + 8));
            assert(rest@[1] == data@[n + 1]);
            assert(rest@[2] == data@[n + 2]);
            assert(rest@[3] == data@[n + 3]);
            assert(rest@[4] == data@[n + 4]);
            assert(rest@[5] == data@[n + 5]);
            assert(rest@[6] == data@[n + 6]);
            assert(rest@[7] == data@[n + 7]);
        }
        let (tail, _type) = DnsType::deserialize([rest[0], rest[1]], after)?;
        proof {
            assert(tail@ =~= data@.skip(data@.len() - tail@.len()));
        }
        Ok((tail, DnsAnswer { name, _type, _class, ttl }))
    }
}

impl DnsAnswer {
    /// The record that answers `value` before resolution: same name, type and class, TTL 0.
    pub fn from(value: &DnsQuestion) -> (r: Self)
        ensures
            r@ == answer_for(value@),
    {
        DnsAnswer { ttl: 0, name: value.name.clone(), _type: value._type, _class: value._class }
    }

    /// Resolves the record with the fixed stub address: an A record gets 8.8.8.8.
    pub fn resolve(&mut self)
        ensures
            final(self)@ == (AnswerModel { _type: resolved_type(old(self)._type), ..old(self)@ }),
    {
        match self._type {
            DnsType::A(..) => {
                self._type = DnsType::A(8, 8, 8, 8);
            },
            DnsType::_Cname => {},
        }
    }

    /// Decodes `count` records one after another.
    pub fn deserialize_multiple(data: &[u8], count: usize) -> (r: Result<(&[u8], Vec<DnsAnswer>), DnsError>)
        ensures
            match r {
                Ok((rest, items)) => spec_parse_many::<DnsAnswer>(data@, count as nat) == Ok::<(nat, Seq<AnswerModel>), DnsError>(
                    ((data@.len() - rest@.len()) as nat, items@.map_values(|x: DnsAnswer| x@)),
                ) && rest@.len() <= data@.len() && rest@ == data@.skip(data@.len() - rest@.len()),
                Err(e) => spec_parse_many::<DnsAnswer>(data@, count as nat) == Err::<(nat, Seq<AnswerModel>), DnsError>(e),
            },
    {
        crate::dns_serde::deserialize_multiple(data, count)
    }
}

impl Clone for DnsAnswer {
    fn clone(&self) -> (r: Self)
        ensures
            r@ == self@,
    {
        DnsAnswer { name: self.name.clone(), _type: self._type, _class: self._class, ttl: self.ttl }
    }
}

impl Default for DnsAnswer {
    /// An A record for the empty name with address 0.0.0.0, class IN, TTL 0.
    fn default() -> (r: Self)
        ensures
            r@ == (AnswerModel { name: Seq::empty(), _type: DnsType::A(0, 0, 0, 0), _class: 1, ttl: 0 }),
    {
        DnsAnswer { name: LabelSeq::default(), _type: DnsType::A(0, 0, 0, 0), _class: 1, ttl: 0 }
    }
}

/// An A record whose labels are 1 to 255 bytes long decodes from its encoding, consuming
/// exactly the encoding.
pub proof fn lemma_answer_round_trip(a: AnswerModel, rest: Seq<u8>)
    requires
        labels_fit(a.name),
        a._type is A,
    ensures
        DnsAnswer::spec_serialize(a) matches Ok(b) && DnsAnswer::spec_deserialize(b + rest)
            == Ok::<(nat, AnswerModel), DnsError>((b.len(), a)),
{
    let enc = crate::label_seq::encode_labels(a.name);
    let rd = spec_length_and_data(a._type)->Ok_0;
    let fixed = be16(type_code(a._type)) + be16(a._class) + be32(a.ttl);
    let tail = fixed + rd + rest;
    lemma_label_round_trip(a.name, tail);
    let b = enc + fixed + rd;
    let data = b + rest;
    assert(data =~= enc + tail);
    let n = enc.len();
    assert(u16_at(data, n as int) == 1);
    assert(u16_at(data, n as int + 2) == a._class);
    assert(u32_at(data, n as int + 4) == a.ttl);
    assert(data.skip(n as int + 8) =~= rd + rest);
    assert(u16_at(rd + rest, 0) == 4);
    if let DnsType::A(x, y, z, w) = a._type {
        assert(rd == seq![0u8, 4u8, x, y, z, w]);
        assert((rd + rest)[2] == x && (rd + rest)[3] == y && (rd + rest)[4] == z && (rd + rest)[5] == w);
        assert(spec_deserialize_rdata(1, rd + rest) == Ok::<(nat, DnsType), DnsError>((6, a._type)));
    }
    assert(b.len() == n + 8 + 6);
    assert(LabelSeq::spec_serialize(a.name) == Ok::<Seq<u8>, DnsError>(enc));
    assert(b =~= enc + be16(type_code(a._type)) + be16(a._class) + be32(a.ttl) + rd);
    assert(DnsAnswer::spec_serialize(a) == Ok::<Seq<u8>, DnsError>(b));
    assert(parse_labels(data) == Ok::<(nat, Seq<Seq<u8>>), DnsError>((n, a.name)));
}

/// A decoded record has labels of 1 to 255 bytes and type A.
pub proof fn lemma_decoded_answer_fits(a: AnswerModel)
    requires
        decoded_by::<DnsAnswer>(a),
    ensures
        labels_fit(a.name),
        a._type is A,
{
    let data = choose|data: Seq<u8>| #[trigger] DnsAnswer::spec_deserialize(data) is Ok
        && DnsAnswer::spec_deserialize(data)->Ok_0.1 == a;
    lemma_parsed_labels_fit(data);
}

} // verus!
