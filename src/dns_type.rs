use crate::dns_serde::{be16, bytes_result, parsed_result, rest_is_suffix, u16_at, DnsError, DnsSerialize};
use vstd::prelude::*;

verus! {

/// A resource-record type, with the RDATA it carries.
#[derive(Debug, Clone, Copy, PartialEq, Eq, Structural)]
pub enum DnsType {
    /// An IPv4 host address.
    A(u8, u8, u8, u8),
    /// A canonical name; its RDATA has no codec yet.
    _Cname,
}

impl View for DnsType {
    type V = DnsType;

    open spec fn view(&self) -> DnsType {
        *self
    }
}

/// The wire type code of a record type.
pub open spec fn type_code(t: DnsType) -> u16 {
    match t {
        DnsType::A(..) => 1,
        DnsType::_Cname => 5,
    }
}

/// The record type that a wire type code stands for in a question. Codes without a
/// type of their own are read as an A query with an empty address.
pub open spec fn type_from_code(code: u16) -> DnsType {
    if code == 5 {
        DnsType::_Cname
    } else {
        DnsType::A(0, 0, 0, 0)
    }
}

/// RDLENGTH followed by RDATA for a record of type `t`.
pub open spec fn spec_length_and_data(t: DnsType) -> Result<Seq<u8>, DnsError> {
    match t {
        DnsType::A(a, b, c, d) => Ok(seq![0u8, 4u8, a, b, c, d]),
        DnsType::_Cname => Err(DnsError::UnsupportedType(5)),
    }
}

/// Reading RDLENGTH and RDATA for the type code `code` from the front of `data`.
/// Only A records are read; any other code is unsupported.
pub open spec fn spec_deserialize_rdata(code: u16, data: Seq<u8>) -> Result<(nat, DnsType), DnsError> {
    if code != 1 {
        Err(DnsError::UnsupportedType(code))
    } else if data.len() < 2 {
        Err(DnsError::Truncated)
    } else if u16_at(data, 0) != 4 {
        Err(DnsError::BadRdataLength(u16_at(data, 0)))
    } else if data.len() < 6 {
        Err(DnsError::Truncated)
    } else {
        Ok((6, DnsType::A(data[2], data[3], data[4], data[5])))
    }
}

impl DnsType {
    /// The wire type code, big-endian.
    pub fn int_as_bytes(&self) -> (r: [u8; 2])
        ensures
            r@ == be16(type_code(*self)),
    {
        match self {
            DnsType::A(..) => [0u8, 1u8],
            DnsType::_Cname => [0u8, 5u8],
        }
    }

    /// The record type named by a big-endian wire type code.
    pub fn from_bytes(bytes: [u8; 2]) -> (r: Self)
        ensures
            r == type_from_code(u16_at(bytes@, 0)),
    {
        if bytes[0] == 0 && bytes[1] == 5 {
            DnsType::_Cname
        } else {
            DnsType::A(0, 0, 0, 0)
        }
    }

    /// RDLENGTH and RDATA of this type.
    pub fn serialize_to_length_and_data(&self) -> (r: Result<Vec<u8>, DnsError>)
        ensures
            bytes_result(r) == spec_length_and_data(*self),
    {
        match self {
            DnsType::A(a, b, c, d) => {
                let v: Vec<u8> = vec![0u8, 4u8, *a, *b, *c, *d];
                proof {
                    assert(v@ =~= seq![0u8, 4u8, *a, *b, *c, *d]);
                }
                Ok(v)
            },
            DnsType::_Cname => Err(DnsError::UnsupportedType(5)),
        }
    }

    /// Reads RDLENGTH and RDATA for the given wire type code.
    pub fn deserialize(type_bytes: [u8; 2], length_and_data_bytes: &[u8]) -> (r: Result<(&[u8], Self), DnsError>)
        ensures
            parsed_result(length_and_data_bytes@, r) == spec_deserialize_rdata(u16_at(type_bytes@, 0), length_and_data_bytes@),
            rest_is_suffix(length_and_data_bytes@, r),
    {
        let code: u16 = (type_bytes[0] as u16) * 256 + (type_bytes[1] as u16);
        if code == 1 {
            Self::deserialize_a_type(length_and_data_bytes)
        } else {
            Err(DnsError::UnsupportedType(code))
        }
    }

    fn deserialize_a_type(data: &[u8]) -> (r: Result<(&[u8], Self), DnsError>)
        ensures
            parsed_result(data@, r) == spec_deserialize_rdata(1, data@),
            rest_is_suffix(data@, r),
    {
        if data.len() < 2 {
            return Err(DnsError::Truncated);
        }
        let rdlength: u16 = (data[0] as u16) * 256 + (data[1] as u16);
        if rdlength != 4 {
            return Err(DnsError::BadRdataLength(rdlength));
        }
        if data.len() < 6 {
            return Err(DnsError::Truncated);
        }
        let rest = &data[6..data.len()];
        proof {
            assert(rest@ =~= data@.skip(6));
        }
        Ok((rest, DnsType::A(data[2], data[3], data[4], data[5])))
    }
}

impl DnsSerialize for DnsType {
    open spec fn spec_serialize(v: DnsType) -> Result<Seq<u8>, DnsError> {
        match v {
            DnsType::A(a, b, c, d) => Ok(seq![a, b, c, d]),
            DnsType::_Cname => Err(DnsError::UnsupportedType(5)),
        }
    }

    fn serialize(&self) -> (r: Result<Vec<u8>, DnsError>) {
        match self {
            DnsType::A(a, b, c, d) => {
                let v: Vec<u8> = vec![*a, *b, *c, *d];
                proof {
                    assert(v@ =~= seq![*a, *b, *c, *d]);
                }
                Ok(v)
            },
            DnsType::_Cname => Err(DnsError::UnsupportedType(5)),
        }
    }
}

impl Default for DnsType {
    fn default() -> (r: Self)
        ensures
            r == DnsType::A(0, 0, 0, 0),
    {
        DnsType::A(0, 0, 0, 0)
    }
}

} // verus!
