use crate::dns_serde::{be16, u16_at, DnsDeserialize, DnsError, DnsSerialize};
use vstd::prelude::*;

verus! {

/// The fixed 12-byte header of a DNS message.
#[derive(Debug, Clone, Copy, PartialEq, Eq, Structural)]
pub struct DnsHeader {
    pub id: u16,
    /// 1 bit: 0 for a query, 1 for a response.
    pub qr: u8,
    /// 4 bits.
    pub opcode: u8,
    /// 1 bit.
    pub aa: u8,
    /// 1 bit.
    pub tc: u8,
    /// 1 bit.
    pub rd: u8,
    /// 1 bit.
    pub ra: u8,
    /// 3 bits.
    pub z: u8,
    /// 4 bits.
    pub rcode: u8,
    pub qdcount: u16,
    pub ancount: u16,
    pub nscount: u16,
    pub arcount: u16,
}

impl View for DnsHeader {
    type V = DnsHeader;

    open spec fn view(&self) -> DnsHeader {
        *self
    }
}

/// Every flag field fits its bit width.
pub open spec fn header_wf(h: DnsHeader) -> bool {
    &&& h.qr <= 1
    &&& h.opcode <= 15
    &&& h.aa <= 1
    &&& h.tc <= 1
    &&& h.rd <= 1
    &&& h.ra <= 1
    &&& h.z <= 7
    &&& h.rcode <= 15
}

/// The third header byte: QR, OPCODE, AA, TC, RD.
pub open spec fn flags_high(h: DnsHeader) -> u8 {
    h.qr << 7u8 | h.opcode << 3u8 | h.aa << 2u8 | h.tc << 1u8 | h.rd
}

/// The fourth header byte: RA, Z, RCODE.
pub open spec fn flags_low(h: DnsHeader) -> u8 {
    h.ra << 7u8 | h.z << 4u8 | h.rcode
}

/// The header stored in the first twelve bytes of `data`.
pub open spec fn header_at(data: Seq<u8>) -> DnsHeader {
    DnsHeader {
        id: u16_at(data, 0),
        qr: data[2] >> 7u8 & 1u8,
        opcode: data[2] >> 3u8 & 15u8,
        aa: data[2] >> 2u8 & 1u8,
        tc: data[2] >> 1u8 & 1u8,
        rd: data[2] & 1u8,
        ra: data[3] >> 7u8 & 1u8,
        z: data[3] >> 4u8 & 7u8,
        rcode: data[3] & 15u8,
        qdcount: u16_at(data, 4),
        ancount: u16_at(data, 6),
        nscount: u16_at(data, 8),
        arcount: u16_at(data, 10),
    }
}

/// The response header for a query header: QR set, and RCODE 0 for a standard query or 4
/// (not implemented) for any other opcode.
pub open spec fn response_header(h: DnsHeader) -> DnsHeader {
    DnsHeader { qr: 1, rcode: if h.opcode == 0 { 0 } else { 4 }, ..h }
}

impl DnsHeader {
    /// Turns a query header into the header of its response.
    pub fn create_response(query_header: DnsHeader) -> (r: DnsHeader)
        ensures
            r == response_header(query_header),
    {
        let mut h = query_header;
        h.qr = 1;
        h.rcode = if h.opcode == 0 { 0 } else { 4 };
        h
    }
}

fn push_u16(v: &mut Vec<u8>, x: u16)
    ensures
        final(v)@ == old(v)@ + be16(x),
{
    v.push((x / 256) as u8);
    v.push((x % 256) as u8);
    proof {
        assert(final(v)@ =~= old(v)@ + be16(x));
    }
}

impl DnsSerialize for DnsHeader {
    open spec fn spec_serialize(h: DnsHeader) -> Result<Seq<u8>, DnsError> {
        Ok(be16(h.id) + seq![flags_high(h), flags_low(h)] + be16(h.qdcount) + be16(h.ancount)
            + be16(h.nscount) + be16(h.arcount))
    }

    fn serialize(&self) -> (r: Result<Vec<u8>, DnsError>) {
        let mut v: Vec<u8> = Vec::with_capacity(12);
        push_u16(&mut v, self.id);
        v.push(self.qr << 7u8 | self.opcode << 3u8 | self.aa << 2u8 | self.tc << 1u8 | self.rd);
        v.push(self.ra << 7u8 | self.z << 4u8 | self.rcode);
        push_u16(&mut v, self.qdcount);
        push_u16(&mut v, self.ancount);
        push_u16(&mut v, self.nscount);
        push_u16(&mut v, self.arcount);
        proof {
            assert(v@ =~= be16(self.id) + seq![flags_high(*self), flags_low(*self)] + be16(self.qdcount)
                + be16(self.ancount) + be16(self.nscount) + be16(self.arcount));
        }
        Ok(v)
    }
}

impl DnsDeserialize for DnsHeader {
    /// Fewer than twelve bytes are a truncated header.
    open spec fn spec_deserialize(data: Seq<u8>) -> Result<(nat, DnsHeader), DnsError> {
        if data.len() < 12 {
            Err(DnsError::Truncated)
        } else {
            Ok((12, header_at(data)))
        }
    }

    proof fn lemma_consumed_bounded(data: Seq<u8>) {
    }

    fn deserialize(data: &[u8]) -> (r: Result<(&[u8], Self), DnsError>) {
        if data.len() < 12 {
            return Err(DnsError::Truncated);
        }
        let h = DnsHeader {
            id: (data[0] as u16) * 256 + (data[1] as u16),
            qr: data[2] >> 7u8 & 1u8,
            opcode: data[2] >> 3u8 & 15u8,
            aa: data[2] >> 2u8 & 1u8,
            tc: data[2] >> 1u8 & 1u8,
            rd: data[2] & 1u8,
            ra: data[3] >> 7u8 & 1u8,
            z: data[3] >> 4u8 & 7u8,
            rcode: data[3] & 15u8,
            qdcount: (data[4] as u16) * 256 + (data[5] as u16),
            ancount: (data[6] as u16) * 256 + (data[7] as u16),
            nscount: (data[8] as u16) * 256 + (data[9] as u16),
            arcount: (data[10] as u16) * 256 + (data[11] as u16),
        };
        let rest = &data[12..data.len()];
        proof {
            assert(rest@ =~= data@.skip(12));
        }
        Ok((rest, h))
    }
}

impl DnsHeader {
    /// The all-zero header.
    pub open spec fn spec_default() -> DnsHeader {
        DnsHeader {
            id: 0,
            qr: 0,
            opcode: 0,
            aa: 0,
            tc: 0,
            rd: 0,
            ra: 0,
            z: 0,
            rcode: 0,
            qdcount: 0,
            ancount: 0,
            nscount: 0,
            arcount: 0,
        }
    }
}

impl Default for DnsHeader {
    fn default() -> (r: Self)
        ensures
            r == DnsHeader::spec_default(),
    {
        DnsHeader {
            id: 0,
            qr: 0,
            opcode: 0,
            aa: 0,
            tc: 0,
            rd: 0,
            ra: 0,
            z: 0,
            rcode: 0,
            qdcount: 0,
            ancount: 0,
            nscount: 0,
            arcount: 0,
        }
    }
}

/// A decoded header always has its flags within their bit widths.
pub proof fn lemma_decoded_header_wf(data: Seq<u8>)
    requires
        data.len() >= 12,
    ensures
        header_wf(header_at(data)),
{
    let b2 = data[2];
    let b3 = data[3];
    assert(b2 >> 7u8 & 1u8 <= 1 && b2 >> 3u8 & 15u8 <= 15 && b2 >> 2u8 & 1u8 <= 1 && b2 >> 1u8 & 1u8 <= 1
        && b2 & 1u8 <= 1) by (bit_vector);
    assert(b3 >> 7u8 & 1u8 <= 1 && b3 >> 4u8 & 7u8 <= 7 && b3 & 15u8 <= 15) by (bit_vector);
}

/// Decoding the encoding of a header whose flags fit their widths gives the header back,
/// consumes twelve bytes, and leaves whatever followed.
pub proof fn lemma_header_round_trip(h: DnsHeader, rest: Seq<u8>)
    requires
        header_wf(h),
    ensures
        DnsHeader::spec_serialize(h) matches Ok(b) && b.len() == 12
            && DnsHeader::spec_deserialize(b + rest) == Ok::<(nat, DnsHeader), DnsError>((12, h)),
{
    let b = be16(h.id) + seq![flags_high(h), flags_low(h)] + be16(h.qdcount) + be16(h.ancount)
        + be16(h.nscount) + be16(h.arcount);
    let data = b + rest;
    assert(data[2] == flags_high(h));
    assert(data[3] == flags_low(h));
    let (qr, opcode, aa, tc, rd) = (h.qr, h.opcode, h.aa, h.tc, h.rd);
    let hi = flags_high(h);
    assert(hi == qr << 7u8 | opcode << 3u8 | aa << 2u8 | tc << 1u8 | rd);
    assert(qr <= 1 && opcode <= 15 && aa <= 1 && tc <= 1 && rd <= 1 && hi == qr << 7u8 | opcode << 3u8
        | aa << 2u8 | tc << 1u8 | rd ==> hi >> 7u8 & 1u8 == qr && hi >> 3u8 & 15u8 == opcode && hi
        >> 2u8 & 1u8 == aa && hi >> 1u8 & 1u8 == tc && hi & 1u8 == rd) by (bit_vector);
    let (ra, z, rcode) = (h.ra, h.z, h.rcode);
    let lo = flags_low(h);
    assert(lo == ra << 7u8 | z << 4u8 | rcode);
    assert(ra <= 1 && z <= 7 && rcode <= 15 && lo == ra << 7u8 | z << 4u8 | rcode ==> lo >> 7u8 & 1u8
        == ra && lo >> 4u8 & 7u8 == z && lo & 15u8 == rcode) by (bit_vector);
    assert(u16_at(data, 0) == h.id);
    assert(u16_at(data, 4) == h.qdcount);
    assert(u16_at(data, 6) == h.ancount);
    assert(u16_at(data, 8) == h.nscount);
    assert(u16_at(data, 10) == h.arcount);
    assert(header_at(data) == h);
}

} // verus!
