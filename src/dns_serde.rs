use vstd::prelude::*;

verus! {

/// Why a message could not be encoded or decoded.
#[derive(Debug, Clone, Copy, PartialEq, Eq, Structural)]
pub enum DnsError {
    /// The input ends before a fixed-size field or a label it announces.
    Truncated,
    /// The record type has no implemented RDATA codec (carries the wire type code).
    UnsupportedType(u16),
    /// RDLENGTH differs from the fixed RDATA length of the record's type.
    BadRdataLength(u16),
    /// A label is longer than a length byte can announce.
    LabelTooLong,
}

/// Big-endian bytes of a 16-bit value.
pub open spec fn be16(x: u16) -> Seq<u8> {
    seq![(x / 256) as u8, (x % 256) as u8]
}

/// Big-endian bytes of a 32-bit value.
pub open spec fn be32(x: u32) -> Seq<u8> {
    seq![(x / 0x100_0000) as u8, ((x / 0x1_0000) % 256) as u8, ((x / 256) % 256) as u8, (x % 256) as u8]
}

/// The 16-bit big-endian value stored at `s[i]`, `s[i + 1]`.
pub open spec fn u16_at(s: Seq<u8>, i: int) -> u16 {
    (s[i] as int * 256 + s[i + 1] as int) as u16
}

/// The 32-bit big-endian value stored at `s[i] .. s[i + 4]`.
pub open spec fn u32_at(s: Seq<u8>, i: int) -> u32 {
    (s[i] as int * 0x100_0000 + s[i + 1] as int * 0x1_0000 + s[i + 2] as int * 256
        + s[i + 3] as int) as u32
}

/// The bytes of a successful encoding, or its error.
pub open spec fn bytes_result(r: Result<Vec<u8>, DnsError>) -> Result<Seq<u8>, DnsError> {
    match r {
        Ok(v) => Ok(v@),
        Err(e) => Err(e),
    }
}

/// A value of a type that has a wire encoding.
pub trait DnsSerialize: View {
    /// The wire encoding of a value, or why it has none.
    spec fn spec_serialize(v: Self::V) -> Result<Seq<u8>, DnsError>;

    fn serialize(&self) -> (r: Result<Vec<u8>, DnsError>)
        ensures
            bytes_result(r) == Self::spec_serialize(self@),
    ;
}

/// The encodings of `items` one after another, or the error of the first that has none.
pub open spec fn spec_serialize_all<T: DnsSerialize>(items: Seq<T::V>) -> Result<Seq<u8>, DnsError>
    decreases items.len(),
{
    if items.len() == 0 {
        Ok(Seq::empty())
    } else {
        match T::spec_serialize(items[0]) {
            Err(e) => Err(e),
            Ok(b) => match spec_serialize_all::<T>(items.drop_first()) {
                Err(e) => Err(e),
                Ok(bs) => Ok(b + bs),
            },
        }
    }
}

/// Encodes `items` one after another.
pub fn serialize_all<T: DnsSerialize>(items: &[T]) -> (r: Result<Vec<u8>, DnsError>)
    ensures
        bytes_result(r) == spec_serialize_all::<T>(items@.map_values(|x: T| x@)),
{
    let ghost all = items@.map_values(|x: T| x@);
    let mut v: Vec<u8> = Vec::new();
    let mut i: usize = 0;
    proof {
        assert(all.skip(0) =~= all);
        assert forall|bs: Seq<u8>| #[trigger] (v@ + bs) =~= bs by {}
    }
    while i < items.len()
        invariant
            i <= items@.len(),
            all == items@.map_values(|x: T| x@),
            spec_serialize_all::<T>(all) == match spec_serialize_all::<T>(all.skip(i as int)) {
                Ok(bs) => Ok::<Seq<u8>, DnsError>(v@ + bs),
                Err(e) => Err(e),
            },
        decreases items@.len() - i,
    {
        let b = items[i].serialize()?;
        proof {
            let rest = all.skip(i as int);
            assert(rest[0] == items@[i as int]@);
            assert(rest.drop_first() =~= all.skip(i + 1));
            assert forall|bs: Seq<u8>| #[trigger] (v@ + (b@ + bs)) =~= (v@ + b@) + bs by {}
        }
        let ghost before = v@;
        v.extend_from_slice(b.as_slice());
        proof {
            assert(v@ =~= before + b@);
        }
        i = i + 1;
    }
    proof {
        assert(all.skip(i as int).len() == 0);
        assert(v@ + Seq::<u8>::empty() =~= v@);
    }
    Ok(v)
}

/// What a decoder returned: the number of bytes consumed and the value read, or the error.
pub open spec fn parsed_result<'a, T: View>(data: Seq<u8>, r: Result<(&'a [u8], T), DnsError>) -> Result<(nat, T::V), DnsError> {
    match r {
        Ok((rest, v)) => Ok(((data.len() - rest@.len()) as nat, v@)),
        Err(e) => Err(e),
    }
}

/// The remainder handed back by a decoder is the input after the consumed bytes.
pub open spec fn rest_is_suffix<'a, T>(data: Seq<u8>, r: Result<(&'a [u8], T), DnsError>) -> bool {
    r matches Ok((rest, _)) ==> rest@.len() <= data.len() && rest@ == data.skip(data.len() - rest@.len())
}

/// Decoding `count` values one after another: the bytes consumed and the values, or the first error.
pub open spec fn spec_parse_many<T: DnsDeserialize>(data: Seq<u8>, count: nat) -> Result<(nat, Seq<T::V>), DnsError>
    decreases count,
{
    if count == 0 {
        Ok((0, Seq::empty()))
    } else {
        match T::spec_deserialize(data) {
            Err(e) => Err(e),
            Ok((n, v)) => match spec_parse_many::<T>(data.skip(n as int), (count - 1) as nat) {
                Err(e) => Err(e),
                Ok((m, vs)) => Ok((n + m, seq![v] + vs)),
            },
        }
    }
}

/// A type that can be read from the front of a byte string.
pub trait DnsDeserialize: Sized + View {
    /// What decoding `data` yields: the bytes consumed and the value, or the error.
    spec fn spec_deserialize(data: Seq<u8>) -> Result<(nat, Self::V), DnsError>;

    /// A successful decoding never consumes more than it was given.
    proof fn lemma_consumed_bounded(data: Seq<u8>)
        ensures
            Self::spec_deserialize(data) matches Ok((n, _)) ==> n <= data.len(),
    ;

    fn deserialize(data: &[u8]) -> (r: Result<(&[u8], Self), DnsError>)
        ensures
            parsed_result(data@, r) == Self::spec_deserialize(data@),
            rest_is_suffix(data@, r),
    ;

}

/// Decodes `count` values of `T` one after another, handing back what follows them.
pub fn deserialize_multiple<T: DnsDeserialize>(data: &[u8], count: usize) -> (r: Result<(&[u8], Vec<T>), DnsError>)
        ensures
            match r {
                Ok((rest, items)) => spec_parse_many::<T>(data@, count as nat) == Ok::<(nat, Seq<T::V>), DnsError>(
                    ((data@.len() - rest@.len()) as nat, items@.map_values(|x: T| x@)),
                ) && rest@.len() <= data@.len() && rest@ == data@.skip(data@.len() - rest@.len()),
                Err(e) => spec_parse_many::<T>(data@, count as nat) == Err::<(nat, Seq<T::V>), DnsError>(e),
            },
    {
        let mut rest = data;
        let mut items: Vec<T> = Vec::new();
        let mut k: usize = 0;
        while k < count
            invariant
                k <= count,
                rest@.len() <= data@.len(),
                rest@ == data@.skip(data@.len() - rest@.len()),
                items@.len() == k,
                spec_parse_many::<T>(data@, count as nat) == match spec_parse_many::<T>(rest@, (count - k) as nat) {
                    Ok((m, vs)) => Ok::<(nat, Seq<T::V>), DnsError>(
                        ((data@.len() - rest@.len() + m) as nat, items@.map_values(|x: T| x@) + vs),
                    ),
                    Err(e) => Err(e),
                },
            decreases count - k,
        {
            proof {
                T::lemma_consumed_bounded(rest@);
            }
            match T::deserialize(rest) {
                Ok((next, item)) => {
                    proof {
                        let n = (rest@.len() - next@.len()) as nat;
                        let c = (count - k) as nat;
                        let old_items = items@.map_values(|x: T| x@);
                        let new_items = items@.push(item).map_values(|x: T| x@);
                        assert(next@ =~= rest@.skip(n as int));
                        assert(data@.skip(data@.len() - next@.len()) =~= next@);
                        assert(new_items =~= old_items.push(item@));
                        assert forall|tail: Seq<T::V>| #![auto] old_items + (seq![item@] + tail) =~= new_items + tail by {}
                        assert(spec_parse_many::<T>(rest@, c) == match spec_parse_many::<T>(next@, (c - 1) as nat) {
                            Err(e) => Err(e),
                            Ok((m, vs)) => Ok::<(nat, Seq<T::V>), DnsError>((n + m, seq![item@] + vs)),
                        });
                    }
                    rest = next;
                    items.push(item);
                },
                Err(e) => {
                    return Err(e);
                },
            }
            k = k + 1;
        }
        proof {
            assert(items@.map_values(|x: T| x@) + Seq::<T::V>::empty() =~= items@.map_values(|x: T| x@));
        }
        Ok((rest, items))
}

/// A run of decodings never consumes more than it was given.
pub proof fn lemma_parse_many_bounded<T: DnsDeserialize>(data: Seq<u8>, count: nat)
    ensures
        spec_parse_many::<T>(data, count) matches Ok((n, _)) ==> n <= data.len(),
    decreases count,
{
    if count > 0 {
        T::lemma_consumed_bounded(data);
        if let Ok((n, _)) = T::spec_deserialize(data) {
            lemma_parse_many_bounded::<T>(data.skip(n as int), (count - 1) as nat);
        }
    }
}

/// `v` encodes, and decoding its encoding followed by any bytes gives `v` back and consumes
/// exactly the encoding.
pub open spec fn round_trips<T: DnsSerialize + DnsDeserialize>(v: T::V) -> bool {
    T::spec_serialize(v) matches Ok(b) && forall|rest: Seq<u8>|
        #[trigger] T::spec_deserialize(b + rest) == Ok::<(nat, T::V), DnsError>((b.len(), v))
}

/// Values that each round-trip also round-trip as a run: decoding as many values as were
/// encoded gives them back and consumes exactly their encodings.
pub proof fn lemma_run_round_trip<T: DnsSerialize + DnsDeserialize>(items: Seq<T::V>, rest: Seq<u8>)
    requires
        forall|i: int| 0 <= i < items.len() ==> round_trips::<T>(#[trigger] items[i]),
    ensures
        spec_serialize_all::<T>(items) matches Ok(bs) && spec_parse_many::<T>(bs + rest, items.len())
            == Ok::<(nat, Seq<T::V>), DnsError>((bs.len(), items)),
    decreases items.len(),
{
    if items.len() == 0 {
        assert(items =~= Seq::<T::V>::empty());
    } else {
        let tail = items.drop_first();
        assert forall|i: int| 0 <= i < tail.len() implies round_trips::<T>(#[trigger] tail[i]) by {
            assert(tail[i] == items[i + 1]);
        }
        lemma_run_round_trip::<T>(tail, rest);
        assert(round_trips::<T>(items[0]));
        let b = T::spec_serialize(items[0])->Ok_0;
        let bs = spec_serialize_all::<T>(tail)->Ok_0;
        assert((b + bs) + rest =~= b + (bs + rest));
        assert(T::spec_deserialize(b + (bs + rest)) == Ok::<(nat, T::V), DnsError>((b.len(), items[0])));
        assert((b + (bs + rest)).skip(b.len() as int) =~= bs + rest);
        assert(seq![items[0]] + tail =~= items);
    }
}

/// `v` is what `T` decodes from some bytes.
pub open spec fn decoded_by<T: DnsDeserialize>(v: T::V) -> bool {
    exists|data: Seq<u8>| #[trigger] T::spec_deserialize(data) is Ok && T::spec_deserialize(data)->Ok_0.1 == v
}

/// A run of `count` decodings yields `count` values, each decoded from some bytes.
pub proof fn lemma_parse_many_decoded<T: DnsDeserialize>(data: Seq<u8>, count: nat)
    ensures
        spec_parse_many::<T>(data, count) matches Ok((_, vs)) ==> vs.len() == count && forall|i: int|
            0 <= i < vs.len() ==> #[trigger] decoded_by::<T>(vs[i]),
    decreases count,
{
    if count > 0 {
        if let Ok((n, v)) = T::spec_deserialize(data) {
            lemma_parse_many_decoded::<T>(data.skip(n as int), (count - 1) as nat);
            if let Ok((_, vs)) = spec_parse_many::<T>(data, count) {
                let tail = spec_parse_many::<T>(data.skip(n as int), (count - 1) as nat)->Ok_0.1;
                assert(vs == seq![v] + tail);
                assert(decoded_by::<T>(v));
                assert forall|i: int| 0 <= i < vs.len() implies #[trigger] decoded_by::<T>(vs[i]) by {
                    if i > 0 {
                        assert(vs[i] == tail[i - 1]);
                    }
                }
            }
        }
    }
}

/// `v` encodes, and decoding its encoding followed by any bytes consumes exactly the encoding.
pub open spec fn parses_back<T: DnsSerialize + DnsDeserialize>(v: T::V) -> bool {
    T::spec_serialize(v) matches Ok(b) && forall|rest: Seq<u8>|
        #[trigger] T::spec_deserialize(b + rest) matches Ok((n, _)) && n == b.len()
}

/// Values whose encodings each decode back to their own length: decoding as many values as
/// were encoded succeeds, yields that many values, and consumes exactly their encodings.
pub proof fn lemma_run_parses_back<T: DnsSerialize + DnsDeserialize>(items: Seq<T::V>, rest: Seq<u8>)
    requires
        forall|i: int| 0 <= i < items.len() ==> parses_back::<T>(#[trigger] items[i]),
    ensures
        spec_serialize_all::<T>(items) matches Ok(bs) && spec_parse_many::<T>(bs + rest, items.len()) matches Ok(
            (n, vs),
        ) && n == bs.len() && vs.len() == items.len(),
    decreases items.len(),
{
    if items.len() > 0 {
        let tail = items.drop_first();
        assert forall|i: int| 0 <= i < tail.len() implies parses_back::<T>(#[trigger] tail[i]) by {
            assert(tail[i] == items[i + 1]);
        }
        lemma_run_parses_back::<T>(tail, rest);
        assert(parses_back::<T>(items[0]));
        let b = T::spec_serialize(items[0])->Ok_0;
        let bs = spec_serialize_all::<T>(tail)->Ok_0;
        assert((b + bs) + rest =~= b + (bs + rest));
        assert(T::spec_deserialize(b + (bs + rest)) matches Ok((n, _)) && n == b.len());
        assert((b + (bs + rest)).skip(b.len() as int) =~= bs + rest);
    }
}

/// When every value encodes, so does the run of them.
pub proof fn lemma_serialize_all_ok<T: DnsSerialize>(items: Seq<T::V>)
    requires
        forall|i: int| 0 <= i < items.len() ==> #[trigger] T::spec_serialize(items[i]) is Ok,
    ensures
        spec_serialize_all::<T>(items) is Ok,
    decreases items.len(),
{
    if items.len() > 0 {
        let tail = items.drop_first();
        assert forall|i: int| 0 <= i < tail.len() implies #[trigger] T::spec_serialize(tail[i]) is Ok by {
            assert(tail[i] == items[i + 1]);
        }
        lemma_serialize_all_ok::<T>(tail);
        assert(T::spec_serialize(items[0]) is Ok);
    }
}

} // verus!
