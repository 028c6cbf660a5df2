use crate::dns_serde::{DnsDeserialize, DnsError, DnsSerialize};
use vstd::prelude::*;
use vstd::slice::slice_to_vec;
use vstd::string::StringSliceAdditionalSpecFns;

verus! {

/// The byte `.` that separates the labels of a dotted name.
pub const DOT: u8 = 46;

/// The bytes after the last dot of `s`.
pub open spec fn last_segment(s: Seq<u8>) -> Seq<u8>
    decreases s.len(),
{
    if s.len() == 0 {
        Seq::empty()
    } else if s.last() == DOT {
        Seq::empty()
    } else {
        last_segment(s.drop_last()).push(s.last())
    }
}

/// The non-empty segments of `s` that a dot closes, in order.
pub open spec fn closed_labels(s: Seq<u8>) -> Seq<Seq<u8>>
    decreases s.len(),
{
    if s.len() == 0 {
        Seq::empty()
    } else if s.last() == DOT && last_segment(s.drop_last()).len() > 0 {
        closed_labels(s.drop_last()).push(last_segment(s.drop_last()))
    } else {
        closed_labels(s.drop_last())
    }
}

/// The labels of a dotted name: its non-empty dot-separated segments, in order.
pub open spec fn name_labels(s: Seq<u8>) -> Seq<Seq<u8>> {
    if last_segment(s).len() > 0 {
        closed_labels(s).push(last_segment(s))
    } else {
        closed_labels(s)
    }
}

/// Every label is non-empty and short enough for its length byte.
pub open spec fn labels_fit(ls: Seq<Seq<u8>>) -> bool {
    forall|i: int| 0 <= i < ls.len() ==> 0 < #[trigger] ls[i].len() <= 255
}

/// Every label is short enough for its length byte.
pub open spec fn labels_short(ls: Seq<Seq<u8>>) -> bool {
    forall|i: int| 0 <= i < ls.len() ==> #[trigger] ls[i].len() <= 255
}

/// Wire form of a label sequence: each label as its length byte and its bytes, then a zero byte.
pub open spec fn encode_labels(ls: Seq<Seq<u8>>) -> Seq<u8>
    decreases ls.len(),
{
    if ls.len() == 0 {
        seq![0u8]
    } else {
        seq![ls[0].len() as u8] + ls[0] + encode_labels(ls.drop_first())
    }
}

/// Reading length-prefixed labels from the front of `data` up to the zero byte that ends them:
/// the bytes consumed, terminator included, and the labels.
pub open spec fn parse_labels(data: Seq<u8>) -> Result<(nat, Seq<Seq<u8>>), DnsError>
    decreases data.len(),
{
    if data.len() == 0 {
        Err(DnsError::Truncated)
    } else if data[0] == 0 {
        Ok((1, Seq::empty()))
    } else if data.len() < 1 + data[0] {
        Err(DnsError::Truncated)
    } else {
        match parse_labels(data.skip(1 + data[0])) {
            Ok((c, ls)) => Ok(((1 + data[0] + c) as nat, seq![data.subrange(1, 1 + data[0])] + ls)),
            Err(e) => Err(e),
        }
    }
}

/// A domain name, held as its labels.
#[derive(Debug, PartialEq, Eq)]
pub struct LabelSeq {
    labels: Vec<Vec<u8>>,
}

impl View for LabelSeq {
    type V = Seq<Seq<u8>>;

    closed spec fn view(&self) -> Seq<Seq<u8>> {
        self.labels@.map_values(|l: Vec<u8>| l@)
    }
}

impl LabelSeq {
    #[verifier::type_invariant]
    spec fn no_empty_label(&self) -> bool {
        forall|i: int| 0 <= i < self.labels@.len() ==> #[trigger] self.labels@[i]@.len() > 0
    }

    /// The name whose labels are the non-empty dot-separated segments of `name`.
    pub fn _new(name: &str) -> (r: Self)
        ensures
            r@ == name_labels(name.spec_bytes()),
    {
        let bytes = name.as_bytes();
        let mut labels: Vec<Vec<u8>> = Vec::new();
        let mut cur: Vec<u8> = Vec::new();
        let mut i: usize = 0;
        while i < bytes.len()
            invariant
                i <= bytes@.len(),
                cur@ == last_segment(bytes@.take(i as int)),
                labels@.map_values(|l: Vec<u8>| l@) == closed_labels(bytes@.take(i as int)),
                forall|j: int| 0 <= j < labels@.len() ==> #[trigger] labels@[j]@.len() > 0,
            decreases bytes@.len() - i,
        {
            let b = bytes[i];
            proof {
                let t = bytes@.take(i as int + 1);
                assert(t.drop_last() =~= bytes@.take(i as int));
                assert(t.last() == b);
            }
            if b == DOT {
                if cur.len() > 0 {
                    labels.push(cur);
                    proof {
                        assert(labels@.map_values(|l: Vec<u8>| l@) =~= closed_labels(bytes@.take(i as int + 1)));
                    }
                }
                cur = Vec::new();
            } else {
                cur.push(b);
            }
            i = i + 1;
        }
        proof {
            assert(bytes@.take(i as int) =~= bytes@);
        }
        if cur.len() > 0 {
            labels.push(cur);
            proof {
                assert(labels@.map_values(|l: Vec<u8>| l@) =~= name_labels(bytes@));
            }
        }
        LabelSeq { labels }
    }
}

impl DnsSerialize for LabelSeq {
    /// A name encodes when every label fits its length byte.
    open spec fn spec_serialize(ls: Seq<Seq<u8>>) -> Result<Seq<u8>, DnsError> {
        if labels_short(ls) {
            Ok(encode_labels(ls))
        } else {
            Err(DnsError::LabelTooLong)
        }
    }

    fn serialize(&self) -> (r: Result<Vec<u8>, DnsError>) {
        let mut v: Vec<u8> = Vec::new();
        let mut i: usize = 0;
        proof {
            assert(self@.skip(0) =~= self@);
            assert(v@ + encode_labels(self@) =~= encode_labels(self@));
        }
        while i < self.labels.len()
            invariant
                i <= self.labels@.len(),
                forall|j: int| 0 <= j < i ==> #[trigger] self@[j].len() <= 255,
                v@ + encode_labels(self@.skip(i as int)) == encode_labels(self@),
            decreases self.labels@.len() - i,
        {
            let label = &self.labels[i];
            if label.len() > 255 {
                return Err(DnsError::LabelTooLong);
            }
            proof {
                let rest = self@.skip(i as int);
                assert(rest.drop_first() =~= self@.skip(i as int + 1));
                assert(rest[0] == label@);
            }
            let old_v = Ghost(v@);
            v.push(label.len() as u8);
            v.extend_from_slice(label.as_slice());
            proof {
                assert(v@ =~= old_v@ + seq![label@.len() as u8] + label@);
                let rest = self@.skip(i as int);
                assert(old_v@ + encode_labels(rest) =~= v@ + encode_labels(self@.skip(i as int + 1)));
            }
            i = i + 1;
        }
        v.push(0u8);
        proof {
            assert(self@.skip(i as int).len() == 0);
            assert(v@ =~= encode_labels(self@));
        }
        Ok(v)
    }
}

impl DnsDeserialize for LabelSeq {
    open spec fn spec_deserialize(data: Seq<u8>) -> Result<(nat, Seq<Seq<u8>>), DnsError> {
        parse_labels(data)
    }

    proof fn lemma_consumed_bounded(data: Seq<u8>)
        decreases data.len(),
    {
        if data.len() > 0 && data[0] != 0 && data.len() >= 1 + data[0] {
            Self::lemma_consumed_bounded(data.skip(1 + data[0]));
        }
    }

    fn deserialize(data: &[u8]) -> (r: Result<(&[u8], Self), DnsError>) {
        let mut labels: Vec<Vec<u8>> = Vec::new();
        let mut pos: usize = 0;
        proof {
            assert(data@.skip(0) =~= data@);
            let e = labels@.map_values(|l: Vec<u8>| l@);
            assert forall|ls: Seq<Seq<u8>>| #[trigger] (e + ls) =~= ls by {}
        }
        loop
            invariant
                pos <= data@.len(),
                forall|j: int| 0 <= j < labels@.len() ==> #[trigger] labels@[j]@.len() > 0,
                parse_labels(data@) == match parse_labels(data@.skip(pos as int)) {
                    Ok((c, ls)) => Ok::<(nat, Seq<Seq<u8>>), DnsError>(((pos + c) as nat, labels@.map_values(|l: Vec<u8>| l@) + ls)),
                    Err(e) => Err(e),
                },
            decreases data@.len() - pos,
        {
            let ghost here = data@.skip(pos as int);
            if pos >= data.len() {
                return Err(DnsError::Truncated);
            }
            let n = data[pos] as usize;
            assert(here[0] == data@[pos as int]);
            if n == 0 {
                let rest = &data[pos + 1..data.len()];
                let r = LabelSeq { labels };
                proof {
                    assert(rest@ =~= data@.skip(pos + 1));
                    assert(r@ + Seq::<Seq<u8>>::empty() =~= r@);
                }
                return Ok((rest, r));
            }
            if data.len() - pos - 1 < n {
                return Err(DnsError::Truncated);
            }
            let label = slice_to_vec(&data[pos + 1..pos + 1 + n]);
            proof {
                assert(here.skip(1 + n) =~= data@.skip(pos + 1 + n));
                assert(label@ =~= here.subrange(1, 1 + n as int));
                let old_ls = labels@.map_values(|l: Vec<u8>| l@);
                let new_ls = labels@.push(label).map_values(|l: Vec<u8>| l@);
                assert(new_ls =~= old_ls.push(label@));
                assert forall|tail: Seq<Seq<u8>>| #![auto] old_ls + (seq![label@] + tail) =~= new_ls + tail by {}
            }
            labels.push(label);
            pos = pos + 1 + n;
        }
    }
}

impl Default for LabelSeq {
    fn default() -> (r: Self)
        ensures
            r@ == Seq::<Seq<u8>>::empty(),
    {
        let r = LabelSeq { labels: Vec::new() };
        proof {
            assert(r@ =~= Seq::<Seq<u8>>::empty());
        }
        r
    }
}

/// Decoding the encoding of a name whose labels are 1 to 255 bytes long gives the name back,
/// consumes exactly the encoding, and leaves whatever followed it. The encoding ends in the one
/// zero byte that terminates it.
pub proof fn lemma_label_round_trip(ls: Seq<Seq<u8>>, rest: Seq<u8>)
    requires
        labels_fit(ls),
    ensures
        LabelSeq::spec_serialize(ls) == Ok::<Seq<u8>, DnsError>(encode_labels(ls)),
        encode_labels(ls).last() == 0,
        LabelSeq::spec_deserialize(encode_labels(ls) + rest) == Ok::<(nat, Seq<Seq<u8>>), DnsError>(
            (encode_labels(ls).len(), ls),
        ),
    decreases ls.len(),
{
    if ls.len() > 0 {
        let tail = ls.drop_first();
        assert(labels_fit(tail)) by {
            assert forall|i: int| 0 <= i < tail.len() implies 0 < #[trigger] tail[i].len() <= 255 by {
                assert(tail[i] == ls[i + 1]);
            }
        }
        lemma_label_round_trip(tail, rest);
        let n = ls[0].len() as int;
        assert(0 < n <= 255 && ls[0].len() == n) by {
            assert(0 < ls[0].len() <= 255);
        }
        let data = encode_labels(ls) + rest;
        assert(data =~= seq![n as u8] + ls[0] + (encode_labels(tail) + rest));
        assert(data[0] == n as u8);
        assert(data.skip(1 + n) =~= encode_labels(tail) + rest);
        assert(data.subrange(1, 1 + n) =~= ls[0]);
        assert(seq![ls[0]] + tail =~= ls);
        assert(data.len() >= 1 + n);
        assert(parse_labels(data.skip(1 + n)) == Ok::<(nat, Seq<Seq<u8>>), DnsError>((encode_labels(tail).len(), tail)));
    } else {
        assert((encode_labels(ls) + rest)[0] == 0);
        assert(ls =~= Seq::<Seq<u8>>::empty());
    }
}

/// The labels taken from a dotted name are never empty.
pub proof fn lemma_name_labels_nonempty(s: Seq<u8>)
    ensures
        forall|i: int| 0 <= i < name_labels(s).len() ==> #[trigger] name_labels(s)[i].len() > 0,
{
    lemma_closed_labels_nonempty(s);
}

proof fn lemma_closed_labels_nonempty(s: Seq<u8>)
    ensures
        forall|i: int| 0 <= i < closed_labels(s).len() ==> #[trigger] closed_labels(s)[i].len() > 0,
    decreases s.len(),
{
    if s.len() > 0 {
        let pre = s.drop_last();
        lemma_closed_labels_nonempty(pre);
        if s.last() == DOT && last_segment(pre).len() > 0 {
            let c = closed_labels(s);
            assert(c == closed_labels(pre).push(last_segment(pre)));
            assert forall|i: int| 0 <= i < c.len() implies #[trigger] c[i].len() > 0 by {
                if i < closed_labels(pre).len() {
                    assert(c[i] == closed_labels(pre)[i]);
                }
            }
        } else {
            assert(closed_labels(s) == closed_labels(pre));
        }
    }
}

/// A dotted name whose labels are at most 255 bytes long encodes; decoding that encoding gives
/// the name's labels back and consumes exactly the encoding, which ends in its one zero byte.
pub proof fn lemma_name_round_trip(name: Seq<u8>, rest: Seq<u8>)
    requires
        labels_short(name_labels(name)),
    ensures
        LabelSeq::spec_serialize(name_labels(name)) matches Ok(b) && b.last() == 0
            && LabelSeq::spec_deserialize(b + rest) == Ok::<(nat, Seq<Seq<u8>>), DnsError>(
            (b.len(), name_labels(name)),
        ),
{
    let ls = name_labels(name);
    lemma_name_labels_nonempty(name);
    assert(labels_fit(ls)) by {
        assert forall|i: int| 0 <= i < ls.len() implies 0 < #[trigger] ls[i].len() <= 255 by {
            assert(ls[i].len() > 0);
        }
    }
    lemma_label_round_trip(ls, rest);
}

/// Decoded labels are 1 to 255 bytes long.
pub proof fn lemma_parsed_labels_fit(data: Seq<u8>)
    ensures
        parse_labels(data) matches Ok((_, ls)) ==> labels_fit(ls),
    decreases data.len(),
{
    if data.len() > 0 && data[0] != 0 && data.len() >= 1 + data[0] {
        lemma_parsed_labels_fit(data.skip(1 + data[0]));
        if let Ok((_, ls)) = parse_labels(data) {
            let tail = parse_labels(data.skip(1 + data[0]))->Ok_0.1;
            assert(ls == seq![data.subrange(1, 1 + data[0])] + tail);
            assert forall|i: int| 0 <= i < ls.len() implies 0 < #[trigger] ls[i].len() <= 255 by {
                if i > 0 {
                    assert(ls[i] == tail[i - 1]);
                }
            }
        }
    }
}

impl Clone for LabelSeq {
    fn clone(&self) -> (r: Self)
        ensures
            r@ == self@,
    {
        proof {
            use_type_invariant(self);
        }
        let mut labels: Vec<Vec<u8>> = Vec::new();
        let mut i: usize = 0;
        while i < self.labels.len()
            invariant
                i <= self.labels@.len(),
                labels@.len() == i,
                forall|j: int| 0 <= j < i ==> #[trigger] labels@[j]@ == self.labels@[j]@,
                forall|j: int| 0 <= j < self.labels@.len() ==> #[trigger] self.labels@[j]@.len() > 0,
            decreases self.labels@.len() - i,
        {
            labels.push(slice_to_vec(self.labels[i].as_slice()));
            i = i + 1;
        }
        let r = LabelSeq { labels };
        proof {
            assert(r@ =~= self@);
        }
        r
    }
}


} // verus!
