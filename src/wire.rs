use vstd::prelude::*;

use crate::weights::WeightedFact;

verus! {

// Layout of a batch of facts, one record per fact, in order, with nothing
// around them: the relation id, the weight (two's complement) and the value's
// length, each as 8 little-endian bytes, then the value's bytes.

/// A fact as plain values: relation id, value bytes, weight.
pub open spec fn fact_view(f: WeightedFact) -> (usize, Seq<u8>, i64) {
    (f.relid, f.value@, f.weight)
}

pub open spec fn fact_views(s: Seq<WeightedFact>) -> Seq<(usize, Seq<u8>, i64)> {
    s.map_values(|f: WeightedFact| fact_view(f))
}

/// The 8 little-endian bytes of `n`.
pub open spec fn le8(n: u64) -> Seq<u8> {
    seq![
        n as u8,
        (n >> 8u64) as u8,
        (n >> 16u64) as u8,
        (n >> 24u64) as u8,
        (n >> 32u64) as u8,
        (n >> 40u64) as u8,
        (n >> 48u64) as u8,
        (n >> 56u64) as u8,
    ]
}

/// The number whose little-endian bytes are the first 8 of `b`.
#[verifier::opaque]
pub open spec fn from_le8(b: Seq<u8>) -> u64 {
    (b[0] as u64) | ((b[1] as u64) << 8u64) | ((b[2] as u64) << 16u64) | ((b[3] as u64) << 24u64)
        | ((b[4] as u64) << 32u64) | ((b[5] as u64) << 40u64) | ((b[6] as u64) << 48u64) | ((
    b[7] as u64) << 56u64)
}

pub open spec fn encode_fact(f: WeightedFact) -> Seq<u8> {
    le8(f.relid as u64) + le8(f.weight as u64) + le8(f.value@.len() as u64) + f.value@
}

/// The encoding of a sequence of facts: their records, one after another.
pub open spec fn encode_facts(s: Seq<WeightedFact>) -> Seq<u8>
    decreases s.len(),
{
    if s.len() == 0 {
        Seq::empty()
    } else {
        encode_facts(s.drop_last()) + encode_fact(s.last())
    }
}

/// The facts that `b` encodes, if it is a sequence of whole, well-formed records.
pub open spec fn decode_facts(b: Seq<u8>) -> Option<Seq<(usize, Seq<u8>, i64)>>
    decreases b.len(),
{
    if b.len() == 0 {
        Some(Seq::empty())
    } else if b.len() < 24 {
        None
    } else {
        let relid = from_le8(b.subrange(0, 8));
        let weight = from_le8(b.subrange(8, 16)) as i64;
        let n = from_le8(b.subrange(16, 24)) as int;
        if relid > usize::MAX || n > b.len() - 24 {
            None
        } else {
            match decode_facts(b.subrange(24 + n, b.len() as int)) {
                Some(rest) => Some(seq![(relid as usize, b.subrange(24, 24 + n), weight)] + rest),
                None => None,
            }
        }
    }
}

proof fn lemma_le8_round_trip(n: u64)
    ensures
        from_le8(le8(n)) == n,
{
    reveal(from_le8);
    let b = le8(n);
    assert(b[0] == n as u8);
    assert(b[1] == (n >> 8u64) as u8);
    assert(b[2] == (n >> 16u64) as u8);
    assert(b[3] == (n >> 24u64) as u8);
    assert(b[4] == (n >> 32u64) as u8);
    assert(b[5] == (n >> 40u64) as u8);
    assert(b[6] == (n >> 48u64) as u8);
    assert(b[7] == (n >> 56u64) as u8);
    assert(((n as u8) as u64) | ((((n >> 8u64) as u8) as u64) << 8u64) | ((((n >> 16u64) as u8) as u64)
        << 16u64) | ((((n >> 24u64) as u8) as u64) << 24u64) | ((((n >> 32u64) as u8) as u64) << 32u64)
        | ((((n >> 40u64) as u8) as u64) << 40u64) | ((((n >> 48u64) as u8) as u64) << 48u64) | ((((n
        >> 56u64) as u8) as u64) << 56u64) == n) by (bit_vector);
}

proof fn lemma_weight_round_trip(w: i64)
    ensures
        ((w as u64) as i64) == w,
{
    assert(((w as u64) as i64) == w) by (bit_vector);
}

/// The first record of an encoding is the first fact's.
proof fn lemma_encode_front(s: Seq<WeightedFact>)
    requires
        s.len() > 0,
    ensures
        encode_facts(s) == encode_fact(s[0]) + encode_facts(s.drop_first()),
    decreases s.len(),
{
    if s.len() == 1 {
        assert(s.drop_last() =~= Seq::<WeightedFact>::empty());
        assert(s.drop_first() =~= Seq::<WeightedFact>::empty());
        assert(encode_facts(s) =~= encode_fact(s[0]) + encode_facts(s.drop_first()));
    } else {
        lemma_encode_front(s.drop_last());
        assert(s.drop_first().drop_last() =~= s.drop_last().drop_first());
        assert(s.drop_first().last() == s.last());
        assert(encode_facts(s) =~= encode_fact(s[0]) + encode_facts(s.drop_first()));
    }
}

/// Decoding the encoding of a sequence of facts gives back those facts.
#[verifier::rlimit(40)]
pub proof fn lemma_round_trip(s: Seq<WeightedFact>)
    requires
        forall|i: int| 0 <= i < s.len() ==> #[trigger] s[i].value@.len() <= usize::MAX,
    ensures
        decode_facts(encode_facts(s)) == Some(fact_views(s)),
    decreases s.len(),
{
    if s.len() == 0 {
        assert(fact_views(s) =~= Seq::<(usize, Seq<u8>, i64)>::empty());
    } else {
        lemma_encode_front(s);
        let f = s[0];
        let b = encode_facts(s);
        let n = f.value@.len() as int;
        let tail = encode_facts(s.drop_first());
        assert(b.subrange(0, 8) =~= le8(f.relid as u64));
        assert(b.subrange(8, 16) =~= le8(f.weight as u64));
        assert(b.subrange(16, 24) =~= le8(n as u64));
        assert(b.subrange(24, 24 + n) =~= f.value@);
        assert(b.subrange(24 + n, b.len() as int) =~= tail);
        lemma_le8_round_trip(f.relid as u64);
        lemma_le8_round_trip(f.weight as u64);
        lemma_le8_round_trip(n as u64);
        lemma_weight_round_trip(f.weight);
        assert(from_le8(b.subrange(0, 8)) == f.relid as u64);
        assert(from_le8(b.subrange(8, 16)) as i64 == f.weight);
        assert(from_le8(b.subrange(16, 24)) as int == n);
        assert(forall|i: int| 0 <= i < s.drop_first().len() ==> s.drop_first()[i] == s[i + 1]);
        lemma_round_trip(s.drop_first());
        assert(decode_facts(b) == Some(seq![(f.relid, f.value@, f.weight)] + fact_views(s.drop_first())));
        assert(seq![fact_view(f)] + fact_views(s.drop_first()) =~= fact_views(s));
    }
}

fn push_le8(out: &mut Vec<u8>, n: u64)
    ensures
        final(out)@ == old(out)@ + le8(n),
{
    out.push(n as u8);
    out.push((n >> 8u64) as u8);
    out.push((n >> 16u64) as u8);
    out.push((n >> 24u64) as u8);
    out.push((n >> 32u64) as u8);
    out.push((n >> 40u64) as u8);
    out.push((n >> 48u64) as u8);
    out.push((n >> 56u64) as u8);
    assert(out@ =~= old(out)@ + le8(n));
}

fn read_le8(b: &[u8], pos: usize) -> (r: u64)
    requires
        pos + 8 <= b@.len(),
    ensures
        r == from_le8(b@.subrange(pos as int, pos + 8)),
{
    reveal(from_le8);
    let s = Ghost(b@.subrange(pos as int, pos + 8));
    assert(s@[0] == b@[pos as int] && s@[1] == b@[pos + 1] && s@[2] == b@[pos + 2] && s@[3] == b@[pos + 3]);
    assert(s@[4] == b@[pos + 4] && s@[5] == b@[pos + 5] && s@[6] == b@[pos + 6] && s@[7] == b@[pos + 7]);
    (b[pos] as u64) | ((b[pos + 1] as u64) << 8u64) | ((b[pos + 2] as u64) << 16u64) | ((b[pos + 3] as u64)
        << 24u64) | ((b[pos + 4] as u64) << 32u64) | ((b[pos + 5] as u64) << 40u64) | ((b[pos
        + 6] as u64) << 48u64) | ((b[pos + 7] as u64) << 56u64)
}

/// Encodes a batch of facts for the wire.
pub fn serialize_facts(facts: &Vec<WeightedFact>) -> (r: Vec<u8>)
    ensures
        r@ == encode_facts(facts@),
{
    let mut out: Vec<u8> = Vec::new();
    let mut i: usize = 0;
    while i < facts.len()
        invariant
            i <= facts@.len(),
            out@ == encode_facts(facts@.subrange(0, i as int)),
        decreases facts.len() - i,
    {
        let f = &facts[i];
        assert(facts@.subrange(0, i + 1).drop_last() =~= facts@.subrange(0, i as int));
        push_le8(&mut out, f.relid as u64);
        push_le8(&mut out, f.weight as u64);
        push_le8(&mut out, f.value.len() as u64);
        let mut j: usize = 0;
        let ghost head = out@;
        while j < f.value.len()
            invariant
                j <= f.value@.len(),
                out@ == head + f.value@.subrange(0, j as int),
            decreases f.value.len() - j,
        {
            out.push(f.value[j]);
            j += 1;
            assert(out@ =~= head + f.value@.subrange(0, j as int));
        }
        assert(f.value@.subrange(0, j as int) =~= f.value@);
        assert(out@ =~= encode_facts(facts@.subrange(0, i as int)) + encode_fact(*f));
        i += 1;
    }
    assert(facts@.subrange(0, i as int) =~= facts@);
    out
}

/// Decodes a batch of facts from the wire: None unless the bytes are whole,
/// well-formed records.
pub fn deserialize_facts(b: &[u8]) -> (r: Option<Vec<WeightedFact>>)
    ensures
        match r {
            Some(v) => decode_facts(b@) == Some(fact_views(v@)),
            None => decode_facts(b@) is None,
        },
{
    let mut out: Vec<WeightedFact> = Vec::new();
    let mut pos: usize = 0;
    assert(b@.subrange(0, b@.len() as int) =~= b@);
    assert(fact_views(out@) =~= Seq::<(usize, Seq<u8>, i64)>::empty());
    while pos < b.len()
        invariant
            pos <= b@.len(),
            decode_facts(b@) == match decode_facts(b@.subrange(pos as int, b@.len() as int)) {
                Some(rest) => Some(fact_views(out@) + rest),
                None => None::<Seq<(usize, Seq<u8>, i64)>>,
            },
        decreases b.len() - pos,
    {
        let ghost s = b@.subrange(pos as int, b@.len() as int);
        let left = b.len() - pos;
        if left < 24 {
            return None;
        }
        let relid = read_le8(b, pos);
        let w = read_le8(b, pos + 8);
        let n = read_le8(b, pos + 16);
        assert(s.subrange(0, 8) =~= b@.subrange(pos as int, pos + 8));
        assert(s.subrange(8, 16) =~= b@.subrange(pos + 8, pos + 16));
        assert(s.subrange(16, 24) =~= b@.subrange(pos + 16, pos + 24));
        if relid > usize::MAX as u64 || n > (left - 24) as u64 {
            return None;
        }
        let n = n as usize;
        let start = pos + 24;
        let mut value: Vec<u8> = Vec::new();
        let mut j: usize = 0;
        while j < n
            invariant
                start + n <= b.len(),
                j <= n,
                value@ == b@.subrange(start as int, start + j),
            decreases n - j,
        {
            value.push(b[start + j]);
            j += 1;
            assert(value@ =~= b@.subrange(start as int, start + j));
        }
        assert(s.subrange(24, 24 + n) =~= value@);
        let ghost old_out = out@;
        out.push(WeightedFact { relid: relid as usize, value, weight: #[verifier::truncate] (w as i64) });
        pos = start + n;
        assert(s.subrange(24 + n, s.len() as int) =~= b@.subrange(pos as int, b@.len() as int));
        assert(fact_views(out@) =~= fact_views(old_out).push(fact_view(out@.last())));
        assert forall|rest: Seq<(usize, Seq<u8>, i64)>| #![auto]
            fact_views(old_out) + (seq![fact_view(out@.last())] + rest) =~= fact_views(out@) + rest by {};
    }
    assert(b@.subrange(pos as int, b@.len() as int) =~= Seq::<u8>::empty());
    assert(fact_views(out@) + Seq::<(usize, Seq<u8>, i64)>::empty() =~= fact_views(out@));
    Some(out)
}

} // verus!
