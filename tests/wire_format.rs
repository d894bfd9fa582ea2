use d3main::weights::WeightedFact;
use d3main::wire::{deserialize_facts, serialize_facts};

fn fact(relid: usize, value: &[u8], weight: i64) -> WeightedFact {
    WeightedFact { relid, value: value.to_vec(), weight }
}

fn triples(v: &[WeightedFact]) -> Vec<(usize, Vec<u8>, i64)> {
    v.iter().map(|f| (f.relid, f.value.clone(), f.weight)).collect()
}

#[test]
fn one_fact_layout() {
    let bytes = serialize_facts(&vec![fact(2, b"ab", -1)]);
    let mut expected = vec![2, 0, 0, 0, 0, 0, 0, 0];
    expected.extend_from_slice(&[0xff; 8]);
    expected.extend_from_slice(&[2, 0, 0, 0, 0, 0, 0, 0]);
    expected.extend_from_slice(b"ab");
    assert_eq!(bytes, expected);
}

#[test]
fn batch_round_trips() {
    let facts = vec![fact(1, b"x", 3), fact(7, b"", i64::MIN), fact(300, b"{\"a\":1}", i64::MAX)];
    let back = deserialize_facts(&serialize_facts(&facts)).unwrap();
    assert_eq!(triples(&back), triples(&facts));
}

#[test]
fn empty_batch_round_trips() {
    assert_eq!(serialize_facts(&vec![]), Vec::<u8>::new());
    assert!(deserialize_facts(&[]).unwrap().is_empty());
}

#[test]
fn truncated_record_is_refused() {
    let bytes = serialize_facts(&vec![fact(1, b"xyz", 1)]);
    assert!(deserialize_facts(&bytes[..bytes.len() - 1]).is_none());
    assert!(deserialize_facts(&bytes[..10]).is_none());
}

#[test]
fn overlong_length_is_refused() {
    let mut bytes = serialize_facts(&vec![fact(1, b"xyz", 1)]);
    bytes[16] = 4;
    assert!(deserialize_facts(&bytes).is_none());
}
