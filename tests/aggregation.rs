use d3main::evaluator::D3;
use d3main::weights::{aggregate, ConversionError, NetUpdate, WeightedFact};

fn fact(relid: usize, value: &[u8], weight: i64) -> WeightedFact {
    WeightedFact { relid, value: value.to_vec(), weight }
}

fn triples(ups: &[NetUpdate]) -> Vec<(usize, Vec<u8>, i128)> {
    ups.iter().map(|u| (u.relid, u.value.clone(), u.weight)).collect()
}

#[test]
fn weights_of_one_fact_are_summed() {
    let facts = vec![fact(3, b"v", 1), fact(3, b"v", 2), fact(3, b"v", -1)];
    assert_eq!(triples(&aggregate(&facts)), vec![(3, b"v".to_vec(), 2)]);
}

#[test]
fn cancelling_weights_are_dropped() {
    let facts = vec![fact(3, b"v", 1), fact(4, b"w", 5), fact(3, b"v", -1)];
    assert_eq!(triples(&aggregate(&facts)), vec![(4, b"w".to_vec(), 5)]);
}

#[test]
fn same_value_in_two_relations_stays_apart() {
    let facts = vec![fact(1, b"v", 1), fact(2, b"v", 1), fact(1, b"u", -2)];
    assert_eq!(
        triples(&aggregate(&facts)),
        vec![(1, b"v".to_vec(), 1), (2, b"v".to_vec(), 1), (1, b"u".to_vec(), -2)]
    );
}

#[test]
fn large_weights_do_not_overflow() {
    let facts = vec![fact(0, b"", i64::MAX), fact(0, b"", i64::MAX), fact(0, b"", i64::MAX)];
    assert_eq!(triples(&aggregate(&facts)), vec![(0, vec![], 3 * (i64::MAX as i128))]);
}

#[test]
fn empty_batch_has_no_updates() {
    assert!(aggregate(&vec![]).is_empty());
}

#[test]
fn eval_aggregates_converted_batch() {
    let d = D3::new(9);
    let batch = vec![Ok(fact(3, b"v", 1)), Ok(fact(3, b"v", 2)), Ok(fact(3, b"v", -1))];
    assert_eq!(triples(&d.eval_updates(batch).unwrap()), vec![(3, b"v".to_vec(), 2)]);
}

#[test]
fn eval_fails_on_first_bad_record() {
    let d = D3::new(9);
    let batch = vec![
        Ok(fact(3, b"v", 1)),
        Err(ConversionError { relid: 5 }),
        Ok(fact(3, b"w", 1)),
        Err(ConversionError { relid: 6 }),
    ];
    assert_eq!(d.eval_updates(batch).err(), Some(ConversionError { relid: 5 }));
}
