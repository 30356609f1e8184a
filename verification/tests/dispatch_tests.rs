use lighthouse::dispatch::into_input_order;
use lighthouse::errors::DispatchError;
use lighthouse::errors::TransportError;

type Outcome = Result<String, TransportError>;

fn ok(i: usize) -> (usize, Outcome) {
    (i, Ok(format!("response-{}", i)))
}

/// Simulates one batch completing in the given order and checks that the
/// collected results come back in input order regardless.
fn check_completion_order(completion: &[usize]) {
    let n = completion.len();
    let pairs: Vec<(usize, Outcome)> = completion.iter().map(|&i| ok(i)).collect();
    let out = into_input_order(pairs, n).unwrap();
    assert_eq!(out.len(), n);
    for (i, r) in out.iter().enumerate() {
        assert_eq!(r.as_ref().unwrap(), &format!("response-{}", i));
    }
}

#[test]
fn order_invariance_small_batches() {
    // batch sizes 0 and 1
    check_completion_order(&[]);
    check_completion_order(&[0]);
    // every permutation of a batch of 5 (latency order = completion order)
    let mut perm = vec![0usize, 1, 2, 3, 4];
    loop {
        check_completion_order(&perm);
        // next lexicographic permutation
        let mut i = 4;
        while i > 0 && perm[i - 1] >= perm[i] {
            i -= 1;
        }
        if i == 0 {
            break;
        }
        let mut j = 4;
        while perm[j] <= perm[i - 1] {
            j -= 1;
        }
        perm.swap(i - 1, j);
        perm[i..].reverse();
    }
}

#[test]
fn order_invariance_large_batch() {
    // a batch of 50 completing in a scrambled order
    let mut completion: Vec<usize> = (0..50).collect();
    completion.reverse();
    completion.swap(3, 40);
    completion.swap(0, 25);
    check_completion_order(&completion);
    // and completing in input order
    let in_order: Vec<usize> = (0..50).collect();
    check_completion_order(&in_order);
}

/// One failing target leaves every other slot a success, and the batch still
/// returns completely.
#[test]
fn fault_isolation() {
    let n = 7usize;
    let failing = 4usize;
    let mut pairs: Vec<(usize, Outcome)> = Vec::new();
    for i in (0..n).rev() {
        if i == failing {
            pairs.push((i, Err(TransportError::Connection(String::from("refused")))));
        } else {
            pairs.push(ok(i));
        }
    }
    let out = into_input_order(pairs, n).unwrap();
    assert_eq!(out.len(), n);
    for (i, r) in out.iter().enumerate() {
        if i == failing {
            assert_eq!(
                r.as_ref().unwrap_err(),
                &TransportError::Connection(String::from("refused"))
            );
        } else {
            assert_eq!(r.as_ref().unwrap(), &format!("response-{}", i));
        }
    }
}

#[test]
fn malformed_collections_are_aggregate_errors() {
    // an index out of range
    let pairs: Vec<(usize, Outcome)> = vec![ok(0), ok(2)];
    assert_eq!(into_input_order(pairs, 2).unwrap_err(), DispatchError::IndexOutOfRange);
    // a duplicated index
    let pairs: Vec<(usize, Outcome)> = vec![ok(1), ok(1)];
    assert_eq!(into_input_order(pairs, 2).unwrap_err(), DispatchError::DuplicateIndex);
    // a missing result
    let pairs: Vec<(usize, Outcome)> = vec![ok(0)];
    assert_eq!(into_input_order(pairs, 2).unwrap_err(), DispatchError::MissingResult);
}
