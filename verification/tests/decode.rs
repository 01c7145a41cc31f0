use quack::{DecodeError, DecodedQuack, PowerSumQuack, Quack};

fn sketch_of(threshold: usize, ids: &[u16]) -> PowerSumQuack {
    let mut q = PowerSumQuack::new(threshold);
    for &id in ids {
        q.insert(id);
    }
    q
}

#[test]
fn decode_names_the_three_missing_identifiers() {
    let a = sketch_of(20, &[1, 2, 3]);
    let b = sketch_of(20, &[]);
    let difference = a.snapshot().sub(&b.snapshot());
    assert_eq!(difference.count(), 3);
    let result = DecodedQuack::decode(difference, vec![1, 2, 3]);
    assert_eq!(result, DecodedQuack::Missing(vec![1, 2, 3]));
}

#[test]
fn decode_of_an_empty_difference_is_an_empty_list() {
    let a = sketch_of(5, &[10, 20, 30]);
    let b = sketch_of(5, &[30, 10, 20]);
    let difference = a.snapshot().sub(&b.snapshot());
    assert_eq!(DecodedQuack::decode(difference, vec![10, 20, 30]), DecodedQuack::Missing(vec![]));
}

#[test]
fn decode_fails_beyond_the_threshold() {
    let a = sketch_of(2, &[7, 8, 9]);
    let b = sketch_of(2, &[]);
    let difference = a.snapshot().sub(&b.snapshot());
    assert_eq!(
        DecodedQuack::decode(difference, vec![7, 8, 9]),
        DecodedQuack::Failed(DecodeError::DegreeExceedsThreshold)
    );
}

#[test]
fn decode_keeps_the_order_of_the_log() {
    let a = sketch_of(4, &[500, 40000, 3, 65000, 12]);
    let b = sketch_of(4, &[3, 12]);
    let difference = a.snapshot().sub(&b.snapshot());
    let result = DecodedQuack::decode(difference, vec![500, 40000, 3, 65000, 12]);
    assert_eq!(result, DecodedQuack::Missing(vec![500, 40000, 65000]));
}

#[test]
fn decode_reports_a_root_that_the_log_lacks() {
    let a = sketch_of(4, &[100, 200]);
    let b = sketch_of(4, &[]);
    let difference = a.snapshot().sub(&b.snapshot());
    let result = DecodedQuack::decode(difference, vec![100, 300]);
    assert_eq!(result, DecodedQuack::Failed(DecodeError::CountMismatch));
}

#[test]
fn decode_fails_on_a_repeated_missing_identifier() {
    let a = sketch_of(4, &[5, 5]);
    let b = sketch_of(4, &[]);
    let difference = a.snapshot().sub(&b.snapshot());
    let result = DecodedQuack::decode(difference, vec![5, 5]);
    assert_eq!(result, DecodedQuack::Failed(DecodeError::FactoringFailed));
}

#[test]
fn coefficients_follow_newtons_identities() {
    // The roots 1, 2, 3 give x^3 - 6x^2 + 11x - 6.
    let q = sketch_of(5, &[1, 2, 3]).snapshot();
    let coeffs = q.to_coefficients();
    let values: Vec<u16> = coeffs.iter().map(|c| c.value()).collect();
    assert_eq!(values, vec![65521 - 6, 11, 65521 - 6]);
}

#[test]
fn a_single_missing_identifier() {
    let a = sketch_of(1, &[9, 65000, 77]);
    let b = sketch_of(1, &[9, 77]);
    let difference = a.snapshot().sub(&b.snapshot());
    assert_eq!(difference.to_coefficients()[0].value(), 521);
    let result = DecodedQuack::decode(difference, vec![9, 65000, 77]);
    assert_eq!(result, DecodedQuack::Missing(vec![65000]));
}

#[test]
fn decode_up_to_the_threshold() {
    let all: Vec<u16> = (0..40).map(|i| (i * 1601 + 5) as u16).collect();
    let received: Vec<u16> = all.iter().copied().filter(|id| id % 2 == 0).collect();
    let missing: Vec<u16> = all.iter().copied().filter(|id| id % 2 == 1).collect();
    assert_eq!(missing.len(), 20);
    let a = sketch_of(20, &all);
    let b = sketch_of(20, &received);
    let difference = a.snapshot().sub(&b.snapshot());
    assert_eq!(DecodedQuack::decode(difference, all), DecodedQuack::Missing(missing));
}

#[test]
fn identifiers_that_differ_by_the_modulus_look_the_same() {
    // 65521 is congruent to 0: both entries of the log match the root 0.
    let a = sketch_of(2, &[0, 65521]);
    let b = sketch_of(2, &[65521]);
    let difference = a.snapshot().sub(&b.snapshot());
    let result = DecodedQuack::decode(difference, vec![0, 65521]);
    assert_eq!(result, DecodedQuack::Missing(vec![0, 65521]));
}

#[test]
fn a_sketch_that_is_no_difference_fails_to_factor() {
    // Power sums of no set: a sum of 0 and a sum of squares of 34 give
    // x^2 - 17, and 17 has no square root in the field.
    let difference = quack::QuackSnapshot::from_parts(2, vec![0, 34], 2).unwrap();
    let coeffs: Vec<u16> = difference.to_coefficients().iter().map(|c| c.value()).collect();
    assert_eq!(coeffs, vec![0, 65521 - 17]);
    let result = DecodedQuack::decode(difference, vec![1, 2]);
    assert_eq!(result, DecodedQuack::Failed(DecodeError::FactoringFailed));
}

#[test]
fn roots_from_elsewhere_are_checked() {
    let q = sketch_of(3, &[4, 5]).snapshot();
    let coeffs = q.to_coefficients();
    let log = vec![4, 5, 6];
    assert_eq!(
        DecodedQuack::decode_with_roots(&coeffs, &log, Ok(vec![5, 4])),
        DecodedQuack::Missing(vec![4, 5])
    );
    assert_eq!(
        DecodedQuack::decode_with_roots(&coeffs, &log, Err("no factoring here".to_string())),
        DecodedQuack::Failed(DecodeError::FactoringFailed)
    );
    assert_eq!(
        DecodedQuack::decode_with_roots(&coeffs, &log, Ok(vec![4])),
        DecodedQuack::Failed(DecodeError::FactoringFailed)
    );
    assert_eq!(
        DecodedQuack::decode_with_roots(&coeffs, &log, Ok(vec![4, 6])),
        DecodedQuack::Failed(DecodeError::FactoringFailed)
    );
    assert_eq!(
        DecodedQuack::decode_with_roots(&coeffs, &vec![4, 6], Ok(vec![4, 5])),
        DecodedQuack::Failed(DecodeError::CountMismatch)
    );
}
