use quack::{PowerSumQuack, Quack, QuackSnapshot, SnapshotError};

fn snapshot_of(threshold: usize, ids: &[u16]) -> QuackSnapshot {
    let mut q = PowerSumQuack::new(threshold);
    for &id in ids {
        q.insert(id);
    }
    q.snapshot()
}

#[test]
fn a_snapshot_is_laid_out_little_endian() {
    let q = snapshot_of(3, &[1, 2, 300]);
    // count 3; three power sums; 303, 90005 mod p = 24484, 27000009 mod p = 5357
    assert_eq!(q.values(), vec![303, 24484, 5357]);
    assert_eq!(
        q.to_bytes(),
        vec![3, 0, 3, 0, 0, 0, 0, 0, 0, 0, 0x2f, 0x01, 0xa4, 0x5f, 0xed, 0x14]
    );
}

#[test]
fn bytes_give_the_snapshot_back() {
    let q = snapshot_of(20, &[65535, 0, 17, 40000]);
    let bytes = q.to_bytes();
    assert_eq!(bytes.len(), 2 + 8 + 2 * 20);
    assert_eq!(QuackSnapshot::from_bytes(&bytes, 20), Ok(q));
}

#[test]
fn bytes_are_read_as_they_are_laid_out() {
    let bytes = [0x34, 0x12, 2, 0, 0, 0, 0, 0, 0, 0, 0xff, 0x00, 0x00, 0x01];
    let q = QuackSnapshot::from_bytes(&bytes, 2).unwrap();
    assert_eq!(q.count(), 0x1234);
    assert_eq!(q.values(), vec![255, 256]);
}

#[test]
fn bytes_after_the_snapshot_are_ignored() {
    let mut bytes = snapshot_of(2, &[7]).to_bytes();
    bytes.extend_from_slice(&[9, 9, 9]);
    assert_eq!(QuackSnapshot::from_bytes(&bytes, 2), Ok(snapshot_of(2, &[7])));
}

#[test]
fn short_bytes_are_malformed() {
    let bytes = snapshot_of(2, &[7]).to_bytes();
    for end in 0..bytes.len() {
        assert_eq!(
            QuackSnapshot::from_bytes(&bytes[..end], 2),
            Err(SnapshotError::Malformed)
        );
    }
    // A length that the bytes cannot hold.
    let huge = [0, 0, 0xff, 0xff, 0xff, 0xff, 0xff, 0xff, 0xff, 0xff, 1, 0];
    assert_eq!(QuackSnapshot::from_bytes(&huge, 2), Err(SnapshotError::Malformed));
}

#[test]
fn another_threshold_is_refused() {
    let bytes = snapshot_of(3, &[7]).to_bytes();
    assert_eq!(QuackSnapshot::from_bytes(&bytes, 2), Err(SnapshotError::WrongThreshold));
    assert_eq!(QuackSnapshot::from_bytes(&bytes, 4), Err(SnapshotError::WrongThreshold));
}

#[test]
fn a_power_sum_that_is_no_field_element_is_refused() {
    let bytes = [1, 0, 1, 0, 0, 0, 0, 0, 0, 0, 0xf1, 0xff];
    assert_eq!(QuackSnapshot::from_bytes(&bytes, 1), Err(SnapshotError::NotReduced));
    let bytes = [1, 0, 1, 0, 0, 0, 0, 0, 0, 0, 0xf0, 0xff];
    assert_eq!(QuackSnapshot::from_bytes(&bytes, 1).unwrap().values(), vec![65520]);
}
