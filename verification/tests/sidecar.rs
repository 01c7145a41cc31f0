use quack::sidecar::{decode_received, Captured};
use quack::{
    DecodeError, DecodedQuack, PowerSumQuack, Quack, Schedule, Sidecar, SidecarType,
    SnapshotError,
};

fn sketch_of(threshold: usize, ids: &[u16]) -> PowerSumQuack {
    let mut q = PowerSumQuack::new(threshold);
    for &id in ids {
        q.insert(id);
    }
    q
}

#[test]
fn the_first_identifier_is_told_once() {
    let mut sc = Sidecar::new(SidecarType::QuackSender, 4, Schedule::Never);
    assert_eq!(sc.sidecar_type(), SidecarType::QuackSender);
    assert_eq!(sc.threshold(), 4);
    assert_eq!(sc.capture(11), Captured { first: true, emit: None });
    assert_eq!(sc.capture(12), Captured { first: false, emit: None });
    assert_eq!(sc.capture(11), Captured { first: false, emit: None });
    assert_eq!(sc.quack(), sketch_of(4, &[11, 12, 11]).snapshot());
}

#[test]
fn without_a_schedule_nothing_is_ever_sent() {
    let mut sc = Sidecar::new(SidecarType::QuackSender, 2, Schedule::Never);
    sc.capture(1);
    assert_eq!(sc.arm(100), None);
    assert_eq!(sc.next_deadline(), None);
    for now in [100u64, 1_000, u64::MAX] {
        assert_eq!(sc.tick(now), None);
    }
}

#[test]
fn a_period_of_zero_sends_nothing() {
    let mut sc =
        Sidecar::new(SidecarType::QuackSender, 2, Schedule::FixedInterval { period_ms: 0 });
    sc.capture(1);
    assert_eq!(sc.arm(100), None);
    assert_eq!(sc.tick(100), None);
    assert_eq!(sc.tick(5_000), None);
}

#[test]
fn snapshots_by_interval_come_one_period_apart() {
    let t0 = 1_000u64;
    let period = 250u64;
    let mut sc = Sidecar::new(
        SidecarType::QuackSender,
        3,
        Schedule::FixedInterval { period_ms: period },
    );
    // Nothing is due before the timer is armed.
    assert_eq!(sc.tick(t0), None);
    assert!(sc.capture(1).first);
    assert_eq!(sc.arm(t0), Some(t0 + period));
    // The first reading of the clock, at once, sends nothing.
    assert_eq!(sc.tick(t0), None);
    let mut sent = Vec::new();
    let mut id = 2u16;
    for now in t0..=t0 + 4 * period {
        // Captures at a rate of their own: three in every 7 ms.
        if now % 7 < 3 {
            assert_eq!(sc.capture(id).emit, None);
            id += 1;
        }
        if let Some(q) = sc.tick(now) {
            sent.push((now, q.count()));
        }
    }
    let times: Vec<u64> = sent.iter().map(|(t, _)| *t).collect();
    assert_eq!(times, vec![t0 + period, t0 + 2 * period, t0 + 3 * period, t0 + 4 * period]);
    assert_eq!(sc.next_deadline(), Some(t0 + 5 * period));
    // Each snapshot holds what was captured until then.
    assert!(sent.windows(2).all(|w| w[0].1 < w[1].1));
}

#[test]
fn a_late_clock_catches_up_one_period_at_a_time() {
    let mut sc =
        Sidecar::new(SidecarType::QuackSender, 1, Schedule::FixedInterval { period_ms: 10 });
    sc.capture(1);
    assert_eq!(sc.arm(0), Some(10));
    assert!(sc.tick(35).is_some());
    assert_eq!(sc.next_deadline(), Some(20));
    assert!(sc.tick(35).is_some());
    assert!(sc.tick(35).is_some());
    assert_eq!(sc.tick(35), None);
    assert_eq!(sc.next_deadline(), Some(40));
}

#[test]
fn the_clock_does_not_run_past_the_end_of_time() {
    let mut sc =
        Sidecar::new(SidecarType::QuackSender, 1, Schedule::FixedInterval { period_ms: 10 });
    sc.capture(1);
    assert_eq!(sc.arm(u64::MAX - 5), None);
    assert_eq!(sc.arm(u64::MAX - 15), Some(u64::MAX - 5));
    assert!(sc.tick(u64::MAX).is_some());
    assert_eq!(sc.next_deadline(), None);
    assert_eq!(sc.tick(u64::MAX), None);
}

#[test]
fn snapshots_by_count_come_with_every_full_batch() {
    let mut sc = Sidecar::new(SidecarType::QuackSender, 2, Schedule::FixedCount { every: 3 });
    let mut emitted = Vec::new();
    for id in 1..=10u16 {
        if let Some(q) = sc.capture(id).emit {
            emitted.push((id, q.count()));
        }
    }
    assert_eq!(emitted, vec![(3, 3), (6, 6), (9, 9)]);
    // The interval timer is not for this schedule.
    assert_eq!(sc.arm(0), None);
    assert_eq!(sc.tick(1_000), None);
}

#[test]
fn a_batch_of_zero_sends_nothing() {
    let mut sc = Sidecar::new(SidecarType::QuackSender, 2, Schedule::FixedCount { every: 0 });
    for id in 1..=10u16 {
        assert_eq!(sc.capture(id).emit, None);
    }
}

#[test]
fn a_batch_of_one_sends_with_every_identifier() {
    let mut sc = Sidecar::new(SidecarType::QuackSender, 2, Schedule::FixedCount { every: 1 });
    for id in 1..=5u16 {
        assert_eq!(sc.capture(id).emit.map(|q| q.count()), Some(id));
    }
}

#[test]
fn a_receiver_keeps_the_log_and_has_no_schedule() {
    let mut sc = Sidecar::new(SidecarType::QuackReceiver, 3, Schedule::FixedCount { every: 1 });
    assert!(sc.capture(7).first);
    assert_eq!(sc.capture(8).emit, None);
    sc.capture(7);
    assert_eq!(sc.arm(0), None);
    let (quack, log) = sc.quack_with_log();
    assert_eq!(log, vec![7, 8, 7]);
    assert_eq!(quack, sketch_of(3, &[7, 8, 7]).snapshot());
}

#[test]
fn a_sender_keeps_no_log() {
    let mut sc = Sidecar::new(SidecarType::QuackSender, 3, Schedule::Never);
    sc.capture(7);
    sc.capture(8);
    let (quack, log) = sc.quack_with_log();
    assert_eq!(log, Vec::<u16>::new());
    assert_eq!(quack.count(), 2);
}

#[test]
fn a_received_snapshot_is_decoded_against_the_log() {
    let mut sender = Sidecar::new(SidecarType::QuackSender, 5, Schedule::Never);
    let mut receiver = Sidecar::new(SidecarType::QuackReceiver, 5, Schedule::Never);
    for id in [100u16, 200, 300, 400, 500] {
        receiver.capture(id);
    }
    for id in [100u16, 300, 500] {
        sender.capture(id);
    }
    let bytes = sender.quack().to_bytes();
    let (mine, log) = receiver.quack_with_log();
    assert_eq!(
        decode_received(mine, log, &bytes),
        Ok(DecodedQuack::Missing(vec![200, 400]))
    );
}

#[test]
fn a_received_snapshot_that_cannot_be_read_is_an_error() {
    let mut receiver = Sidecar::new(SidecarType::QuackReceiver, 5, Schedule::Never);
    receiver.capture(1);
    let (mine, log) = receiver.quack_with_log();
    assert_eq!(decode_received(mine, log, &[1, 2, 3]), Err(SnapshotError::Malformed));
    let (mine, log) = receiver.quack_with_log();
    let other = sketch_of(4, &[1]).snapshot().to_bytes();
    assert_eq!(decode_received(mine, log, &other), Err(SnapshotError::WrongThreshold));
    let (mine, log) = receiver.quack_with_log();
    let bad = [0, 0, 5, 0, 0, 0, 0, 0, 0, 0, 0xff, 0xff, 0, 0, 0, 0, 0, 0, 0, 0];
    assert_eq!(decode_received(mine, log, &bad), Err(SnapshotError::NotReduced));
}

#[test]
fn a_failure_to_decode_does_not_stop_the_next() {
    let mut receiver = Sidecar::new(SidecarType::QuackReceiver, 1, Schedule::Never);
    for id in [1u16, 2, 3] {
        receiver.capture(id);
    }
    let empty = sketch_of(1, &[]).snapshot().to_bytes();
    let (mine, log) = receiver.quack_with_log();
    assert_eq!(
        decode_received(mine, log, &empty),
        Ok(DecodedQuack::Failed(DecodeError::DegreeExceedsThreshold))
    );
    let two = sketch_of(1, &[1, 3]).snapshot().to_bytes();
    let (mine, log) = receiver.quack_with_log();
    assert_eq!(decode_received(mine, log, &two), Ok(DecodedQuack::Missing(vec![2])));
}
