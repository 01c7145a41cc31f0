//! The decisions of a sidecar: what each captured identifier, each reading
//! of the clock and each received snapshot leads to.
//!
//! A sidecar owns one sketch. A sender adds every captured identifier to it
//! and, under one of two schedules, hands out snapshots to be sent. A
//! receiver also keeps the log of what it captured, and decodes the
//! snapshots it receives against its own. Capturing, waiting and sending
//! are left to the caller, which also guards the sidecar with its lock:
//! every method here is short enough to run under it, and decoding is a
//! function of values taken out of the sidecar beforehand.

use vstd::prelude::*;
use crate::decoder::{decode, DecodedQuack};
use crate::power_sum::{all_reduced, word_values, PowerSumQuack, QuackSnapshot, SnapshotError};
use crate::sketch::Sketch;
use crate::wire::wire_parse;
use crate::{Identifier, IdentifierLog, Quack};

verus! {

/// The role of a sidecar.
#[derive(Clone, Copy, Debug, PartialEq, Eq, Structural)]
pub enum SidecarType {
    /// Sends snapshots of its sketch.
    QuackSender,
    /// Receives snapshots and decodes them against its own sketch and log.
    QuackReceiver,
}

/// When a sender hands out snapshots.
#[derive(Clone, Copy, Debug, PartialEq, Eq, Structural)]
pub enum Schedule {
    /// Never.
    Never,
    /// Once per period of this many milliseconds, counted from the first
    /// captured identifier. A period of zero means never.
    FixedInterval { period_ms: u64 },
    /// After every so many captured identifiers. Zero means never.
    FixedCount { every: usize },
}

/// What a sidecar holds, as a mathematical value.
pub struct SidecarState {
    pub ty: SidecarType,
    pub schedule: Schedule,
    /// The sketch of everything captured.
    pub sketch: Sketch,
    /// What a receiver captured, in order. A sender keeps none.
    pub log: Seq<u16>,
    /// Whether anything was captured yet.
    pub started: bool,
    /// Identifiers captured since the last snapshot by count.
    pub since_emission: nat,
    /// When the next snapshot by interval is due, once the timer is armed.
    pub next_due_ms: Option<u64>,
}

impl SidecarState {
    /// The size of a batch, for a sender by count, and zero otherwise.
    pub open spec fn batch(self) -> nat {
        match (self.ty, self.schedule) {
            (SidecarType::QuackSender, Schedule::FixedCount { every }) => every as nat,
            _ => 0,
        }
    }

    /// The period in milliseconds, for a sender by interval, and zero
    /// otherwise.
    pub open spec fn period(self) -> nat {
        match (self.ty, self.schedule) {
            (SidecarType::QuackSender, Schedule::FixedInterval { period_ms }) => period_ms as nat,
            _ => 0,
        }
    }

    /// Whether capturing one more identifier completes a batch.
    pub open spec fn batch_full(self) -> bool {
        self.batch() > 0 && self.since_emission + 1 >= self.batch()
    }

    /// Whether identifiers are counted towards a batch.
    pub open spec fn counting(self) -> bool {
        self.batch() > 0
    }

    /// The state after capturing `id`.
    pub open spec fn capture(self, id: u16) -> SidecarState {
        SidecarState {
            sketch: self.sketch.insert(id),
            log: if self.ty == SidecarType::QuackReceiver {
                self.log.push(id)
            } else {
                self.log
            },
            started: true,
            since_emission: if self.batch_full() || !self.counting() {
                0
            } else {
                self.since_emission + 1
            },
            ..self
        }
    }

    /// The first deadline of a timer armed at `now_ms`: one period later,
    /// for a sender with a period that is not zero, where that still is a
    /// time.
    pub open spec fn first_deadline(self, now_ms: u64) -> Option<u64> {
        if self.period() > 0 && now_ms + self.period() <= u64::MAX {
            Some((now_ms + self.period()) as u64)
        } else {
            None
        }
    }

    /// Whether a snapshot is due at `now_ms`.
    pub open spec fn due(self, now_ms: u64) -> bool {
        match self.next_due_ms {
            Some(t) => t <= now_ms,
            None => false,
        }
    }

    /// The deadline after the one that has just been met.
    pub open spec fn following_deadline(self) -> Option<u64> {
        match self.next_due_ms {
            Some(t) => if self.period() > 0 && t + self.period() <= u64::MAX {
                Some((t + self.period()) as u64)
            } else {
                None
            },
            None => None,
        }
    }

    /// The state after the timer was armed at `now_ms`.
    pub open spec fn armed(self, now_ms: u64) -> SidecarState {
        SidecarState { next_due_ms: self.first_deadline(now_ms), ..self }
    }

    /// The state after a snapshot was handed out for the current deadline.
    pub open spec fn emitted(self) -> SidecarState {
        SidecarState { next_due_ms: self.following_deadline(), ..self }
    }

    /// The state after `n` snapshots were handed out, and any identifiers
    /// captured in between.
    pub open spec fn emitted_times(self, n: nat) -> SidecarState
        decreases n,
    {
        if n == 0 {
            self
        } else {
            self.emitted_times((n - 1) as nat).emitted()
        }
    }
}

/// Capturing an identifier leaves the timer as it is.
pub proof fn law_capture_keeps_the_deadline(s: SidecarState, id: u16)
    ensures
        s.capture(id).next_due_ms == s.next_due_ms,
        s.capture(id).period() == s.period(),
        s.capture(id).emitted() == s.emitted().capture(id),
{
}

/// With the timer armed at `t0` and a period of `T`, the first snapshot is
/// due at `t0 + T` and each one after it `T` later than the one before:
/// after `n` snapshots the next is due at `t0 + (n + 1) * T`.
pub proof fn law_deadlines_are_one_period_apart(s: SidecarState, t0: u64, n: nat)
    requires
        s.period() > 0,
        t0 + (n + 1) * s.period() <= u64::MAX,
    ensures
        s.armed(t0).emitted_times(n).next_due_ms == Some((t0 + (n + 1) * s.period()) as u64),
        s.armed(t0).emitted_times(n).period() == s.period(),
    decreases n,
{
    let period = s.period() as int;
    assert((n + 1) * period == n * period + period) by (nonlinear_arith);
    assert(n * period >= 0) by (nonlinear_arith)
        requires
            period > 0,
    ;
    if n == 0 {
        assert(n * period == 0) by (nonlinear_arith)
            requires
                n == 0,
        ;
        assert(s.armed(t0).emitted_times(0) == s.armed(t0));
    } else {
        let before = s.armed(t0).emitted_times((n - 1) as nat);
        law_deadlines_are_one_period_apart(s, t0, (n - 1) as nat);
        assert(before.next_due_ms == Some((t0 + n * period) as u64));
        assert(s.armed(t0).emitted_times(n) == before.emitted());
    }
}

/// What capturing an identifier asks of the caller.
#[derive(Debug, PartialEq, Eq)]
pub struct Captured {
    /// This was the first identifier: signal, once, that traffic has begun.
    pub first: bool,
    /// A batch is complete: send this snapshot before capturing on.
    pub emit: Option<QuackSnapshot>,
}

/// One sketch, the log beside it for a receiver, and the schedule of a
/// sender.
pub struct Sidecar {
    ty: SidecarType,
    schedule: Schedule,
    quack: PowerSumQuack,
    log: Vec<Identifier>,
    started: bool,
    since_emission: usize,
    next_due_ms: Option<u64>,
}

impl View for Sidecar {
    type V = SidecarState;

    closed spec fn view(&self) -> SidecarState {
        SidecarState {
            ty: self.ty,
            schedule: self.schedule,
            sketch: self.quack@,
            log: self.log@,
            started: self.started,
            since_emission: self.since_emission as nat,
            next_due_ms: self.next_due_ms,
        }
    }
}

impl Sidecar {
    /// A sidecar that has captured nothing. A receiver has no schedule.
    pub fn new(ty: SidecarType, threshold: usize, schedule: Schedule) -> (s: Self)
        requires
            threshold > 0,
        ensures
            s@ == (SidecarState {
                ty,
                schedule: if ty == SidecarType::QuackSender {
                    schedule
                } else {
                    Schedule::Never
                },
                sketch: Sketch::empty(threshold as nat),
                log: Seq::empty(),
                started: false,
                since_emission: 0,
                next_due_ms: None,
            }),
    {
        let schedule = match ty {
            SidecarType::QuackSender => schedule,
            SidecarType::QuackReceiver => Schedule::Never,
        };
        Sidecar {
            ty,
            schedule,
            quack: PowerSumQuack::new(threshold),
            log: Vec::new(),
            started: false,
            since_emission: 0,
            next_due_ms: None,
        }
    }

    /// Takes in one captured identifier: adds it to the sketch, and for a
    /// receiver to the log. Tells whether it was the first, and for a sender
    /// by count hands out a snapshot with every full batch.
    pub fn capture(&mut self, id: Identifier) -> (r: Captured)
        ensures
            final(self)@ == old(self)@.capture(id),
            r.first == !old(self)@.started,
            match r.emit {
                Some(q) => old(self)@.batch_full() && q@ == final(self)@.sketch,
                None => !old(self)@.batch_full(),
            },
    {
        let first = !self.started;
        self.started = true;
        self.quack.insert(id);
        match self.ty {
            SidecarType::QuackReceiver => {
                self.log.push(id);
            },
            SidecarType::QuackSender => {},
        }
        let mut emit: Option<QuackSnapshot> = None;
        match (self.ty, self.schedule) {
            (SidecarType::QuackSender, Schedule::FixedCount { every }) => {
                if every > 0 {
                    if self.since_emission >= every - 1 {
                        self.since_emission = 0;
                        emit = Some(self.quack.snapshot());
                    } else {
                        self.since_emission = self.since_emission + 1;
                    }
                } else {
                    self.since_emission = 0;
                }
            },
            _ => {
                self.since_emission = 0;
            },
        }
        Captured { first, emit }
    }

    /// Arms the timer of a sender by interval at `now_ms`, the time at which
    /// the first identifier was seen. The first snapshot is due one period
    /// later. Returns that deadline, or `None` where there is nothing to
    /// wait for.
    pub fn arm(&mut self, now_ms: u64) -> (deadline: Option<u64>)
        ensures
            deadline == old(self)@.first_deadline(now_ms),
            final(self)@ == old(self)@.armed(now_ms),
    {
        let deadline = match (self.ty, self.schedule) {
            (SidecarType::QuackSender, Schedule::FixedInterval { period_ms }) => {
                if period_ms > 0 {
                    now_ms.checked_add(period_ms)
                } else {
                    None
                }
            },
            _ => None,
        };
        self.next_due_ms = deadline;
        deadline
    }

    /// When the next snapshot by interval is due, if the timer is armed.
    pub fn next_deadline(&self) -> (deadline: Option<u64>)
        ensures
            deadline == self@.next_due_ms,
    {
        self.next_due_ms
    }

    /// Reads the clock. Where a snapshot is due, hands it out and sets the
    /// next deadline one period after the one just met, however late
    /// `now_ms` is and however many identifiers were captured meanwhile.
    pub fn tick(&mut self, now_ms: u64) -> (emit: Option<QuackSnapshot>)
        ensures
            match emit {
                Some(q) => old(self)@.due(now_ms) && q@ == old(self)@.sketch && final(self)@
                    == old(self)@.emitted(),
                None => !old(self)@.due(now_ms) && final(self)@ == old(self)@,
            },
    {
        match self.next_due_ms {
            Some(t) => {
                if t <= now_ms {
                    let following = match (self.ty, self.schedule) {
                        (SidecarType::QuackSender, Schedule::FixedInterval { period_ms }) => {
                            if period_ms > 0 {
                                t.checked_add(period_ms)
                            } else {
                                None
                            }
                        },
                        _ => None,
                    };
                    self.next_due_ms = following;
                    Some(self.quack.snapshot())
                } else {
                    None
                }
            },
            None => None,
        }
    }

    /// The role of this sidecar.
    pub fn sidecar_type(&self) -> (ty: SidecarType)
        ensures
            ty == self@.ty,
    {
        self.ty
    }

    /// The threshold of the sketch.
    pub fn threshold(&self) -> (t: usize)
        ensures
            t == self@.sketch.threshold(),
    {
        self.quack.threshold()
    }

    /// A snapshot of the sketch as it is now.
    pub fn quack(&self) -> (q: QuackSnapshot)
        ensures
            q@ == self@.sketch,
    {
        self.quack.snapshot()
    }

    /// A snapshot of the sketch together with the log, both as they are now.
    pub fn quack_with_log(&self) -> (r: (QuackSnapshot, IdentifierLog))
        ensures
            r.0@ == self@.sketch,
            r.1@ == self@.log,
    {
        let mut log: Vec<Identifier> = Vec::with_capacity(self.log.len());
        for i in 0..self.log.len()
            invariant
                log@ == self.log@.take(i as int),
        {
            log.push(self.log[i]);
            proof {
                assert(self.log@.take(i + 1) =~= self.log@.take(i as int).push(self.log@[i as int]));
            }
        }
        proof {
            assert(self.log@.take(self.log@.len() as int) =~= self.log@);
        }
        (self.quack.snapshot(), log)
    }
}

/// What a receiver makes of a message: the snapshot in `bytes` is taken
/// from `mine`, and the difference is decoded against `log`. `mine` and
/// `log` are what `quack_with_log` gave when the message came in.
pub fn decode_received(mine: QuackSnapshot, log: IdentifierLog, bytes: &[u8]) -> (r: Result<
    DecodedQuack,
    SnapshotError,
>)
    ensures
        match r {
            Ok(d) => wire_parse(bytes@) matches Some((count, sums)) && sums.len()
                == mine@.threshold() && all_reduced(sums) && d@ == decode(
                mine@.minus(Sketch { count: count as int, power_sums: word_values(sums) }),
                log@,
            ),
            Err(SnapshotError::Malformed) => wire_parse(bytes@) is None,
            Err(SnapshotError::WrongThreshold) => wire_parse(bytes@) matches Some((_, sums))
                && sums.len() != mine@.threshold(),
            Err(SnapshotError::NotReduced) => wire_parse(bytes@) matches Some((_, sums))
                && sums.len() == mine@.threshold() && !all_reduced(sums),
        },
{
    match QuackSnapshot::from_bytes(bytes, mine.threshold()) {
        Ok(theirs) => Ok(DecodedQuack::decode(mine.sub(&theirs), log)),
        Err(e) => Err(e),
    }
}

} // verus!
