//! Snapshots as bytes: a 16-bit counter, the number of power sums as a
//! 64-bit length, then the power sums as 16-bit words, all little-endian.

use vstd::prelude::*;
use vstd::bytes::{
    lemma_auto_spec_u16_to_from_le_bytes,
    lemma_auto_spec_u64_to_from_le_bytes,
    spec_u16_from_le_bytes,
    spec_u16_to_le_bytes,
    spec_u64_from_le_bytes,
    spec_u64_to_le_bytes,
};
use crate::power_sum::{all_reduced, word_values, words, QuackSnapshot, SnapshotError};
use crate::sketch::Sketch;

verus! {

/// `bincode::ErrorKind`, the error of the codec. It is only passed on:
/// nothing is read from it.
#[verifier::external_type_specification]
#[verifier::external_body]
pub struct ExErrorKind(bincode::ErrorKind);

/// The words of `words`, two little-endian bytes each, one after the other.
pub open spec fn le_words(words: Seq<u16>) -> Seq<u8>
    decreases words.len(),
{
    if words.len() == 0 {
        Seq::empty()
    } else {
        le_words(words.drop_last()) + spec_u16_to_le_bytes(words.last())
    }
}

/// The bytes that stand for a counter and a list of power sums.
pub open spec fn wire_image(count: u16, sums: Seq<u16>) -> Seq<u8> {
    spec_u16_to_le_bytes(count) + spec_u64_to_le_bytes(sums.len() as u64) + le_words(sums)
}

/// The counter and the power sums that `bytes` begins with, if it holds
/// that many. Bytes after them are ignored.
pub open spec fn wire_parse(bytes: Seq<u8>) -> Option<(u16, Seq<u16>)> {
    if bytes.len() < 10 {
        None
    } else {
        let n = spec_u64_from_le_bytes(bytes.subrange(2, 10)) as int;
        if 10 + 2 * n > bytes.len() {
            None
        } else {
            Some(
                (
                    spec_u16_from_le_bytes(bytes.subrange(0, 2)),
                    Seq::new(
                        n as nat,
                        |i: int| spec_u16_from_le_bytes(bytes.subrange(10 + 2 * i, 12 + 2 * i)),
                    ),
                ),
            )
        }
    }
}

/// `bincode::serialize` on a pair of a `u16` and a vector of `u16`: with
/// its fixed-width little-endian encoding and no size limit it writes the
/// counter in two bytes, the vector's length in eight, and each element in
/// two, and on such a value it does not fail.
#[verifier::external_body]
fn serialize(count: u16, sums: &Vec<u16>) -> (r: Result<Vec<u8>, Box<bincode::ErrorKind>>)
    ensures
        match r {
            Ok(bytes) => bytes@ == wire_image(count, sums@),
            Err(_) => false,
        },
{
    bincode::serialize(&(count, sums))
}

/// `bincode::deserialize` to a pair of a `u16` and a vector of `u16`: it
/// reads what `serialize` writes, fails where the bytes end before the last
/// announced element, and leaves bytes after it unread.
#[verifier::external_body]
fn deserialize(bytes: &[u8]) -> (r: Result<(u16, Vec<u16>), Box<bincode::ErrorKind>>)
    ensures
        match r {
            Ok((count, sums)) => wire_parse(bytes@) == Some((count, sums@)),
            Err(_) => wire_parse(bytes@) is None,
        },
{
    bincode::deserialize::<(u16, Vec<u16>)>(bytes)
}

impl QuackSnapshot {
    /// The snapshot as bytes, ready to be sent.
    pub fn to_bytes(&self) -> (bytes: Vec<u8>)
        ensures
            bytes@ == wire_image(self@.count as u16, words(self@.power_sums)),
    {
        let sums = self.values();
        match serialize(self.count(), &sums) {
            Ok(bytes) => bytes,
            // The codec does not fail on a counter and a list of numbers.
            Err(_) => Vec::new(),
        }
    }

    /// The snapshot that `bytes` holds, for a receiver that expects
    /// `threshold` power sums.
    pub fn from_bytes(bytes: &[u8], threshold: usize) -> (r: Result<QuackSnapshot, SnapshotError>)
        ensures
            match r {
                Ok(q) => wire_parse(bytes@) matches Some((count, sums)) && sums.len() == threshold
                    && all_reduced(sums) && q@ == (Sketch {
                    count: count as int,
                    power_sums: word_values(sums),
                }),
                Err(SnapshotError::Malformed) => wire_parse(bytes@) is None,
                Err(SnapshotError::WrongThreshold) => wire_parse(bytes@) matches Some((_, sums))
                    && sums.len() != threshold,
                Err(SnapshotError::NotReduced) => wire_parse(bytes@) matches Some((_, sums))
                    && sums.len() == threshold && !all_reduced(sums),
            },
    {
        match deserialize(bytes) {
            Ok((count, sums)) => QuackSnapshot::from_parts(count, sums, threshold),
            Err(_) => Err(SnapshotError::Malformed),
        }
    }
}

/// The words of a list lie in its bytes one after the other.
proof fn lemma_le_words(words: Seq<u16>, i: int)
    requires
        0 <= i < words.len(),
    ensures
        le_words(words).len() == 2 * words.len(),
        le_words(words).subrange(2 * i, 2 * i + 2) == spec_u16_to_le_bytes(words[i]),
    decreases words.len(),
{
    lemma_auto_spec_u16_to_from_le_bytes();
    lemma_le_words_len(words.drop_last());
    let head = le_words(words.drop_last());
    let tail = spec_u16_to_le_bytes(words.last());
    if i == words.len() - 1 {
        assert((head + tail).subrange(2 * i, 2 * i + 2) =~= tail);
    } else {
        lemma_le_words(words.drop_last(), i);
        assert((head + tail).subrange(2 * i, 2 * i + 2) =~= head.subrange(2 * i, 2 * i + 2));
    }
}

/// A list of words takes two bytes for each.
proof fn lemma_le_words_len(words: Seq<u16>)
    ensures
        le_words(words).len() == 2 * words.len(),
    decreases words.len(),
{
    lemma_auto_spec_u16_to_from_le_bytes();
    if words.len() > 0 {
        lemma_le_words_len(words.drop_last());
    }
}

/// Reading the bytes of a counter and a list of power sums gives them
/// back, also where other bytes follow.
pub proof fn law_parse_of_image(count: u16, sums: Seq<u16>, trailing: Seq<u8>)
    requires
        sums.len() <= u64::MAX,
    ensures
        wire_parse(wire_image(count, sums) + trailing) == Some((count, sums)),
{
    lemma_auto_spec_u16_to_from_le_bytes();
    lemma_auto_spec_u64_to_from_le_bytes();
    lemma_le_words_len(sums);
    let n = sums.len() as u64;
    let a = spec_u16_to_le_bytes(count);
    let b = spec_u64_to_le_bytes(n);
    let w = le_words(sums);
    let bytes = wire_image(count, sums) + trailing;
    assert(bytes.subrange(0, 2) =~= a);
    assert(bytes.subrange(2, 10) =~= b);
    let parsed = Seq::new(
        n as nat,
        |i: int| spec_u16_from_le_bytes(bytes.subrange(10 + 2 * i, 12 + 2 * i)),
    );
    assert forall|i: int| 0 <= i < sums.len() implies parsed[i] == sums[i] by {
        lemma_le_words(sums, i);
        assert(bytes.subrange(10 + 2 * i, 12 + 2 * i) =~= w.subrange(2 * i, 2 * i + 2));
    }
    assert(parsed =~= sums);
}

/// What `to_bytes` writes for a snapshot, `from_bytes` reads as that
/// snapshot, for a receiver with the same threshold.
pub proof fn law_bytes_give_the_snapshot_back(q: Sketch)
    requires
        q.wf(),
        q.threshold() <= u64::MAX,
    ensures
        wire_parse(wire_image(q.count as u16, words(q.power_sums))) == Some(
            (q.count as u16, words(q.power_sums)),
        ),
        all_reduced(words(q.power_sums)),
        q == (Sketch { count: q.count as u16 as int, power_sums: word_values(words(q.power_sums)) }),
{
    law_parse_of_image(q.count as u16, words(q.power_sums), Seq::empty());
    assert(wire_image(q.count as u16, words(q.power_sums)) + Seq::<u8>::empty() =~= wire_image(
        q.count as u16,
        words(q.power_sums),
    ));
    assert(word_values(words(q.power_sums)) =~= q.power_sums);
}

} // verus!
