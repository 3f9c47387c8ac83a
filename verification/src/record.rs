//! The seed-info record and its binary wire form.

use rand::Rng;
use vstd::prelude::*;

verus! {

/// Number of bytes in a seed.
pub const SEED_LEN: usize = 32;

/// What a maze is generated from: a seed, or nothing when the generator is to
/// draw its own randomness.
#[derive(Debug, Clone, Copy, PartialEq, Eq)]
pub struct MazeCreationInfo {
    pub seed: Option<[u8; 32]>,
}

impl View for MazeCreationInfo {
    type V = Option<Seq<u8>>;

    open spec fn view(&self) -> Option<Seq<u8>> {
        match self.seed {
            Some(seed) => Some(seed@),
            None => None,
        }
    }
}

/// The wire form of a record: a tag byte, `0` for an absent seed and `1` for a
/// present one, followed by the seed bytes when present.
pub open spec fn wire_bytes(seed: Option<Seq<u8>>) -> Seq<u8> {
    match seed {
        None => seq![0u8],
        Some(bytes) => seq![1u8] + bytes,
    }
}

/// The record that a byte string starts with, if it starts with one. Bytes
/// after the record are ignored.
pub open spec fn parse_record(bytes: Seq<u8>) -> Option<Option<Seq<u8>>> {
    if bytes.len() >= 1 && bytes[0] == 0 {
        Some(None)
    } else if bytes.len() >= 1 + SEED_LEN && bytes[0] == 1 {
        Some(Some(bytes.subrange(1, 1 + SEED_LEN as int)))
    } else {
        None
    }
}

/// Why a byte string is not a record.
#[derive(Debug, Clone, Copy, PartialEq, Eq)]
pub enum RecordError {
    /// The bytes do not start with a complete record.
    Malformed,
}

/// `bincode::serialize` on an optional seed. With bincode's fixed-width
/// configuration an `Option` is written as one tag byte, `0` or `1`, and a byte
/// array as its bytes in order, without a length.
#[verifier::external_body]
fn bincode_serialize(seed: &Option<[u8; 32]>) -> (bytes: Vec<u8>)
    ensures
        bytes@ == wire_bytes(MazeCreationInfo { seed: *seed }@),
{
    bincode::serialize(seed).unwrap()
}

/// `bincode::deserialize` to an optional seed. It reads the tag byte, fails on
/// a tag other than `0` and `1` and on input that ends early, and leaves
/// trailing bytes unread.
#[verifier::external_body]
fn bincode_deserialize(bytes: &[u8]) -> (seed: Option<Option<[u8; 32]>>)
    ensures
        match seed {
            Some(seed) => parse_record(bytes@) == Some(MazeCreationInfo { seed }@),
            None => parse_record(bytes@) is None,
        },
{
    bincode::deserialize(bytes).ok()
}

/// `rand::thread_rng` and then `Rng::gen` for 32 bytes. Nothing is known of
/// the bytes that come back.
#[verifier::external_body]
fn random_seed() -> [u8; 32] {
    rand::thread_rng().gen()
}

impl Default for MazeCreationInfo {
    /// A record with a fresh random seed.
    fn default() -> (info: MazeCreationInfo)
        ensures
            info.seed is Some,
    {
        MazeCreationInfo { seed: Some(random_seed()) }
    }
}

impl MazeCreationInfo {
    /// A record with the given seed.
    pub fn new(seed: Option<[u8; 32]>) -> (info: MazeCreationInfo)
        ensures
            info.seed == seed,
    {
        MazeCreationInfo { seed }
    }

    /// The record in its wire form.
    pub fn serialize(&self) -> (bytes: Vec<u8>)
        ensures
            bytes@ == wire_bytes(self@),
    {
        bincode_serialize(&self.seed)
    }

    /// Reads a record from the front of `bytes`.
    pub fn deserialize(bytes: &[u8]) -> (r: Result<MazeCreationInfo, RecordError>)
        ensures
            match r {
                Ok(info) => parse_record(bytes@) == Some(info@),
                Err(e) => parse_record(bytes@) is None && e == RecordError::Malformed,
            },
    {
        match bincode_deserialize(bytes) {
            Some(seed) => Ok(MazeCreationInfo { seed }),
            None => Err(RecordError::Malformed),
        }
    }
}

/// Reading back what was written gives the record that was written, whatever
/// bytes follow it.
pub proof fn lemma_record_round_trip(seed: Option<Seq<u8>>, rest: Seq<u8>)
    requires
        seed matches Some(bytes) ==> bytes.len() == SEED_LEN,
    ensures
        parse_record(wire_bytes(seed) + rest) == Some(seed),
{
    match seed {
        None => {},
        Some(bytes) => {
            let wire = wire_bytes(seed) + rest;
            assert(wire.subrange(1, 1 + SEED_LEN as int) =~= bytes);
        },
    }
}

} // verus!
