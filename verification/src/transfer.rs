//! Moving a seed-info record over a channel that carries one short text unit
//! at a time: a `START` unit, the slices of the encoded record, an `END` unit.

use crate::chunking::{joined, lemma_split_then_join, split_payload, split_spec, SLICE_LENGTH};
use crate::record::{lemma_record_round_trip, parse_record, wire_bytes, MazeCreationInfo};
use base64::engine::general_purpose::STANDARD_NO_PAD;
use base64::Engine;
use vstd::prelude::*;
use vstd::string::StringExecFns;

verus! {

/// The text that the standard base64 alphabet without padding gives for a
/// byte string.
pub uninterp spec fn base64_text(bytes: Seq<u8>) -> Seq<char>;

/// The bytes that a text in the standard base64 alphabet without padding
/// stands for, if it stands for any.
pub uninterp spec fn base64_bytes(text: Seq<char>) -> Option<Seq<u8>>;

/// Number of characters that `n` bytes are encoded to: four for every three
/// bytes, and two or three for one or two bytes left over.
pub open spec fn unpadded_len(n: nat) -> nat {
    (n / 3) * 4 + if n % 3 == 0 {
        0nat
    } else {
        n % 3 + 1
    }
}

#[verifier::external_type_specification]
#[verifier::external_body]
pub struct ExDecodeError(base64::DecodeError);

/// `Engine::encode_string` of `STANDARD_NO_PAD`, into a fresh string. The
/// result has the length that `base64::encoded_len` gives without padding,
/// and decodes to the bytes it was made from.
#[verifier::external_body]
fn base64_encode(bytes: &[u8]) -> (text: String)
    requires
        bytes@.len() <= usize::MAX / 4,
    ensures
        text@ == base64_text(bytes@),
        text@.len() == unpadded_len(bytes@.len()),
        base64_bytes(text@) == Some(bytes@),
{
    let mut text = String::new();
    STANDARD_NO_PAD.encode_string(bytes, &mut text);
    text
}

/// `Engine::decode_vec` of `STANDARD_NO_PAD`, into a fresh vector. On success
/// the text has the length that the decoded bytes are encoded to.
#[verifier::external_body]
fn base64_decode(text: &str) -> (r: Result<Vec<u8>, base64::DecodeError>)
    ensures
        match r {
            Ok(bytes) => base64_bytes(text@) == Some(bytes@) && text@.len() == unpadded_len(
                bytes@.len(),
            ),
            Err(_) => base64_bytes(text@) is None,
        },
{
    let mut bytes = Vec::new();
    STANDARD_NO_PAD.decode_vec(text, &mut bytes)?;
    Ok(bytes)
}

/// Why a reassembled payload gave no record.
#[derive(Debug, Clone, Copy, PartialEq, Eq)]
pub enum TransferError {
    /// The payload is not base64 text.
    Text,
    /// The decoded bytes are not a record.
    Record,
}

/// What a payload decodes to: the seed of the record it holds, or the step
/// that failed.
pub open spec fn decode_payload_spec(text: Seq<char>) -> Result<Option<Seq<u8>>, TransferError> {
    match base64_bytes(text) {
        None => Err(TransferError::Text),
        Some(bytes) => match parse_record(bytes) {
            None => Err(TransferError::Record),
            Some(seed) => Ok(seed),
        },
    }
}

/// The record as one text: its wire form in base64.
pub fn encode_record(info: &MazeCreationInfo) -> (text: String)
    ensures
        text@ == base64_text(wire_bytes(info@)),
        text@.len() == unpadded_len(wire_bytes(info@).len()),
        base64_bytes(text@) == Some(wire_bytes(info@)),
        decode_payload_spec(text@) == Ok::<Option<Seq<u8>>, TransferError>(info@),
{
    let bytes = info.serialize();
    let text = base64_encode(bytes.as_slice());
    proof {
        lemma_record_round_trip(info@, Seq::empty());
        assert(wire_bytes(info@) + Seq::<u8>::empty() =~= wire_bytes(info@));
    }
    text
}

/// Decodes a payload: base64 text to bytes, bytes to a record.
pub fn decode_payload(text: &str) -> (r: Result<MazeCreationInfo, TransferError>)
    ensures
        match r {
            Ok(info) => decode_payload_spec(text@) == Ok::<Option<Seq<u8>>, TransferError>(info@),
            Err(e) => decode_payload_spec(text@) == Err::<Option<Seq<u8>>, TransferError>(e),
        },
        text@.len() == 0 ==> r is Err,
{
    match base64_decode(text) {
        Err(_) => Err(TransferError::Text),
        Ok(bytes) => match MazeCreationInfo::deserialize(bytes.as_slice()) {
            Ok(info) => Ok(info),
            Err(_) => Err(TransferError::Record),
        },
    }
}

/// The unit that opens a transmission.
pub open spec fn start_keyword() -> Seq<char> {
    "START"@
}

/// The unit that closes a transmission.
pub open spec fn end_keyword() -> Seq<char> {
    "END"@
}

/// Whether a unit is data, that is, neither of the two keywords.
pub open spec fn is_data(unit: Seq<char>) -> bool {
    unit != start_keyword() && unit != end_keyword()
}

/// The two keywords are different texts, of five and of three characters.
pub proof fn lemma_keywords_differ()
    ensures
        start_keyword().len() == 5,
        end_keyword().len() == 3,
        start_keyword() != end_keyword(),
{
    reveal_strlit("START");
    reveal_strlit("END");
    assert("START"@.len() == 5);
    assert("END"@.len() == 3);
}

/// The receiving side's accumulator. It is emptied by `START`, grows by each
/// data unit, and is taken and decoded by `END`.
pub struct Reassembly {
    accumulator: String,
}

impl View for Reassembly {
    type V = Seq<char>;

    closed spec fn view(&self) -> Seq<char> {
        self.accumulator@
    }
}

/// What one inbound unit led to.
#[derive(Debug, Clone, Copy, PartialEq, Eq)]
pub enum Received {
    /// `START`: the accumulator was emptied.
    Started,
    /// A data unit: it was appended to the accumulator.
    Appended,
    /// `END`, and the accumulated payload held this record.
    Decoded(MazeCreationInfo),
    /// `END`, and the accumulated payload held no record.
    Rejected(TransferError),
}

/// Most arguments that one inbound command may carry without complaint.
pub const MAX_ARGUMENTS: usize = 2;

/// What one inbound command led to.
#[derive(Debug, Clone, Copy, PartialEq, Eq)]
pub struct Reception {
    /// The command carried more than `MAX_ARGUMENTS` arguments. Its first
    /// argument was handled all the same.
    pub too_many_arguments: bool,
    /// The answer to the first argument, or nothing when there was none.
    pub received: Option<Received>,
}

/// The accumulator after a unit, given the accumulator before it.
pub open spec fn next_accumulator(accumulator: Seq<char>, unit: Seq<char>) -> Seq<char> {
    if is_data(unit) {
        accumulator + unit
    } else {
        Seq::empty()
    }
}

/// The accumulator after a run of units, fed in order.
pub open spec fn accumulated(accumulator: Seq<char>, units: Seq<Seq<char>>) -> Seq<char>
    decreases units.len(),
{
    if units.len() == 0 {
        accumulator
    } else {
        next_accumulator(accumulated(accumulator, units.drop_last()), units.last())
    }
}

/// Whether `received` is the answer to `unit` arriving at `accumulator`.
pub open spec fn answers(accumulator: Seq<char>, unit: Seq<char>, received: Received) -> bool {
    if unit == start_keyword() {
        received is Started
    } else if unit == end_keyword() {
        match received {
            Received::Decoded(info) => decode_payload_spec(accumulator) == Ok::<
                Option<Seq<u8>>,
                TransferError,
            >(info@),
            Received::Rejected(e) => decode_payload_spec(accumulator) == Err::<
                Option<Seq<u8>>,
                TransferError,
            >(e),
            _ => false,
        }
    } else {
        received is Appended
    }
}

fn same_text(a: &str, b: &str) -> (same: bool)
    ensures
        same == (a@ == b@),
{
    String::from_str(a) == String::from_str(b)
}

impl Reassembly {
    /// An empty accumulator.
    pub fn new() -> (state: Reassembly)
        ensures
            state@ == Seq::<char>::empty(),
    {
        Reassembly { accumulator: String::new() }
    }

    /// Empties the accumulator.
    pub fn reset(&mut self)
        ensures
            final(self)@ == Seq::<char>::empty(),
    {
        self.accumulator = String::new();
    }

    /// Appends one slice to the accumulator.
    pub fn append(&mut self, slice: &str)
        ensures
            final(self)@ == old(self)@ + slice@,
    {
        self.accumulator.append(slice);
    }

    /// Hands out what was accumulated and leaves the accumulator empty.
    pub fn take(&mut self) -> (payload: String)
        ensures
            payload@ == old(self)@,
            final(self)@ == Seq::<char>::empty(),
    {
        let mut payload = String::new();
        core::mem::swap(&mut self.accumulator, &mut payload);
        payload
    }

    /// Handles one inbound unit.
    pub fn receive(&mut self, unit: &str) -> (received: Received)
        ensures
            answers(old(self)@, unit@, received),
            final(self)@ == next_accumulator(old(self)@, unit@),
            unit@ == end_keyword() && old(self)@.len() == 0 ==> received is Rejected,
    {
        proof {
            lemma_keywords_differ();
        }
        if same_text(unit, "START") {
            self.reset();
            Received::Started
        } else if same_text(unit, "END") {
            let payload = self.take();
            match decode_payload(payload.as_str()) {
                Ok(info) => Received::Decoded(info),
                Err(e) => Received::Rejected(e),
            }
        } else {
            self.append(unit);
            Received::Appended
        }
    }

    /// Handles one inbound command: its first argument is the unit, and any
    /// further arguments are ignored.
    pub fn receive_command(&mut self, arguments: &Vec<String>) -> (reception: Reception)
        ensures
            reception.too_many_arguments == (arguments.len() > MAX_ARGUMENTS),
            arguments.len() == 0 ==> reception.received is None && final(self)@ == old(self)@,
            arguments.len() > 0 ==> {
                &&& reception.received matches Some(received)
                &&& answers(old(self)@, arguments[0]@, received)
                &&& final(self)@ == next_accumulator(old(self)@, arguments[0]@)
                &&& arguments[0]@ == end_keyword() && old(self)@.len() == 0
                    ==> received is Rejected
            },
    {
        let too_many_arguments = arguments.len() > MAX_ARGUMENTS;
        if arguments.len() == 0 {
            Reception { too_many_arguments, received: None }
        } else {
            let received = self.receive(arguments[0].as_str());
            Reception { too_many_arguments, received: Some(received) }
        }
    }
}

/// After `START` and a run of data units the accumulator holds exactly those
/// units, joined in order, whatever it held before.
pub proof fn lemma_transmission_accumulates(before: Seq<char>, slices: Seq<Seq<char>>)
    requires
        forall|i: int| 0 <= i < slices.len() ==> is_data(#[trigger] slices[i]),
    ensures
        accumulated(before, seq![start_keyword()] + slices) == joined(slices),
    decreases slices.len(),
{
    let units = seq![start_keyword()] + slices;
    if slices.len() == 0 {
        assert(units.drop_last() =~= Seq::<Seq<char>>::empty());
        assert(units.last() == start_keyword());
        assert(accumulated(before, units.drop_last()) == before);
    } else {
        lemma_transmission_accumulates(before, slices.drop_last());
        assert(units.drop_last() =~= seq![start_keyword()] + slices.drop_last());
        assert(units.last() == slices.last());
    }
}

/// The slices that carry a record: its encoded text, cut at `SLICE_LENGTH`.
/// A receiver that is fed `START`, these slices in order and `END` ends up
/// with the record, whatever it had accumulated before.
pub fn prepare(info: &MazeCreationInfo) -> (slices: Vec<String>)
    ensures
        slices.deep_view() == split_spec(base64_text(wire_bytes(info@)), SLICE_LENGTH as nat),
        forall|i: int| 0 <= i < slices.len() ==> is_data(#[trigger] slices[i]@),
        decode_payload_spec(joined(slices.deep_view())) == Ok::<Option<Seq<u8>>, TransferError>(
            info@,
        ),
        forall|before: Seq<char>|
            decode_payload_spec(
                #[trigger] accumulated(before, seq![start_keyword()] + slices.deep_view()),
            ) == Ok::<Option<Seq<u8>>, TransferError>(info@),
{
    let text = encode_record(info);
    let slices = split_payload(text.as_str(), SLICE_LENGTH);
    proof {
        lemma_split_then_join(text@, SLICE_LENGTH as nat);
        lemma_keywords_differ();
        assert(slices.len() == 1);
        assert(slices[0]@ == slices.deep_view()[0]);
        assert(slices[0]@ =~= text@);
        assert forall|before: Seq<char>|
            decode_payload_spec(
                #[trigger] accumulated(before, seq![start_keyword()] + slices.deep_view()),
            ) == Ok::<Option<Seq<u8>>, TransferError>(info@) by {
            lemma_transmission_accumulates(before, slices.deep_view());
        }
    }
    slices
}

/// The slices that are served to whoever asks for the seed. Each generation
/// replaces them wholesale.
pub struct Outbound {
    slices: Vec<String>,
}

impl DeepView for Outbound {
    type V = Seq<Seq<char>>;

    closed spec fn deep_view(&self) -> Seq<Seq<char>> {
        self.slices.deep_view()
    }
}

impl Outbound {
    /// Nothing to serve yet.
    pub fn new() -> (outbound: Outbound)
        ensures
            outbound.deep_view() == Seq::<Seq<char>>::empty(),
    {
        let outbound = Outbound { slices: Vec::new() };
        assert(outbound.deep_view() =~= Seq::<Seq<char>>::empty());
        outbound
    }

    /// Replaces what is served by `slices`.
    pub fn replace(&mut self, slices: Vec<String>)
        ensures
            final(self).deep_view() == slices.deep_view(),
    {
        self.slices = slices;
    }

    /// What is served, as it was prepared.
    pub fn get_map_file_data(&self) -> (slices: Vec<String>)
        ensures
            slices.deep_view() == self.deep_view(),
    {
        let mut slices: Vec<String> = Vec::new();
        let mut i: usize = 0;
        while i < self.slices.len()
            invariant
                i <= self.slices.len(),
                slices.len() == i,
                forall|k: int| 0 <= k < i ==> (#[trigger] slices[k])@ == self.slices[k]@,
            decreases self.slices.len() - i,
        {
            slices.push(self.slices[i].clone());
            i = i + 1;
        }
        assert(slices.deep_view() =~= self.deep_view());
        slices
    }
}

} // verus!
