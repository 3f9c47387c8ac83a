use ozersk_gen::chunking::split_payload;
use ozersk_gen::record::{MazeCreationInfo, RecordError};
use ozersk_gen::transfer::{
    decode_payload, encode_record, prepare, Reassembly, Received, TransferError,
};

#[test]
fn record_with_seed_is_tag_and_seed() {
    let info = MazeCreationInfo::new(Some([7u8; 32]));
    let bytes = info.serialize();
    let mut expected = vec![1u8];
    expected.extend_from_slice(&[7u8; 32]);
    assert_eq!(bytes, expected);
}

#[test]
fn record_without_seed_is_one_zero_byte() {
    let info = MazeCreationInfo::new(None);
    assert_eq!(info.serialize(), vec![0u8]);
}

#[test]
fn record_round_trip() {
    let mut seed = [0u8; 32];
    for (i, b) in seed.iter_mut().enumerate() {
        *b = (i * 7 + 3) as u8;
    }
    for info in [MazeCreationInfo::new(Some(seed)), MazeCreationInfo::new(None)] {
        assert_eq!(MazeCreationInfo::deserialize(&info.serialize()), Ok(info));
    }
}

#[test]
fn record_ignores_trailing_bytes() {
    assert_eq!(MazeCreationInfo::deserialize(&[0, 9, 9]), Ok(MazeCreationInfo::new(None)));
}

#[test]
fn record_rejects_empty_short_and_bad_tag() {
    assert_eq!(MazeCreationInfo::deserialize(&[]), Err(RecordError::Malformed));
    assert_eq!(MazeCreationInfo::deserialize(&[1, 2, 3]), Err(RecordError::Malformed));
    assert_eq!(MazeCreationInfo::deserialize(&[2]), Err(RecordError::Malformed));
}

#[test]
fn encoded_record_is_unpadded_base64() {
    assert_eq!(encode_record(&MazeCreationInfo::new(None)), "AA");
    let text = encode_record(&MazeCreationInfo::new(Some([0u8; 32])));
    assert_eq!(text, format!("AQ{}", "A".repeat(42)));
    assert_eq!(text.len(), 44);
}

#[test]
fn payload_round_trip() {
    let info = MazeCreationInfo::new(Some([0xabu8; 32]));
    assert_eq!(decode_payload(&encode_record(&info)), Ok(info));
}

#[test]
fn payload_errors() {
    assert_eq!(decode_payload("not base64!"), Err(TransferError::Text));
    assert_eq!(decode_payload("AA=="), Err(TransferError::Text));
    assert_eq!(decode_payload(""), Err(TransferError::Record));
    assert_eq!(decode_payload("Ag"), Err(TransferError::Record));
}

#[test]
fn split_130_characters_at_100() {
    let payload: String = (0..130).map(|i| (b'a' + (i % 26) as u8) as char).collect();
    let slices = split_payload(&payload, 100);
    assert_eq!(slices.len(), 2);
    assert_eq!(slices[0].len(), 100);
    assert_eq!(slices[1].len(), 30);
    assert_eq!(slices[0], payload[..100]);
    assert_eq!(slices[1], payload[100..]);
    assert_eq!(slices.concat(), payload);
}

#[test]
fn reassembly_of_130_characters() {
    let payload: String = (0..130).map(|i| (b'A' + (i % 26) as u8) as char).collect();
    let slices = split_payload(&payload, 100);
    let mut state = Reassembly::new();
    state.append("left over");
    assert_eq!(state.receive("START"), Received::Started);
    for slice in &slices {
        assert_eq!(state.receive(slice), Received::Appended);
    }
    assert_eq!(state.take(), payload);
}

#[test]
fn prepared_slices_reassemble_to_the_record() {
    let info = MazeCreationInfo::new(Some([42u8; 32]));
    let slices = prepare(&info);
    assert_eq!(slices.len(), 1);
    let mut state = Reassembly::new();
    assert_eq!(state.receive("START"), Received::Started);
    for slice in &slices {
        assert_eq!(state.receive(slice), Received::Appended);
    }
    assert_eq!(state.receive("END"), Received::Decoded(info));
    assert_eq!(state.take(), "");
}

#[test]
fn end_without_slices_is_rejected() {
    let mut state = Reassembly::new();
    assert_eq!(state.receive("START"), Received::Started);
    assert_eq!(state.receive("END"), Received::Rejected(TransferError::Record));
}

#[test]
fn reassembly_of_130_characters_decodes_to_the_same_text() {
    // The text of 97 bytes has 130 characters: two slices on the way out,
    // the same bytes on the way in.
    let bytes: Vec<u8> = (0..97u8).collect();
    let payload = base64::Engine::encode(&base64::engine::general_purpose::STANDARD_NO_PAD, &bytes);
    assert_eq!(payload.len(), 130);
    let slices = split_payload(&payload, 100);
    assert_eq!(slices.len(), 2);
    assert_eq!((slices[0].len(), slices[1].len()), (100, 30));
    let mut state = Reassembly::new();
    assert_eq!(state.receive("START"), Received::Started);
    assert_eq!(state.receive(&slices[0]), Received::Appended);
    assert_eq!(state.receive(&slices[1]), Received::Appended);
    let mut copy = Reassembly::new();
    copy.append(&slices[0]);
    copy.append(&slices[1]);
    assert_eq!(copy.take(), payload);
    // 97 bytes are no record with a seed unless they start with the tag 1;
    // these start with the tag 0 and so hold the record without a seed.
    assert_eq!(state.receive("END"), Received::Decoded(MazeCreationInfo::new(None)));
}
