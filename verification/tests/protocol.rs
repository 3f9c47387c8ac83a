use ozersk_gen::chunking::{split_payload, SLICE_LENGTH};
use ozersk_gen::record::MazeCreationInfo;
use ozersk_gen::transfer::{
    prepare, Outbound, Reassembly, Received, Reception, TransferError, MAX_ARGUMENTS,
};

fn text_of(len: usize) -> String {
    (0..len).map(|i| (b'0' + (i % 10) as u8) as char).collect()
}

#[test]
fn slice_bound_is_one_hundred() {
    assert_eq!(SLICE_LENGTH, 100);
    assert_eq!(MAX_ARGUMENTS, 2);
}

#[test]
fn empty_payload_is_one_empty_slice() {
    assert_eq!(split_payload("", 100), vec![String::new()]);
}

#[test]
fn payload_that_fits_is_one_slice() {
    for len in [1usize, 44, 99, 100] {
        let payload = text_of(len);
        assert_eq!(split_payload(&payload, 100), vec![payload]);
    }
}

#[test]
fn slice_counts_and_lengths() {
    for (len, bound, count, last) in [
        (101usize, 100usize, 2usize, 1usize),
        (200, 100, 2, 100),
        (201, 100, 3, 1),
        (250, 100, 3, 50),
        (7, 1, 7, 1),
        (10, 3, 4, 1),
        (9, 3, 3, 3),
    ] {
        let payload = text_of(len);
        let slices = split_payload(&payload, bound);
        assert_eq!(slices.len(), count);
        assert_eq!(slices.len(), std::cmp::max(1, (len + bound - 1) / bound));
        for slice in &slices[..count - 1] {
            assert_eq!(slice.chars().count(), bound);
        }
        assert_eq!(slices[count - 1].chars().count(), last);
        assert_eq!(slices.concat(), payload);
    }
}

#[test]
fn slices_are_cut_between_characters() {
    let payload = "äöüßéèñ";
    let slices = split_payload(payload, 3);
    assert_eq!(slices, vec!["äöü", "ßéè", "ñ"]);
    assert_eq!(slices.concat(), payload);
}

#[test]
fn prepared_slices_fit_the_channel() {
    for info in [MazeCreationInfo::new(None), MazeCreationInfo::new(Some([0xffu8; 32]))] {
        let slices = prepare(&info);
        assert!(!slices.is_empty());
        for slice in &slices {
            assert!(slice.len() <= SLICE_LENGTH);
            assert!(slice != "START" && slice != "END");
            assert!(slice.bytes().all(|b| b.is_ascii_alphanumeric() || b == b'+' || b == b'/'));
        }
    }
    assert_eq!(prepare(&MazeCreationInfo::new(None)), vec!["AA"]);
}

#[test]
fn record_without_seed_travels_as_absent() {
    let info = MazeCreationInfo::new(None);
    let mut state = Reassembly::new();
    state.receive("START");
    for slice in prepare(&info) {
        state.receive(&slice);
    }
    assert_eq!(state.receive("END"), Received::Decoded(info));
}

#[test]
fn second_start_discards_what_was_accumulated() {
    let info = MazeCreationInfo::new(Some([5u8; 32]));
    let mut state = Reassembly::new();
    assert_eq!(state.receive("START"), Received::Started);
    assert_eq!(state.receive("garbage"), Received::Appended);
    assert_eq!(state.receive("START"), Received::Started);
    for slice in prepare(&info) {
        assert_eq!(state.receive(&slice), Received::Appended);
    }
    assert_eq!(state.receive("END"), Received::Decoded(info));
}

#[test]
fn end_takes_the_accumulator_even_when_decoding_fails() {
    let mut state = Reassembly::new();
    state.receive("START");
    state.receive("***");
    assert_eq!(state.receive("END"), Received::Rejected(TransferError::Text));
    assert_eq!(state.take(), "");
    state.receive("Aw");
    assert_eq!(state.receive("END"), Received::Rejected(TransferError::Record));
    assert_eq!(state.take(), "");
}

#[test]
fn keywords_are_matched_exactly() {
    let mut state = Reassembly::new();
    assert_eq!(state.receive("start"), Received::Appended);
    assert_eq!(state.receive("END "), Received::Appended);
    assert_eq!(state.receive("STARTS"), Received::Appended);
    assert_eq!(state.take(), "startEND STARTS");
}

#[test]
fn reset_append_take() {
    let mut state = Reassembly::new();
    state.append("ab");
    state.append("cd");
    assert_eq!(state.take(), "abcd");
    assert_eq!(state.take(), "");
    state.append("ef");
    state.reset();
    assert_eq!(state.take(), "");
}

#[test]
fn command_without_arguments_does_nothing() {
    let mut state = Reassembly::new();
    state.append("kept");
    assert_eq!(
        state.receive_command(&vec![]),
        Reception { too_many_arguments: false, received: None }
    );
    assert_eq!(state.take(), "kept");
}

#[test]
fn command_with_too_many_arguments_is_still_handled() {
    let mut state = Reassembly::new();
    let arguments = vec!["AA".to_string(), "x".to_string(), "y".to_string()];
    assert_eq!(
        state.receive_command(&arguments),
        Reception { too_many_arguments: true, received: Some(Received::Appended) }
    );
    assert_eq!(
        state.receive_command(&vec!["END".to_string(), "x".to_string()]),
        Reception {
            too_many_arguments: false,
            received: Some(Received::Decoded(MazeCreationInfo::new(None))),
        }
    );
}

#[test]
fn outbound_serves_what_was_put_last() {
    let mut outbound = Outbound::new();
    assert!(outbound.get_map_file_data().is_empty());
    outbound.replace(vec!["one".to_string(), "two".to_string()]);
    assert_eq!(outbound.get_map_file_data(), vec!["one", "two"]);
    outbound.replace(prepare(&MazeCreationInfo::new(None)));
    assert_eq!(outbound.get_map_file_data(), vec!["AA"]);
    assert_eq!(outbound.get_map_file_data(), vec!["AA"]);
}
