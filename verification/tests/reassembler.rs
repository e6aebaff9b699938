use adrenaline::framer::encode_frame;
use adrenaline::framer::frames_for_transfer;
use adrenaline::reassembler::parse_datagram;
use adrenaline::ControlCommand;
use adrenaline::Packet;
use adrenaline::Reassembler;
use adrenaline::ReassemblyOutcome;
use adrenaline::MAX_CHUNK_SIZE;

fn make_data(n: usize) -> Vec<u8> {
    let mut data = Vec::with_capacity(n);
    for i in 0..n {
        data.push((i % 251) as u8);
    }
    data
}

fn packet(marker: ControlCommand, payload: &[u8]) -> Packet {
    Packet { control_header: marker, bytes: payload.to_vec(), len: payload.len() }
}

/// Send every frame through the wire layout and back, feeding the
/// reassembler as a receive loop would; collect the flushed artifacts.
fn run_transfer(reassembler: &mut Reassembler, source: &Vec<u8>) -> Vec<Vec<u8>> {
    let mut artifacts = Vec::new();
    for frame in frames_for_transfer(source) {
        let wire = encode_frame(&frame);
        let parsed = parse_datagram(&wire).expect("a framed datagram carries a header");
        assert_eq!(parsed.control_header, frame.control_header);
        assert_eq!(parsed.bytes, frame.bytes);
        if let ReassemblyOutcome::Flushed(artifact) = reassembler.process_packet(parsed) {
            artifacts.push(artifact);
        }
    }
    artifacts
}

#[test]
fn small_transfer_end_to_end() {
    let source = b"Test".to_vec();
    let frames = frames_for_transfer(&source);
    assert_eq!(frames.len(), 1);
    assert_eq!(frames[0].control_header, ControlCommand::SINGLE_UNIT);
    assert_eq!(frames[0].bytes, source);

    let mut reassembler = Reassembler::new();
    let artifacts = run_transfer(&mut reassembler, &source);
    assert_eq!(artifacts, vec![b"Test".to_vec()]);
    assert_eq!(reassembler.pending_count(), 0);
}

#[test]
fn multi_chunk_transfer_end_to_end() {
    let source = make_data(2 * MAX_CHUNK_SIZE + 17);
    let frames = frames_for_transfer(&source);
    assert_eq!(frames.len(), 3);
    assert_eq!(frames[0].control_header, ControlCommand::START);
    assert_eq!(frames[1].control_header, ControlCommand::CONTINUE);
    assert_eq!(frames[2].control_header, ControlCommand::END);

    let mut reassembler = Reassembler::new();
    let artifacts = run_transfer(&mut reassembler, &source);
    assert_eq!(artifacts.len(), 1);
    assert_eq!(artifacts[0], source);
    assert_eq!(reassembler.pending_count(), 0);
}

#[test]
fn continue_without_start_is_an_anomaly() {
    let mut reassembler = Reassembler::new();
    let outcome = reassembler.process_packet(packet(ControlCommand::CONTINUE, b"stray"));
    assert!(matches!(outcome, ReassemblyOutcome::Anomaly));
    assert_eq!(reassembler.pending_count(), 0);

    // The listener keeps accepting frames afterwards.
    let source = b"after the anomaly".to_vec();
    let artifacts = run_transfer(&mut reassembler, &source);
    assert_eq!(artifacts, vec![source]);
}

#[test]
fn end_without_start_is_an_anomaly() {
    let mut reassembler = Reassembler::new();
    let outcome = reassembler.process_packet(packet(ControlCommand::END, b"stray"));
    assert!(matches!(outcome, ReassemblyOutcome::Anomaly));
    assert_eq!(reassembler.pending_count(), 0);
}

#[test]
fn error_marker_is_discarded() {
    let mut reassembler = Reassembler::new();
    let first = reassembler.process_packet(packet(ControlCommand::START, b"kept"));
    assert!(matches!(first, ReassemblyOutcome::Buffered));
    let outcome = reassembler.process_packet(packet(ControlCommand::ERROR, b"dropped"));
    assert!(matches!(outcome, ReassemblyOutcome::Anomaly));
    assert_eq!(reassembler.pending_count(), 1);

    let last = reassembler.process_packet(packet(ControlCommand::END, b"!"));
    match last {
        ReassemblyOutcome::Flushed(artifact) => assert_eq!(artifact, b"kept!".to_vec()),
        _ => panic!("a terminal marker on an open transfer must flush"),
    }
}

#[test]
fn second_start_discards_prior_buffer() {
    let mut reassembler = Reassembler::new();
    reassembler.process_packet(packet(ControlCommand::START, b"abandoned"));
    reassembler.process_packet(packet(ControlCommand::CONTINUE, b" partial"));
    assert_eq!(reassembler.pending_count(), 2);

    // A second START mid-transfer: nothing flushed, prior contents gone.
    let outcome = reassembler.process_packet(packet(ControlCommand::START, b"fresh"));
    assert!(matches!(outcome, ReassemblyOutcome::Buffered));
    assert_eq!(reassembler.pending_count(), 1);

    let last = reassembler.process_packet(packet(ControlCommand::END, b" transfer"));
    match last {
        ReassemblyOutcome::Flushed(artifact) => assert_eq!(artifact, b"fresh transfer".to_vec()),
        _ => panic!("a terminal marker on an open transfer must flush"),
    }
    assert_eq!(reassembler.pending_count(), 0);
}

#[test]
fn single_unit_flushes_alone_and_clears() {
    let mut reassembler = Reassembler::new();
    reassembler.process_packet(packet(ControlCommand::START, b"pending"));
    let outcome = reassembler.process_packet(packet(ControlCommand::SINGLE_UNIT, b"whole"));
    match outcome {
        ReassemblyOutcome::Flushed(artifact) => assert_eq!(artifact, b"whole".to_vec()),
        _ => panic!("a SINGLE_UNIT must flush its own payload"),
    }
    assert_eq!(reassembler.pending_count(), 0);
}

#[test]
fn short_datagram_is_rejected() {
    assert!(parse_datagram(&Vec::new()).is_none());
    assert!(parse_datagram(&vec![0u8, 0, 0, 0, 0, 0, 1]).is_none());
}

#[test]
fn parse_datagram_splits_header_and_payload() {
    let mut wire = vec![0u8, 0, 0, 0, 0, 0, 0, 1];
    wire.extend_from_slice(b"payload");
    let parsed = parse_datagram(&wire).unwrap();
    assert_eq!(parsed.control_header, ControlCommand::START);
    assert_eq!(parsed.bytes, b"payload".to_vec());
    assert_eq!(parsed.len, 7);

    let garbled = vec![9u8, 9, 9, 9, 9, 9, 9, 9];
    let parsed = parse_datagram(&garbled).unwrap();
    assert_eq!(parsed.control_header, ControlCommand::ERROR);
    assert_eq!(parsed.bytes.len(), 0);
}
