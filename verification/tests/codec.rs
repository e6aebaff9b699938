use adrenaline::codec::create_control_header;
use adrenaline::codec::get_command_from_control_header;
use adrenaline::ControlCommand;

#[test]
fn round_trip_start() {
    let header = create_control_header(ControlCommand::START);
    assert_eq!(header, [0, 0, 0, 0, 0, 0, 0, 1]);
    assert_eq!(get_command_from_control_header(&header), ControlCommand::START);
}

#[test]
fn round_trip_continue() {
    let header = create_control_header(ControlCommand::CONTINUE);
    assert_eq!(header, [0, 0, 0, 0, 1, 1, 1, 1]);
    assert_eq!(get_command_from_control_header(&header), ControlCommand::CONTINUE);
}

#[test]
fn round_trip_single_unit() {
    let header = create_control_header(ControlCommand::SINGLE_UNIT);
    assert_eq!(header, [0, 0, 0, 1, 1, 1, 1, 1]);
    assert_eq!(get_command_from_control_header(&header), ControlCommand::SINGLE_UNIT);
}

#[test]
fn round_trip_end() {
    let header = create_control_header(ControlCommand::END);
    assert_eq!(header, [0, 0, 0, 0, 0, 0, 1, 1]);
    assert_eq!(get_command_from_control_header(&header), ControlCommand::END);
}

#[test]
fn error_pattern_decodes_to_error() {
    let header = create_control_header(ControlCommand::ERROR);
    assert_eq!(header, [0, 0, 0, 0, 0, 1, 1, 1]);
    assert_eq!(get_command_from_control_header(&header), ControlCommand::ERROR);
}

#[test]
fn unrecognized_patterns_decode_to_error() {
    assert_eq!(get_command_from_control_header(&[0u8; 8]), ControlCommand::ERROR);
    assert_eq!(get_command_from_control_header(&[1u8; 8]), ControlCommand::ERROR);
    assert_eq!(
        get_command_from_control_header(&[1, 0, 0, 0, 0, 0, 0, 1]),
        ControlCommand::ERROR
    );
    assert_eq!(
        get_command_from_control_header(&[0, 0, 0, 0, 0, 0, 1, 0]),
        ControlCommand::ERROR
    );
    assert_eq!(get_command_from_control_header(&[255, 3, 7, 9, 0, 0, 0, 1]), ControlCommand::ERROR);
}

#[test]
fn wrong_length_decodes_to_error() {
    assert_eq!(get_command_from_control_header(&[]), ControlCommand::ERROR);
    assert_eq!(get_command_from_control_header(&[0, 0, 0, 0, 0, 0, 1]), ControlCommand::ERROR);
    assert_eq!(
        get_command_from_control_header(&[0, 0, 0, 0, 0, 0, 0, 1, 0]),
        ControlCommand::ERROR
    );
}
