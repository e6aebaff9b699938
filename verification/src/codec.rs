//! Header codec: the fixed-width control marker that tags every datagram,
//! and its encoding to and from the 8-byte wire pattern.

use vstd::prelude::*;

verus! {

/// Length in bytes of the control header that precedes every payload.
pub const MAX_USER_CONTROL_HEADER: usize = 8;

/// The role a datagram plays within a chunked transfer.
///
/// `ERROR` is both the decoder's fail-safe for unrecognized patterns and an
/// explicit sentinel; it never carries application data.
#[allow(non_camel_case_types)]
#[derive(Clone, Copy, Debug, PartialEq, Eq, Hash, Structural)]
pub enum ControlCommand {
    START,
    CONTINUE,
    SINGLE_UNIT,
    END,
    ERROR,
}

/// The 8-byte wire pattern of a control marker. Injective over the five
/// values, so in particular over the four chunk-bearing ones.
pub open spec fn spec_encode(c: ControlCommand) -> Seq<u8> {
    match c {
        ControlCommand::START => seq![0u8, 0u8, 0u8, 0u8, 0u8, 0u8, 0u8, 1u8],
        ControlCommand::CONTINUE => seq![0u8, 0u8, 0u8, 0u8, 1u8, 1u8, 1u8, 1u8],
        ControlCommand::SINGLE_UNIT => seq![0u8, 0u8, 0u8, 1u8, 1u8, 1u8, 1u8, 1u8],
        ControlCommand::END => seq![0u8, 0u8, 0u8, 0u8, 0u8, 0u8, 1u8, 1u8],
        ControlCommand::ERROR => seq![0u8, 0u8, 0u8, 0u8, 0u8, 1u8, 1u8, 1u8],
    }
}

/// Total decoding of an arbitrary byte sequence: the marker whose pattern the
/// input equals, and `ERROR` for every other input (fail-safe default).
pub open spec fn spec_decode(s: Seq<u8>) -> ControlCommand {
    if s == spec_encode(ControlCommand::START) {
        ControlCommand::START
    } else if s == spec_encode(ControlCommand::CONTINUE) {
        ControlCommand::CONTINUE
    } else if s == spec_encode(ControlCommand::SINGLE_UNIT) {
        ControlCommand::SINGLE_UNIT
    } else if s == spec_encode(ControlCommand::END) {
        ControlCommand::END
    } else {
        ControlCommand::ERROR
    }
}

/// Every marker's pattern decodes back to that marker. For the four
/// chunk-bearing markers this is the encode/decode bijection; the sentinel's
/// pattern matches no other, so it round-trips as well.
pub proof fn lemma_header_round_trip(c: ControlCommand)
    ensures
        spec_decode(spec_encode(c)) == c,
{
}

/// Fail-safe: a byte sequence that is none of the four chunk-bearing
/// patterns decodes to `ERROR` — decoding is total and never hands the
/// input back.
pub proof fn lemma_decode_fail_safe(s: Seq<u8>)
    requires
        s != spec_encode(ControlCommand::START),
        s != spec_encode(ControlCommand::CONTINUE),
        s != spec_encode(ControlCommand::SINGLE_UNIT),
        s != spec_encode(ControlCommand::END),
    ensures
        spec_decode(s) == ControlCommand::ERROR,
{
}

/// Encode a control marker as its 8-byte wire header.
pub fn create_control_header(c: ControlCommand) -> (header: [u8; 8])
    ensures
        header@ == spec_encode(c),
{
    let header: [u8; 8] = match c {
        ControlCommand::START => [0, 0, 0, 0, 0, 0, 0, 1],
        ControlCommand::CONTINUE => [0, 0, 0, 0, 1, 1, 1, 1],
        ControlCommand::SINGLE_UNIT => [0, 0, 0, 1, 1, 1, 1, 1],
        ControlCommand::END => [0, 0, 0, 0, 0, 0, 1, 1],
        ControlCommand::ERROR => [0, 0, 0, 0, 0, 1, 1, 1],
    };
    proof {
        assert(header@ =~= spec_encode(c));
    }
    header
}

/// Whether `input` equals the wire pattern of `c`.
fn matches_pattern(input: &[u8], c: ControlCommand) -> (b: bool)
    ensures
        b == (input@ == spec_encode(c)),
{
    let pattern = create_control_header(c);
    if input.len() != 8 {
        return false;
    }
    let mut i: usize = 0;
    while i < 8
        invariant
            0 <= i <= 8,
            input@.len() == 8,
            pattern@ == spec_encode(c),
            forall|j: int| 0 <= j < i ==> input@[j] == pattern@[j],
        decreases 8 - i,
    {
        if input[i] != pattern[i] {
            return false;
        }
        i = i + 1;
    }
    proof {
        assert(input@ =~= pattern@);
    }
    true
}

/// Decode an 8-byte control header; any input that is not exactly one of the
/// four chunk-bearing patterns yields `ERROR`.
pub fn get_command_from_control_header(input: &[u8]) -> (command: ControlCommand)
    ensures
        command == spec_decode(input@),
{
    if matches_pattern(input, ControlCommand::START) {
        return ControlCommand::START;
    }
    if matches_pattern(input, ControlCommand::CONTINUE) {
        return ControlCommand::CONTINUE;
    }
    if matches_pattern(input, ControlCommand::SINGLE_UNIT) {
        return ControlCommand::SINGLE_UNIT;
    }
    if matches_pattern(input, ControlCommand::END) {
        return ControlCommand::END;
    }
    ControlCommand::ERROR
}

} // verus!
