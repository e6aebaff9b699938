//! Framer: assigns each chunk of an ordered run its control marker (first,
//! middle, last, or singleton) and lays a frame out on the wire as the
//! encoded header followed by the payload.

use vstd::prelude::*;
use crate::chunker::chunk_views;
use crate::chunker::spec_chunks;
use crate::chunker::split_into_chunks;
use crate::codec::ControlCommand;
use crate::codec::MAX_USER_CONTROL_HEADER;
use crate::codec::create_control_header;
use crate::codec::spec_decode;
use crate::codec::spec_encode;

verus! {

/// One frame: a control marker plus the chunk payload it tags, ready for a
/// single datagram send. `len` records the payload length.
pub struct Packet {
    pub control_header: ControlCommand,
    pub bytes: Vec<u8>,
    pub len: usize,
}

impl Packet {
    /// The recorded length matches the payload actually held.
    pub open spec fn wf(self) -> bool {
        self.len == self.bytes@.len()
    }
}

/// The marker owed to chunk `i` of an `n`-chunk transfer: a lone chunk is a
/// `SINGLE_UNIT`; otherwise the first chunk opens with `START`, the last
/// closes with `END`, and every chunk strictly between carries `CONTINUE`.
pub open spec fn spec_marker(i: int, n: int) -> ControlCommand {
    if n == 1 {
        ControlCommand::SINGLE_UNIT
    } else if i == 0 {
        ControlCommand::START
    } else if i == n - 1 {
        ControlCommand::END
    } else {
        ControlCommand::CONTINUE
    }
}

/// Marker assignment, spelled out: one chunk yields a lone `SINGLE_UNIT`;
/// two or more yield exactly one `START`, then `CONTINUE` for every interior
/// position, then one `END`.
pub proof fn lemma_marker_assignment(n: int)
    requires
        n >= 1,
    ensures
        n == 1 ==> spec_marker(0, n) == ControlCommand::SINGLE_UNIT,
        n >= 2 ==> spec_marker(0, n) == ControlCommand::START,
        n >= 2 ==> spec_marker(n - 1, n) == ControlCommand::END,
        forall|i: int| 0 < i < n - 1 ==> spec_marker(i, n) == ControlCommand::CONTINUE,
{
}

/// The marker for the chunk at `index` of a transfer of `count` chunks.
pub fn marker_for_chunk(index: usize, count: usize) -> (marker: ControlCommand)
    requires
        index < count,
    ensures
        marker == spec_marker(index as int, count as int),
{
    if count == 1 {
        ControlCommand::SINGLE_UNIT
    } else if index == 0 {
        ControlCommand::START
    } else if index == count - 1 {
        ControlCommand::END
    } else {
        ControlCommand::CONTINUE
    }
}

/// An exact copy of a byte vector.
fn copy_bytes(src: &Vec<u8>) -> (out: Vec<u8>)
    ensures
        out@ == src@,
{
    let mut out: Vec<u8> = Vec::new();
    let mut i: usize = 0;
    while i < src.len()
        invariant
            i <= src@.len(),
            out@ == src@.take(i as int),
        decreases src@.len() - i,
    {
        out.push(src[i]);
        proof {
            assert(src@.take(i as int).push(src@[i as int]) =~= src@.take(i + 1));
        }
        i = i + 1;
    }
    proof {
        assert(src@.take(src@.len() as int) =~= src@);
    }
    out
}

/// Tag every chunk of an ordered run with its marker, in transmission order.
///
/// The frames keep the chunks' relative order and payloads unchanged — the
/// receiver has no other means of recovering order — and each carries the
/// marker its position dictates.
pub fn build_frames(chunks: &Vec<Vec<u8>>) -> (frames: Vec<Packet>)
    ensures
        frames@.len() == chunks@.len(),
        forall|i: int|
            0 <= i < frames@.len() ==> (#[trigger] frames@[i]).control_header == spec_marker(
                i,
                chunks@.len() as int,
            ),
        forall|i: int| 0 <= i < frames@.len() ==> (#[trigger] frames@[i]).bytes@ == chunks@[i]@,
        forall|i: int| 0 <= i < frames@.len() ==> (#[trigger] frames@[i]).wf(),
{
    let mut frames: Vec<Packet> = Vec::new();
    let mut i: usize = 0;
    while i < chunks.len()
        invariant
            i <= chunks@.len(),
            frames@.len() == i,
            forall|j: int|
                0 <= j < i ==> (#[trigger] frames@[j]).control_header == spec_marker(
                    j,
                    chunks@.len() as int,
                ),
            forall|j: int| 0 <= j < i ==> (#[trigger] frames@[j]).bytes@ == chunks@[j]@,
            forall|j: int| 0 <= j < i ==> (#[trigger] frames@[j]).wf(),
        decreases chunks@.len() - i,
    {
        let marker = marker_for_chunk(i, chunks.len());
        let payload = copy_bytes(&chunks[i]);
        let len = payload.len();
        frames.push(Packet { control_header: marker, bytes: payload, len });
        i = i + 1;
    }
    frames
}

/// The frame sequence of an ordered chunk run: each chunk paired with the
/// marker its position dictates, in transmission order.
pub open spec fn spec_frames(chunks: Seq<Seq<u8>>) -> Seq<(ControlCommand, Seq<u8>)> {
    Seq::new(chunks.len(), |i: int| (spec_marker(i, chunks.len() as int), chunks[i]))
}

/// The marker/payload pairs a run of frames carries.
pub open spec fn frame_views(frames: Seq<Packet>) -> Seq<(ControlCommand, Seq<u8>)> {
    frames.map_values(|p: Packet| (p.control_header, p.bytes@))
}

/// The whole send-side pipeline on one byte source: chunk it and tag every
/// chunk with its marker. The frames carry, in transmission order, exactly
/// the marker/payload pairs that the source's chunking dictates; an empty
/// source yields no frames.
pub fn frames_for_transfer(data: &Vec<u8>) -> (frames: Vec<Packet>)
    ensures
        frame_views(frames@) == spec_frames(spec_chunks(data@)),
        forall|i: int| 0 <= i < frames@.len() ==> (#[trigger] frames@[i]).wf(),
{
    let info = split_into_chunks(data);
    let frames = build_frames(&info.chunks);
    proof {
        let chunks = spec_chunks(data@);
        assert forall|i: int| 0 <= i < frames@.len() implies (#[trigger] frame_views(frames@)[i])
            == spec_frames(chunks)[i] by {
            assert(frames@[i].bytes@ == info.chunks@[i]@);
            assert(info.chunks@[i]@ == chunk_views(info.chunks@)[i]);
        }
        assert(frame_views(frames@) =~= spec_frames(chunks));
    }
    frames
}

/// Lay a frame out as one wire datagram: the encoded 8-byte control header
/// followed by the payload bytes.
pub fn encode_frame(packet: &Packet) -> (wire: Vec<u8>)
    ensures
        wire@ == spec_encode(packet.control_header) + packet.bytes@,
        wire@.len() == MAX_USER_CONTROL_HEADER + packet.bytes@.len(),
{
    let header = create_control_header(packet.control_header);
    let mut wire: Vec<u8> = Vec::new();
    let mut i: usize = 0;
    while i < 8
        invariant
            i <= 8,
            header@ == spec_encode(packet.control_header),
            wire@ == header@.take(i as int),
        decreases 8 - i,
    {
        wire.push(header[i]);
        proof {
            assert(header@.take(i as int).push(header@[i as int]) =~= header@.take(i + 1));
        }
        i = i + 1;
    }
    proof {
        assert(header@.take(8) =~= header@);
    }
    let mut j: usize = 0;
    while j < packet.bytes.len()
        invariant
            j <= packet.bytes@.len(),
            header@ == spec_encode(packet.control_header),
            wire@ == header@ + packet.bytes@.take(j as int),
        decreases packet.bytes@.len() - j,
    {
        wire.push(packet.bytes[j]);
        proof {
            assert((header@ + packet.bytes@.take(j as int)).push(packet.bytes@[j as int])
                =~= header@ + packet.bytes@.take(j + 1));
        }
        j = j + 1;
    }
    proof {
        assert(packet.bytes@.take(packet.bytes@.len() as int) =~= packet.bytes@);
    }
    wire
}

/// A frame laid out on the wire comes back apart exactly: the first 8 bytes
/// decode to the marker that was encoded, and the rest is the payload.
pub proof fn lemma_frame_wire_round_trip(m: ControlCommand, payload: Seq<u8>)
    ensures
        (spec_encode(m) + payload).len() == 8 + payload.len(),
        spec_decode((spec_encode(m) + payload).take(8)) == m,
        (spec_encode(m) + payload).skip(8) == payload,
{
    assert((spec_encode(m) + payload).take(8) =~= spec_encode(m));
    assert((spec_encode(m) + payload).skip(8) =~= payload);
}

} // verus!
