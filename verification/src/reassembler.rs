//! Reassembler: folds inbound frame payloads into a pending-output buffer
//! according to their control markers, and hands back the completed byte
//! stream when a terminal marker arrives.

use vstd::prelude::*;
use vstd::seq_lib::lemma_flatten_concat;
use crate::chunker::chunk_views;
use crate::chunker::lemma_chunks_flatten;
use crate::chunker::spec_chunks;
use crate::chunker::MAX_CHUNK_SIZE;
use crate::codec::spec_decode;
use crate::codec::ControlCommand;
use crate::framer::spec_frames;
use crate::framer::spec_marker;
use crate::framer::Packet;
use vstd::slice::slice_subrange;

verus! {

/// What the reassembler did with one inbound frame.
pub enum ReassemblyOutcome {
    /// The payload was folded into the pending buffer.
    Buffered,
    /// A terminal marker arrived: the completed artifact, the in-order
    /// concatenation of the transfer's payloads.
    Flushed(Vec<u8>),
    /// The frame was discarded: an `ERROR` marker, or a `CONTINUE`/`END`
    /// with no transfer in progress. Recoverable by design; the receive
    /// loop goes on.
    Anomaly,
}

/// One step of the reassembly state machine: from the pending buffer and an
/// inbound frame's marker and payload to the next buffer and the flushed
/// artifact, if any.
///
/// `START` abandons whatever was pending and opens a fresh transfer;
/// `CONTINUE` extends an open transfer; `SINGLE_UNIT` flushes the lone
/// payload; `END` closes an open transfer and flushes its concatenation;
/// `ERROR` is discarded. A `CONTINUE` or `END` with nothing pending signals
/// a lost or out-of-order `START` and changes nothing.
pub open spec fn spec_step(buf: Seq<Seq<u8>>, m: ControlCommand, payload: Seq<u8>) -> (
    Seq<Seq<u8>>,
    Option<Seq<u8>>,
) {
    match m {
        ControlCommand::START => (seq![payload], None),
        ControlCommand::CONTINUE => if buf.len() == 0 {
            (buf, None)
        } else {
            (buf.push(payload), None)
        },
        ControlCommand::SINGLE_UNIT => (Seq::empty(), Some(payload)),
        ControlCommand::END => if buf.len() == 0 {
            (buf, None)
        } else {
            (Seq::empty(), Some(buf.push(payload).flatten()))
        },
        ControlCommand::ERROR => (buf, None),
    }
}

/// Whether a frame is a protocol anomaly in the given buffer state: an
/// `ERROR` marker, or a `CONTINUE`/`END` while no transfer is in progress.
pub open spec fn spec_is_anomaly(buf: Seq<Seq<u8>>, m: ControlCommand) -> bool {
    ||| m == ControlCommand::ERROR
    ||| (m == ControlCommand::CONTINUE || m == ControlCommand::END) && buf.len() == 0
}

/// A flush happens only on a terminal marker, and `START`/`SINGLE_UNIT`
/// leave nothing of the prior buffer behind: whatever was pending, the next
/// buffer after `START` holds exactly the new payload.
pub proof fn lemma_restart_discards(buf: Seq<Seq<u8>>, payload: Seq<u8>)
    ensures
        spec_step(buf, ControlCommand::START, payload).0 == seq![payload],
        spec_step(buf, ControlCommand::START, payload).1 is None,
{
}

/// A `CONTINUE` with no transfer in progress flushes nothing and leaves the
/// buffer empty; it is reported as an anomaly, never a crash.
pub proof fn lemma_continue_without_start(payload: Seq<u8>)
    ensures
        spec_step(Seq::empty(), ControlCommand::CONTINUE, payload).0 == Seq::<Seq<u8>>::empty(),
        spec_step(Seq::empty(), ControlCommand::CONTINUE, payload).1 is None,
        spec_is_anomaly(Seq::empty(), ControlCommand::CONTINUE),
{
}

/// Receiver-side state: the ordered payloads of the one in-progress
/// transfer, pending flush.
pub struct Reassembler {
    buffer: Vec<Vec<u8>>,
}

impl View for Reassembler {
    type V = Seq<Seq<u8>>;

    closed spec fn view(&self) -> Seq<Seq<u8>> {
        chunk_views(self.buffer@)
    }
}

/// Concatenate an ordered run of byte vectors into one byte vector.
pub fn concat_chunks(chunks: &Vec<Vec<u8>>) -> (out: Vec<u8>)
    ensures
        out@ == chunk_views(chunks@).flatten(),
{
    let mut out: Vec<u8> = Vec::new();
    proof {
        assert(chunk_views(chunks@.take(0)).flatten() =~= Seq::<u8>::empty());
    }
    let mut i: usize = 0;
    while i < chunks.len()
        invariant
            i <= chunks@.len(),
            out@ == chunk_views(chunks@.take(i as int)).flatten(),
        decreases chunks@.len() - i,
    {
        let chunk = &chunks[i];
        let ghost done = chunk_views(chunks@.take(i as int)).flatten();
        let mut j: usize = 0;
        while j < chunk.len()
            invariant
                j <= chunk@.len(),
                out@ == done + chunk@.take(j as int),
            decreases chunk@.len() - j,
        {
            out.push(chunk[j]);
            proof {
                assert((done + chunk@.take(j as int)).push(chunk@[j as int])
                    =~= done + chunk@.take(j + 1));
            }
            j = j + 1;
        }
        proof {
            let pre = chunk_views(chunks@.take(i as int));
            assert(chunk@.take(chunk@.len() as int) =~= chunk@);
            lemma_flatten_concat(pre, seq![chunk@]);
            seq![chunk@].lemma_flatten_one_element();
            assert(chunk_views(chunks@.take(i + 1)) =~= pre + seq![chunk@]);
            assert(out@ == chunk_views(chunks@.take(i + 1)).flatten());
        }
        i = i + 1;
    }
    proof {
        assert(chunks@.take(chunks@.len() as int) =~= chunks@);
    }
    out
}

/// Take a received datagram apart into a frame: the first 8 bytes decode to
/// the control marker, the rest is the payload. A datagram too short to
/// carry a header is rejected (and discarded by the caller), never a crash.
pub fn parse_datagram(datagram: &Vec<u8>) -> (parsed: Option<Packet>)
    ensures
        match parsed {
            Some(packet) => {
                &&& datagram@.len() >= 8
                &&& packet.control_header == spec_decode(datagram@.take(8))
                &&& packet.bytes@ == datagram@.skip(8)
                &&& packet.wf()
            },
            None => datagram@.len() < 8,
        },
{
    if datagram.len() < 8 {
        return None;
    }
    let header = slice_subrange(datagram.as_slice(), 0, 8);
    let command = crate::codec::get_command_from_control_header(header);
    let mut payload: Vec<u8> = Vec::new();
    let mut i: usize = 8;
    while i < datagram.len()
        invariant
            8 <= i <= datagram@.len(),
            payload@ == datagram@.subrange(8, i as int),
        decreases datagram@.len() - i,
    {
        payload.push(datagram[i]);
        proof {
            assert(datagram@.subrange(8, i as int).push(datagram@[i as int])
                =~= datagram@.subrange(8, i + 1));
        }
        i = i + 1;
    }
    let len = payload.len();
    proof {
        assert(header@ =~= datagram@.take(8));
        assert(payload@ =~= datagram@.skip(8));
    }
    Some(Packet { control_header: command, bytes: payload, len })
}

impl Reassembler {
    /// A fresh reassembler with nothing pending.
    pub fn new() -> (r: Reassembler)
        ensures
            r@ == Seq::<Seq<u8>>::empty(),
    {
        Reassembler { buffer: Vec::new() }
    }

    /// How many payloads are pending flush.
    pub fn pending_count(&self) -> (n: usize)
        ensures
            n == self@.len(),
    {
        self.buffer.len()
    }

    /// Drive the state machine one frame forward. The new pending buffer and
    /// the outcome are exactly those of `spec_step`: payloads are buffered in
    /// arrival order, a terminal marker flushes the concatenated artifact and
    /// empties the buffer, and an anomalous frame is discarded — this
    /// function never fails, so the receive loop can run indefinitely.
    pub fn process_packet(&mut self, packet: Packet) -> (outcome: ReassemblyOutcome)
        ensures
            final(self)@ == spec_step(old(self)@, packet.control_header, packet.bytes@).0,
            match outcome {
                ReassemblyOutcome::Buffered => {
                    &&& spec_step(old(self)@, packet.control_header, packet.bytes@).1 is None
                    &&& !spec_is_anomaly(old(self)@, packet.control_header)
                },
                ReassemblyOutcome::Flushed(artifact) => spec_step(
                    old(self)@,
                    packet.control_header,
                    packet.bytes@,
                ).1 == Some(artifact@),
                ReassemblyOutcome::Anomaly => {
                    &&& spec_step(old(self)@, packet.control_header, packet.bytes@).1 is None
                    &&& spec_is_anomaly(old(self)@, packet.control_header)
                },
            },
    {
        match packet.control_header {
            ControlCommand::START => {
                self.buffer.clear();
                self.buffer.push(packet.bytes);
                proof {
                    assert(chunk_views(self.buffer@) =~= seq![packet.bytes@]);
                }
                ReassemblyOutcome::Buffered
            },
            ControlCommand::CONTINUE => {
                if self.buffer.len() == 0 {
                    ReassemblyOutcome::Anomaly
                } else {
                    self.buffer.push(packet.bytes);
                    proof {
                        assert(chunk_views(self.buffer@)
                            =~= chunk_views(old(self).buffer@).push(packet.bytes@));
                    }
                    ReassemblyOutcome::Buffered
                }
            },
            ControlCommand::SINGLE_UNIT => {
                self.buffer.clear();
                proof {
                    assert(chunk_views(self.buffer@) =~= Seq::<Seq<u8>>::empty());
                }
                ReassemblyOutcome::Flushed(packet.bytes)
            },
            ControlCommand::END => {
                if self.buffer.len() == 0 {
                    ReassemblyOutcome::Anomaly
                } else {
                    self.buffer.push(packet.bytes);
                    proof {
                        assert(chunk_views(self.buffer@)
                            =~= chunk_views(old(self).buffer@).push(packet.bytes@));
                    }
                    let artifact = concat_chunks(&self.buffer);
                    self.buffer.clear();
                    proof {
                        assert(chunk_views(self.buffer@) =~= Seq::<Seq<u8>>::empty());
                    }
                    ReassemblyOutcome::Flushed(artifact)
                }
            },
            ControlCommand::ERROR => ReassemblyOutcome::Anomaly,
        }
    }
}

/// Run the state machine over a whole frame sequence: the final pending
/// buffer, and every flushed artifact in flush order.
pub open spec fn spec_run(buf: Seq<Seq<u8>>, frames: Seq<(ControlCommand, Seq<u8>)>) -> (
    Seq<Seq<u8>>,
    Seq<Seq<u8>>,
)
    decreases frames.len(),
{
    if frames.len() == 0 {
        (buf, Seq::empty())
    } else {
        let first_step = spec_step(buf, frames.first().0, frames.first().1);
        let rest = spec_run(first_step.0, frames.drop_first());
        let flushed = if first_step.1 is Some {
            seq![first_step.1->Some_0]
        } else {
            Seq::<Seq<u8>>::empty()
        };
        (rest.0, flushed + rest.1)
    }
}

/// After an open transfer's first chunk, running the remaining frames of an
/// `n >= 2`-chunk transfer buffers each `CONTINUE` payload in order and ends
/// with a single flush of everything buffered plus the `END` payload.
proof fn lemma_run_tail(buf: Seq<Seq<u8>>, chunks: Seq<Seq<u8>>, i: int)
    requires
        chunks.len() >= 2,
        1 <= i < chunks.len(),
        buf.len() > 0,
    ensures
        spec_run(buf, spec_frames(chunks).skip(i)).0 == Seq::<Seq<u8>>::empty(),
        spec_run(buf, spec_frames(chunks).skip(i)).1 == seq![(buf + chunks.skip(i)).flatten()],
    decreases chunks.len() - i,
{
    let frames = spec_frames(chunks);
    let tail = frames.skip(i);
    let n = chunks.len() as int;
    assert(tail.len() == n - i);
    assert(tail.first() == frames[i]);
    assert(frames[i] == (spec_marker(i, n), chunks[i]));
    if i == n - 1 {
        assert(tail.first().0 == ControlCommand::END);
        assert(tail.first().1 == chunks[i]);
        let first_step = spec_step(buf, ControlCommand::END, chunks[i]);
        assert(first_step.0 == Seq::<Seq<u8>>::empty());
        assert(first_step.1 == Some(buf.push(chunks[i]).flatten()));
        assert(tail.drop_first().len() == 0);
        assert(spec_run(first_step.0, tail.drop_first()) == (
            first_step.0,
            Seq::<Seq<u8>>::empty(),
        ));
        assert(buf.push(chunks[i]) =~= buf + chunks.skip(i));
        assert(spec_run(buf, tail).0 == Seq::<Seq<u8>>::empty());
        assert(spec_run(buf, tail).1 =~= seq![(buf + chunks.skip(i)).flatten()]);
    } else {
        assert(tail.first().0 == ControlCommand::CONTINUE);
        assert(tail.first().1 == chunks[i]);
        let first_step = spec_step(buf, ControlCommand::CONTINUE, chunks[i]);
        assert(first_step.0 == buf.push(chunks[i]));
        assert(first_step.1 is None);
        assert(tail.drop_first() =~= frames.skip(i + 1));
        lemma_run_tail(buf.push(chunks[i]), chunks, i + 1);
        assert(spec_run(first_step.0, tail.drop_first()) == spec_run(
            first_step.0,
            frames.skip(i + 1),
        ));
        assert(buf.push(chunks[i]) + chunks.skip(i + 1) =~= buf + chunks.skip(i));
        assert(spec_run(buf, tail).0 == Seq::<Seq<u8>>::empty());
        assert(spec_run(buf, tail).1 =~= Seq::<Seq<u8>>::empty() + seq![(buf
            + chunks.skip(i)).flatten()]);
        assert(Seq::<Seq<u8>>::empty() + seq![(buf + chunks.skip(i)).flatten()] =~= seq![(buf
            + chunks.skip(i)).flatten()]);
    }
}

/// End-to-end reconstruction: take any non-empty byte sequence, chunk it,
/// tag the chunks with their markers, and feed the frames in order to the
/// reassembler — whatever it had pending before. Exactly one artifact is
/// flushed, it is byte-identical to the source, and nothing is left pending.
pub proof fn lemma_transfer_round_trip(data: Seq<u8>, initial: Seq<Seq<u8>>)
    requires
        data.len() > 0,
    ensures
        spec_run(initial, spec_frames(spec_chunks(data))).0 == Seq::<Seq<u8>>::empty(),
        spec_run(initial, spec_frames(spec_chunks(data))).1 == seq![data],
{
    let chunks = spec_chunks(data);
    let frames = spec_frames(chunks);
    let n = chunks.len() as int;
    lemma_chunks_flatten(data);
    if data.len() <= MAX_CHUNK_SIZE {
        assert(chunks == seq![data]);
        assert(frames.len() == 1);
        assert(frames.first() == (spec_marker(0, 1), data));
        assert(frames.first().0 == ControlCommand::SINGLE_UNIT);
        let first_step = spec_step(initial, ControlCommand::SINGLE_UNIT, data);
        assert(first_step.0 == Seq::<Seq<u8>>::empty());
        assert(first_step.1 == Some(data));
        assert(frames.drop_first().len() == 0);
        assert(spec_run(first_step.0, frames.drop_first()) == (
            first_step.0,
            Seq::<Seq<u8>>::empty(),
        ));
        assert(spec_run(initial, frames).0 == Seq::<Seq<u8>>::empty());
        assert(spec_run(initial, frames).1 =~= seq![data]);
    } else {
        let m = MAX_CHUNK_SIZE as int;
        assert(spec_chunks(data.skip(m)).len() >= 1);
        assert(n >= 2);
        assert(frames.first() == (spec_marker(0, n), chunks[0]));
        assert(frames.first().0 == ControlCommand::START);
        let first_step = spec_step(initial, ControlCommand::START, chunks[0]);
        assert(first_step.0 == seq![chunks[0]]);
        assert(first_step.1 is None);
        assert(frames.drop_first() =~= frames.skip(1));
        lemma_run_tail(seq![chunks[0]], chunks, 1);
        assert(spec_run(first_step.0, frames.drop_first()) == spec_run(
            seq![chunks[0]],
            frames.skip(1),
        ));
        assert(seq![chunks[0]] + chunks.skip(1) =~= chunks);
        assert(spec_run(initial, frames).0 == Seq::<Seq<u8>>::empty());
        assert(spec_run(initial, frames).1 =~= Seq::<Seq<u8>>::empty() + seq![data]);
        assert(Seq::<Seq<u8>>::empty() + seq![data] =~= seq![data]);
    }
}

} // verus!
