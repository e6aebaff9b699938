//! Chunker: partitions an input byte sequence into an ordered run of
//! bounded-size chunks, sized against the datagram budget so that a framed
//! chunk never exceeds the maximum safe UDP payload.

use vstd::prelude::*;
use vstd::arithmetic::div_mod::lemma_basic_div;
use vstd::arithmetic::div_mod::lemma_hoist_over_denominator;
use vstd::seq_lib::lemma_flatten_concat;
use crate::codec::MAX_USER_CONTROL_HEADER;

verus! {

/// UDP header overhead per datagram, in bytes.
pub const UDP_HEADER: usize = 8;

/// IP header overhead per datagram, in bytes.
pub const IP_HEADER: usize = 20;

/// Alignment guard reserved out of the payload budget, in bytes.
pub const AG_HEADER: usize = 4;

/// Largest datagram the transport is prepared to read in one operation.
pub const MAX_DATAGRAM_SIZE: usize = 9216;

/// Payload budget after network-layer overhead.
pub const MAX_DATA_LENGTH: usize = (MAX_DATAGRAM_SIZE - 1) - UDP_HEADER - IP_HEADER
    - MAX_USER_CONTROL_HEADER;

/// Largest number of payload bytes a single chunk may carry.
pub const MAX_CHUNK_SIZE: usize = MAX_DATA_LENGTH - AG_HEADER;

/// The byte sequences held by a run of chunks.
pub open spec fn chunk_views(chunks: Seq<Vec<u8>>) -> Seq<Seq<u8>> {
    chunks.map_values(|c: Vec<u8>| c@)
}

/// The chunking of a byte sequence: full chunks of `MAX_CHUNK_SIZE` bytes,
/// with only the final chunk allowed to be shorter; an empty input yields no
/// chunks at all.
pub open spec fn spec_chunks(data: Seq<u8>) -> Seq<Seq<u8>>
    decreases data.len(),
{
    if data.len() == 0 {
        Seq::empty()
    } else if data.len() <= MAX_CHUNK_SIZE {
        seq![data]
    } else {
        seq![data.take(MAX_CHUNK_SIZE as int)] + spec_chunks(data.skip(MAX_CHUNK_SIZE as int))
    }
}

/// The complete ordered run of chunks produced from one input source,
/// together with the total byte length of that source.
pub struct FileChunkInfo {
    pub size: usize,
    pub chunks: Vec<Vec<u8>>,
}

impl FileChunkInfo {
    /// The chunk-run invariant: the chunks concatenate back to a sequence of
    /// exactly `size` bytes, every chunk is non-empty and within the budget,
    /// and only the final chunk may fall short of it.
    pub open spec fn wf(self) -> bool {
        &&& chunk_views(self.chunks@).flatten().len() == self.size
        &&& forall|i: int|
            0 <= i < self.chunks@.len() ==> 1 <= (#[trigger] self.chunks@[i])@.len()
                <= MAX_CHUNK_SIZE
        &&& forall|i: int|
            0 <= i < self.chunks@.len() - 1 ==> (#[trigger] self.chunks@[i])@.len()
                == MAX_CHUNK_SIZE
    }
}

/// Concatenating the chunking of a byte sequence, in order, reproduces that
/// sequence exactly.
pub proof fn lemma_chunks_flatten(data: Seq<u8>)
    ensures
        spec_chunks(data).flatten() == data,
    decreases data.len(),
{
    if data.len() == 0 {
        assert(spec_chunks(data).flatten() =~= data);
    } else if data.len() <= MAX_CHUNK_SIZE {
        spec_chunks(data).lemma_flatten_one_element();
    } else {
        let m = MAX_CHUNK_SIZE as int;
        lemma_chunks_flatten(data.skip(m));
        lemma_flatten_concat(seq![data.take(m)], spec_chunks(data.skip(m)));
        seq![data.take(m)].lemma_flatten_one_element();
        assert(data.take(m) + data.skip(m) =~= data);
    }
}

/// Every chunk of a chunking holds between 1 and `MAX_CHUNK_SIZE` bytes, and
/// every chunk but the last holds exactly `MAX_CHUNK_SIZE`.
pub proof fn lemma_chunk_size_bounds(data: Seq<u8>)
    ensures
        forall|i: int|
            0 <= i < spec_chunks(data).len() ==> 1 <= (#[trigger] spec_chunks(data)[i]).len()
                <= MAX_CHUNK_SIZE,
        forall|i: int|
            0 <= i < spec_chunks(data).len() - 1 ==> (#[trigger] spec_chunks(data)[i]).len()
                == MAX_CHUNK_SIZE,
    decreases data.len(),
{
    if data.len() == 0 {
    } else if data.len() <= MAX_CHUNK_SIZE {
    } else {
        let m = MAX_CHUNK_SIZE as int;
        let rest = spec_chunks(data.skip(m));
        let whole = spec_chunks(data);
        lemma_chunk_size_bounds(data.skip(m));
        assert forall|i: int| 0 <= i < whole.len() implies 1 <= (#[trigger] whole[i]).len()
            <= MAX_CHUNK_SIZE by {
            if i > 0 {
                assert(whole[i] == rest[i - 1]);
            }
        }
        assert forall|i: int| 0 <= i < whole.len() - 1 implies (#[trigger] whole[i]).len()
            == MAX_CHUNK_SIZE by {
            if i > 0 {
                assert(whole[i] == rest[i - 1]);
            }
        }
    }
}

/// How many chunks a non-empty source yields: one per started
/// `MAX_CHUNK_SIZE` slice — the remainder rounds up.
pub proof fn lemma_chunks_count(data: Seq<u8>)
    requires
        data.len() > 0,
    ensures
        spec_chunks(data).len() == (data.len() - 1) / (MAX_CHUNK_SIZE as int) + 1,
    decreases data.len(),
{
    let m = MAX_CHUNK_SIZE as int;
    if data.len() <= MAX_CHUNK_SIZE {
        lemma_basic_div(data.len() - 1, m);
    } else {
        lemma_chunks_count(data.skip(m));
        lemma_hoist_over_denominator(data.len() - m - 1, 1, MAX_CHUNK_SIZE as nat);
        assert(data.len() - m - 1 + 1 * m == data.len() - 1);
    }
}

/// Split a byte sequence into its ordered run of bounded-size chunks.
///
/// The result carries the exact chunking of the input: chunks of
/// `MAX_CHUNK_SIZE` bytes with only the final one possibly shorter, whose
/// in-order concatenation is the input, and the input's total length. An
/// empty input yields a run of zero chunks.
pub fn split_into_chunks(data: &Vec<u8>) -> (info: FileChunkInfo)
    ensures
        info.size == data@.len(),
        chunk_views(info.chunks@) == spec_chunks(data@),
        info.wf(),
{
    let mut chunks: Vec<Vec<u8>> = Vec::new();
    let mut offset: usize = 0;
    proof {
        assert(data@.skip(0) =~= data@);
        assert(chunk_views(chunks@) + spec_chunks(data@) =~= spec_chunks(data@));
    }
    while offset < data.len()
        invariant
            offset <= data@.len(),
            chunk_views(chunks@) + spec_chunks(data@.skip(offset as int)) == spec_chunks(data@),
        decreases data@.len() - offset,
    {
        let remaining = data.len() - offset;
        let this_len = if remaining < MAX_CHUNK_SIZE {
            remaining
        } else {
            MAX_CHUNK_SIZE
        };
        let end = offset + this_len;
        let mut chunk: Vec<u8> = Vec::new();
        let mut i = offset;
        while i < end
            invariant
                offset <= i <= end <= data@.len(),
                chunk@ == data@.subrange(offset as int, i as int),
            decreases end - i,
        {
            chunk.push(data[i]);
            proof {
                assert(data@.subrange(offset as int, i as int).push(data@[i as int])
                    =~= data@.subrange(offset as int, i + 1));
            }
            i = i + 1;
        }
        proof {
            let o = offset as int;
            let e = end as int;
            let m = MAX_CHUNK_SIZE as int;
            let rem = data@.skip(o);
            assert(chunk@ == data@.subrange(o, e));
            if remaining <= MAX_CHUNK_SIZE {
                assert(e == data@.len());
                assert(chunk@ =~= rem);
                assert(spec_chunks(rem) == seq![rem]);
                assert(data@.skip(e) =~= Seq::<u8>::empty());
                assert(spec_chunks(data@.skip(e)) == Seq::<Seq<u8>>::empty());
            } else {
                assert(chunk@ =~= rem.take(m));
                assert(rem.skip(m) =~= data@.skip(e));
                assert(spec_chunks(rem) == seq![rem.take(m)] + spec_chunks(data@.skip(e)));
            }
            assert(chunk_views(chunks@.push(chunk)) =~= chunk_views(chunks@).push(chunk@));
            assert(chunk_views(chunks@).push(chunk@) + spec_chunks(data@.skip(e))
                =~= chunk_views(chunks@) + spec_chunks(rem));
        }
        chunks.push(chunk);
        offset = end;
    }
    proof {
        assert(data@.skip(offset as int) =~= Seq::<u8>::empty());
        assert(chunk_views(chunks@) + spec_chunks(data@.skip(offset as int))
            =~= chunk_views(chunks@));
        lemma_chunks_flatten(data@);
        lemma_chunk_size_bounds(data@);
        assert forall|i: int|
            0 <= i < chunks@.len() implies 1 <= (#[trigger] chunks@[i])@.len()
            <= MAX_CHUNK_SIZE by {
            assert(chunks@[i]@ == chunk_views(chunks@)[i]);
        }
        assert forall|i: int|
            0 <= i < chunks@.len() - 1 implies (#[trigger] chunks@[i])@.len()
            == MAX_CHUNK_SIZE by {
            assert(chunks@[i]@ == chunk_views(chunks@)[i]);
        }
    }
    FileChunkInfo { size: data.len(), chunks }
}

} // verus!
