//! A synthetic byte source for filler objects.
//!
//! The bytes are generated in memory and streamed straight into the upload: no temporary
//! files, no host free-space requirement.

use bytes::Bytes;
use vstd::prelude::*;

verus! {

/// How much is handed to the transport at a time. Large enough that per-chunk bookkeeping
/// is noise against USB transfer time, small enough to stay responsive to cancellation.
pub const CHUNK: usize = 1048576;

/// `bytes::Bytes`, a shared slice of memory.
#[verifier::external_type_specification]
#[verifier::external_body]
pub struct ExBytes(Bytes);

/// What a `Bytes` holds.
pub uninterp spec fn bytes_of(b: Bytes) -> Seq<u8>;

/// `Bytes::from` a vector: holds what the vector held.
#[verifier::external_body]
fn share(bytes: Vec<u8>) -> (b: Bytes)
    ensures
        bytes_of(b) == bytes@,
{
    Bytes::from(bytes)
}

/// `Bytes::len`: how many bytes it holds.
#[verifier::external_body]
fn shared_len(b: &Bytes) -> (len: usize)
    ensures
        len == bytes_of(*b).len(),
{
    b.len()
}

/// `Bytes::slice` of the first `n` bytes: holds those, without a copy. It panics on a
/// range that is not within the bytes.
#[verifier::external_body]
fn shared_prefix(b: &Bytes, n: usize) -> (part: Bytes)
    requires
        n <= bytes_of(*b).len(),
    ensures
        bytes_of(part) == bytes_of(*b).take(n as int),
{
    b.slice(0..n)
}

/// So many zero bytes.
pub open spec fn zeros(n: nat) -> Seq<u8> {
    Seq::new(n, |i: int| 0u8)
}

/// Yields a number of zero bytes, then ends.
///
/// One zero-filled block is allocated per stream and sliced again for every chunk, so a
/// long stream allocates one block rather than one per chunk.
pub struct ZeroStream {
    remaining: u64,
    block: Bytes,
}

/// A [`ZeroStream`] as its contract speaks of it.
pub struct StreamState {
    /// Bytes still to come.
    pub remaining: nat,
    /// Bytes in the block that chunks are sliced from.
    pub block: nat,
}

/// How much of a length a block covers: all of it up to a chunk, and at least one byte.
pub open spec fn block_for(len: nat) -> nat {
    if len == 0 {
        1
    } else if len < CHUNK {
        len
    } else {
        CHUNK as nat
    }
}

/// The size of the next chunk.
pub open spec fn chunk_of(s: StreamState) -> nat {
    if s.remaining < s.block {
        s.remaining
    } else {
        s.block
    }
}

impl View for ZeroStream {
    type V = StreamState;

    closed spec fn view(&self) -> StreamState {
        StreamState { remaining: self.remaining as nat, block: bytes_of(self.block).len() }
    }
}

impl ZeroStream {
    #[verifier::type_invariant]
    spec fn inv(self) -> bool {
        &&& 1 <= bytes_of(self.block).len() <= CHUNK
        &&& bytes_of(self.block) == zeros(bytes_of(self.block).len())
    }

    /// A stream of `len` zero bytes.
    #[must_use]
    pub fn new(len: u64) -> (s: Self)
        ensures
            s@ == (StreamState { remaining: len as nat, block: block_for(len as nat) }),
    {
        let size: usize = if len == 0 {
            1
        } else if len < CHUNK as u64 {
            len as usize
        } else {
            CHUNK
        };
        let block: Vec<u8> = vec![0u8; size];
        assert(block@ =~= zeros(size as nat));
        ZeroStream { remaining: len, block: share(block) }
    }

    /// Bytes still to come.
    #[must_use]
    pub fn remaining(&self) -> (n: u64)
        ensures
            n == self@.remaining,
    {
        self.remaining
    }

    /// Bytes in the block that chunks are sliced from.
    #[must_use]
    pub fn block_len(&self) -> (n: usize)
        ensures
            n == self@.block,
    {
        shared_len(&self.block)
    }

    /// The next chunk, until the stream ends.
    pub fn next_chunk(&mut self) -> (chunk: Option<Bytes>)
        ensures
            match chunk {
                None => old(self)@.remaining == 0 && final(self)@ == old(self)@,
                Some(c) => {
                    &&& old(self)@.remaining > 0
                    &&& chunk_of(old(self)@) > 0
                    &&& bytes_of(c) == zeros(chunk_of(old(self)@))
                    &&& final(self)@ == (StreamState {
                        remaining: (old(self)@.remaining - chunk_of(old(self)@)) as nat,
                        block: old(self)@.block,
                    })
                },
            },
    {
        proof {
            use_type_invariant(&*self);
        }
        if self.remaining == 0 {
            return None;
        }
        let len: usize = shared_len(&self.block);
        let take: usize = if self.remaining < len as u64 {
            self.remaining as usize
        } else {
            len
        };
        let chunk = shared_prefix(&self.block, take);
        assert(zeros(len as nat).take(take as int) =~= zeros(take as nat));
        self.remaining = self.remaining - take as u64;
        Some(chunk)
    }
}

/// The sizes of all the chunks a stream still yields.
pub open spec fn chunks_of(s: StreamState) -> Seq<nat>
    decreases s.remaining,
{
    if s.remaining == 0 || s.block == 0 {
        Seq::empty()
    } else {
        seq![chunk_of(s)] + chunks_of(
            StreamState { remaining: (s.remaining - chunk_of(s)) as nat, ..s },
        )
    }
}

pub open spec fn sum(sizes: Seq<nat>) -> nat
    decreases sizes.len(),
{
    if sizes.len() == 0 {
        0
    } else {
        sizes[0] + sum(sizes.drop_first())
    }
}

/// A stream yields exactly the requested length: the declared size of an object matches
/// the bytes sent, or the device rejects it. No chunk is larger than the block, and there
/// are no more chunks than it takes.
pub proof fn law_stream_yields_exactly_its_length(s: StreamState)
    requires
        s.block > 0,
    ensures
        sum(chunks_of(s)) == s.remaining,
        forall|i: int| 0 <= i < chunks_of(s).len() ==> 0 < #[trigger] chunks_of(s)[i] <= s.block,
        chunks_of(s).len() == (s.remaining + s.block - 1) / s.block as int,
    decreases s.remaining,
{
    if s.remaining > 0 {
        let rest = StreamState { remaining: (s.remaining - chunk_of(s)) as nat, ..s };
        law_stream_yields_exactly_its_length(rest);
        let all = chunks_of(s);
        assert(all.drop_first() =~= chunks_of(rest));
        let b = s.block as int;
        if s.remaining < s.block {
            assert((s.remaining + b - 1) / b == 1) by (nonlinear_arith)
                requires
                    0 < s.remaining < b,
            ;
            assert((0 + b - 1) / b == 0) by (nonlinear_arith)
                requires
                    b > 0,
            ;
        } else {
            assert((s.remaining + b - 1) / b == (s.remaining - b + b - 1) / b + 1)
                by (nonlinear_arith)
                requires
                    b > 0,
            ;
        }
    } else {
        let b = s.block as int;
        assert((0 + b - 1) / b == 0) by (nonlinear_arith)
            requires
                b > 0,
        ;
    }
}

} // verus!
