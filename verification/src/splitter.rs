//! Cutting a byte stream, read block by block, into chunks that end on a
//! record boundary.

use crate::error::Error;
use vstd::prelude::*;

verus! {

/// The byte that ends a record.
pub const NEWLINE: u8 = 10;

/// The bytes a chunk is made of: the first `leftover_size` bytes of
/// `leftover`, then the first `buf_pos` bytes of `buf`.
pub fn create_chunk(buf: &[u8], buf_pos: usize, leftover: &[u8], leftover_size: usize) -> (chunk:
    Vec<u8>)
    requires
        buf_pos <= buf@.len(),
        leftover_size <= leftover@.len(),
    ensures
        chunk@ == leftover@.take(leftover_size as int) + buf@.take(buf_pos as int),
{
    let mut chunk: Vec<u8> = Vec::with_capacity(leftover_size.saturating_add(buf_pos));
    let mut i: usize = 0;
    while i < leftover_size
        invariant
            i <= leftover_size <= leftover@.len(),
            chunk@ == leftover@.take(i as int),
        decreases leftover_size - i,
    {
        chunk.push(leftover[i]);
        i += 1;
    }
    let mut j: usize = 0;
    while j < buf_pos
        invariant
            j <= buf_pos <= buf@.len(),
            chunk@ == leftover@.take(leftover_size as int) + buf@.take(j as int),
        decreases buf_pos - j,
    {
        chunk.push(buf[j]);
        j += 1;
    }
    chunk
}

/// Whether `pos` is where the last newline among the first `read` bytes of
/// `buf` stands.
pub open spec fn is_last_newline(buf: Seq<u8>, read: int, pos: int) -> bool {
    &&& 0 <= pos < read
    &&& buf[pos] == NEWLINE
    &&& forall|j: int| pos < j < read ==> buf[j] != NEWLINE
}

/// The position of the last newline among the first `read` bytes of `buf`,
/// found by scanning backwards from the end.
pub fn find_last_newline_pos(buf: &[u8], read: usize) -> (found: Option<usize>)
    requires
        read <= buf@.len(),
    ensures
        match found {
            Some(pos) => is_last_newline(buf@, read as int, pos as int),
            None => forall|j: int| 0 <= j < read ==> buf@[j] != NEWLINE,
        },
{
    let mut end: usize = read;
    while end > 0
        invariant
            end <= read <= buf@.len(),
            forall|j: int| end <= j < read ==> buf@[j] != NEWLINE,
        decreases end,
    {
        if buf[end - 1] == NEWLINE {
            return Some(end - 1);
        }
        end -= 1;
    }
    None
}

/// Keeps what follows the newline at `last_newline_pos` in `buf`: copies it
/// to the front of `leftover` and returns how many bytes that is.
pub fn copy_leftover(leftover: &mut [u8], buf: &[u8], last_newline_pos: usize) -> (leftover_size:
    usize)
    requires
        last_newline_pos < buf@.len(),
        buf@.len() - last_newline_pos - 1 <= old(leftover)@.len(),
    ensures
        leftover_size == buf@.len() - last_newline_pos - 1,
        final(leftover)@.len() == old(leftover)@.len(),
        final(leftover)@.take(leftover_size as int) == buf@.skip(last_newline_pos + 1),
        final(leftover)@.skip(leftover_size as int) == old(leftover)@.skip(leftover_size as int),
{
    let len: usize = buf.len();
    let leftover_start: usize = last_newline_pos + 1;
    let leftover_size: usize = len - leftover_start;
    let mut i: usize = 0;
    while i < leftover_size
        invariant
            i <= leftover_size,
            len == buf@.len(),
            leftover_start + leftover_size == len,
            leftover@.len() == old(leftover)@.len(),
            leftover_size <= leftover@.len(),
            forall|k: int| 0 <= k < i ==> leftover@[k] == buf@[leftover_start + k],
            forall|k: int| i <= k < leftover@.len() ==> leftover@[k] == old(leftover)@[k],
        decreases leftover_size - i,
    {
        leftover[i] = buf[leftover_start + i];
        i += 1;
    }
    assert(leftover@.take(leftover_size as int) =~= buf@.skip(last_newline_pos + 1));
    assert(leftover@.skip(leftover_size as int) =~= old(leftover)@.skip(leftover_size as int));
    leftover_size
}

/// Where the last newline of `block` stands. Meaningful when `block` holds
/// one.
pub open spec fn last_newline(block: Seq<u8>) -> int {
    choose|pos: int| is_last_newline(block, block.len() as int, pos)
}

/// What one block does to a splitter that holds `pending`: the chunk that
/// leaves, and the bytes kept for the next block. A block shorter than
/// `block_size` is the last one and leaves whole, behind what was kept. A
/// full block is cut behind its last newline; without a newline it cannot
/// be cut, and the result is `None`.
pub open spec fn cut(pending: Seq<u8>, block: Seq<u8>, block_size: nat) -> Option<
    (Seq<u8>, Seq<u8>),
> {
    if block.len() < block_size {
        Some((pending + block, Seq::empty()))
    } else if !block.contains(NEWLINE) {
        None
    } else {
        let pos = last_newline(block);
        Some((pending + block.take(pos + 1), block.skip(pos + 1)))
    }
}

/// Cuts a stream that arrives in blocks of up to `block_size` bytes into
/// chunks, keeping the tail of each full block for the chunk that follows.
pub struct Splitter {
    block_size: usize,
    leftover: Vec<u8>,
    leftover_size: usize,
}

impl Splitter {
    /// The buffer for kept bytes has the size of a block, and what is kept
    /// lies within it.
    pub closed spec fn wf(&self) -> bool {
        &&& self.leftover@.len() == self.block_size
        &&& self.leftover_size <= self.block_size
    }

    /// The size of a full block.
    pub closed spec fn block_size(&self) -> nat {
        self.block_size as nat
    }

    /// The bytes kept back from the blocks seen so far.
    pub closed spec fn pending(&self) -> Seq<u8> {
        self.leftover@.take(self.leftover_size as int)
    }

    /// A splitter for blocks of `block_size` bytes that holds nothing yet.
    pub fn new(block_size: usize) -> (splitter: Self)
        ensures
            splitter.wf(),
            splitter.block_size() == block_size,
            splitter.pending() =~= Seq::empty(),
    {
        Splitter { block_size, leftover: vec![0u8; block_size], leftover_size: 0 }
    }

    /// The size of a full block.
    pub fn block_len(&self) -> (len: usize)
        ensures
            len == self.block_size(),
    {
        self.block_size
    }

    /// Takes the next block read from the source and hands out the chunk
    /// it completes. A block shorter than the block size ends the stream.
    pub fn next_chunk(&mut self, block: &[u8]) -> (r: Result<Vec<u8>, Error>)
        requires
            old(self).wf(),
            block@.len() <= old(self).block_size(),
        ensures
            final(self).wf(),
            final(self).block_size() == old(self).block_size(),
            match cut(old(self).pending(), block@, old(self).block_size()) {
                Some((chunk, rest)) => r matches Ok(c) && c@ == chunk && final(self).pending()
                    == rest,
                None => r matches Err(e) && e == Error::OversizedRecord && final(self).pending()
                    == old(self).pending(),
            },
    {
        let read: usize = block.len();
        if read < self.block_size {
            let chunk = create_chunk(block, read, self.leftover.as_slice(), self.leftover_size);
            self.leftover_size = 0;
            assert(block@.take(read as int) =~= block@);
            assert(self.pending() =~= Seq::empty());
            return Ok(chunk);
        }
        match find_last_newline_pos(block, read) {
            None => {
                assert(!block@.contains(NEWLINE));
                Err(Error::OversizedRecord)
            },
            Some(pos) => {
                assert(block@[pos as int] == NEWLINE);
                assert(block@.contains(NEWLINE));
                proof {
                    let chosen = last_newline(block@);
                    assert(is_last_newline(block@, block@.len() as int, pos as int));
                    assert(is_last_newline(block@, block@.len() as int, chosen));
                    assert(chosen == pos);
                }
                let chunk = create_chunk(block, pos + 1, self.leftover.as_slice(), self.leftover_size);
                let kept = copy_leftover(self.leftover.as_mut_slice(), block, pos);
                self.leftover_size = kept;
                Ok(chunk)
            },
        }
    }
}

/// The chunks that leave a splitter which holds `pending` and then reads
/// `input` to its end in blocks of `block_size` bytes; the read that ends
/// the stream is the first that brings less than a full block. `None`
/// where a full block holds no newline.
pub open spec fn split_from(pending: Seq<u8>, input: Seq<u8>, block_size: nat) -> Option<
    Seq<Seq<u8>>,
>
    decreases input.len(),
{
    if input.len() < block_size {
        Some(seq![pending + input])
    } else if block_size == 0 {
        None
    } else {
        match cut(pending, input.take(block_size as int), block_size) {
            None => None,
            Some((chunk, rest)) => match split_from(rest, input.skip(block_size as int), block_size) {
                None => None,
                Some(chunks) => Some(seq![chunk] + chunks),
            },
        }
    }
}

/// The chunks into which a fresh splitter cuts `input`.
pub open spec fn split(input: Seq<u8>, block_size: nat) -> Option<Seq<Seq<u8>>> {
    split_from(Seq::empty(), input, block_size)
}

/// Whether bytes end where a record ends: there are none, or the last is a
/// newline.
pub open spec fn is_aligned(bytes: Seq<u8>) -> bool {
    bytes.len() == 0 || bytes.last() == NEWLINE
}

/// A cut loses no byte and adds none: the chunk and what is kept are what
/// was held and the block. The chunk cut from a full block ends on a
/// newline, and what is kept holds none.
pub proof fn lemma_cut(pending: Seq<u8>, block: Seq<u8>, block_size: nat)
    requires
        cut(pending, block, block_size) is Some,
    ensures
        ({
            let (chunk, rest) = cut(pending, block, block_size)->Some_0;
            &&& chunk + rest == pending + block
            &&& block.len() >= block_size ==> chunk.len() > 0 && chunk.last() == NEWLINE
            &&& !rest.contains(NEWLINE)
        }),
{
    let (chunk, rest) = cut(pending, block, block_size)->Some_0;
    if block.len() < block_size {
        assert(chunk + rest =~= pending + block);
    } else {
        lemma_last_newline_exists(block, block.len() as int);
        let pos = last_newline(block);
        assert(is_last_newline(block, block.len() as int, pos));
        assert(chunk + rest =~= pending + block);
        assert(chunk.last() == block[pos]);
        if rest.contains(NEWLINE) {
            let i = choose|i: int| 0 <= i < rest.len() && rest[i] == NEWLINE;
            assert(block[pos + 1 + i] == NEWLINE);
        }
    }
}

/// Among bytes that hold a newline, one newline is the last.
pub proof fn lemma_last_newline_exists(buf: Seq<u8>, read: int)
    requires
        0 <= read <= buf.len(),
        exists|i: int| 0 <= i < read && buf[i] == NEWLINE,
    ensures
        exists|pos: int| is_last_newline(buf, read, pos),
    decreases read,
{
    if buf[read - 1] == NEWLINE {
        assert(is_last_newline(buf, read, read - 1));
    } else {
        let i = choose|i: int| 0 <= i < read && buf[i] == NEWLINE;
        let shorter = read - 1;
        assert(0 <= i < shorter && buf[i] == NEWLINE);
        lemma_last_newline_exists(buf, shorter);
        let pos = choose|pos: int| is_last_newline(buf, shorter, pos);
        assert(is_last_newline(buf, read, pos));
    }
}

/// The chunks, one behind the other in the order in which they leave, are
/// the bytes that were held and the bytes that were read, each once and in
/// place.
pub proof fn lemma_split_from_reconstructs(pending: Seq<u8>, input: Seq<u8>, block_size: nat)
    requires
        split_from(pending, input, block_size) is Some,
    ensures
        split_from(pending, input, block_size)->Some_0.flatten() == pending + input,
    decreases input.len(),
{
    let chunks = split_from(pending, input, block_size)->Some_0;
    if input.len() < block_size {
        chunks.lemma_flatten_one_element();
    } else {
        let block = input.take(block_size as int);
        let later = input.skip(block_size as int);
        let (chunk, rest) = cut(pending, block, block_size)->Some_0;
        let tail = split_from(rest, later, block_size)->Some_0;
        lemma_cut(pending, block, block_size);
        lemma_split_from_reconstructs(rest, later, block_size);
        assert(chunks.drop_first() =~= tail);
        assert(chunks.first() == chunk);
        assert(chunks.flatten() == chunk + tail.flatten());
        assert(input =~= block + later);
        assert(chunk + (rest + later) =~= (chunk + rest) + later);
        assert((pending + block) + later =~= pending + input);
    }
}

/// The chunks into which a stream is cut, one behind the other in the
/// order in which they leave, are the stream, byte for byte.
pub proof fn lemma_split_reconstructs(input: Seq<u8>, block_size: nat)
    requires
        split(input, block_size) is Some,
    ensures
        split(input, block_size)->Some_0.flatten() == input,
{
    lemma_split_from_reconstructs(Seq::empty(), input, block_size);
    assert(Seq::<u8>::empty() + input =~= input);
}

/// Every chunk but the last ends on a newline, and there is a last one.
pub proof fn lemma_split_from_aligned(pending: Seq<u8>, input: Seq<u8>, block_size: nat)
    requires
        split_from(pending, input, block_size) is Some,
    ensures
        split_from(pending, input, block_size)->Some_0.len() >= 1,
        forall|i: int|
            0 <= i < split_from(pending, input, block_size)->Some_0.len() - 1 ==> {
                let chunk = #[trigger] split_from(pending, input, block_size)->Some_0[i];
                chunk.len() > 0 && chunk.last() == NEWLINE
            },
    decreases input.len(),
{
    let chunks = split_from(pending, input, block_size)->Some_0;
    if input.len() >= block_size {
        let block = input.take(block_size as int);
        let later = input.skip(block_size as int);
        let (chunk, rest) = cut(pending, block, block_size)->Some_0;
        let tail = split_from(rest, later, block_size)->Some_0;
        lemma_cut(pending, block, block_size);
        lemma_split_from_aligned(rest, later, block_size);
        assert forall|i: int| 0 <= i < chunks.len() - 1 implies {
            let c = #[trigger] chunks[i];
            c.len() > 0 && c.last() == NEWLINE
        } by {
            if i > 0 {
                assert(chunks[i] == tail[i - 1]);
            }
        }
    }
}

} // verus!
