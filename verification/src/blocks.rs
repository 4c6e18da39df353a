//! Blocks: the layout of a file as byte ranges of one length, the digest of
//! one range, and the digest that the ordered block digests combine to.

use crate::digest::{sha256_hex, Sha256Stream};
use crate::error::HushError;
use vstd::prelude::*;
use vstd::slice::slice_subrange;

verus! {

/// One byte range `[inicio_bloco, fim_bloco)` of a file, its position among
/// the file's blocks, and its digest once that is computed.
#[derive(Debug, Clone)]
pub struct ChunkBloco {
    pub n_bloco: u64,
    pub inicio_bloco: u64,
    pub fim_bloco: u64,
    pub hash_bloco: String,
}

/// How many blocks of length `len` a file of `size` bytes has.
pub open spec fn block_count(size: nat, len: nat) -> nat
    recommends
        len > 0,
{
    if size % len == 0 {
        size / len
    } else {
        size / len + 1
    }
}

/// Where block `i` starts.
pub open spec fn block_start(i: nat, len: nat) -> nat {
    i * len
}

/// Where block `i` ends: one block length behind its start, or at the end of
/// the file if that comes first.
pub open spec fn block_end(i: nat, size: nat, len: nat) -> nat {
    if (i + 1) * len <= size {
        (i + 1) * len
    } else {
        size
    }
}

/// The blocks are numbered from 0, none is empty, the first starts at 0,
/// each starts where the one before ends, and the last ends at `size`.
pub open spec fn is_partition(blocks: Seq<ChunkBloco>, size: nat) -> bool {
    &&& (blocks.len() == 0 <==> size == 0)
    &&& forall|i: int|
        0 <= i < blocks.len() ==> (#[trigger] blocks[i]).n_bloco == i && blocks[i].inicio_bloco
            < blocks[i].fim_bloco
    &&& blocks.len() > 0 ==> blocks[0].inicio_bloco == 0 && blocks.last().fim_bloco == size
    &&& forall|i: int|
        0 <= i < blocks.len() - 1 ==> (#[trigger] blocks[i]).fim_bloco == blocks[i
            + 1].inicio_bloco
}

/// The lengths of the blocks, added up.
pub open spec fn total_length(blocks: Seq<ChunkBloco>) -> int
    decreases blocks.len(),
{
    if blocks.len() == 0 {
        0
    } else {
        total_length(blocks.drop_last()) + (blocks.last().fim_bloco - blocks.last().inicio_bloco)
    }
}

/// Block `i` of the layout of `size` bytes in blocks of `len`.
pub open spec fn is_planned_block(b: ChunkBloco, i: nat, size: nat, len: nat) -> bool {
    &&& b.n_bloco == i
    &&& b.inicio_bloco == block_start(i, len)
    &&& b.fim_bloco == block_end(i, size, len)
    &&& b.hash_bloco@ == Seq::<char>::empty()
}

proof fn lemma_count_is(size: nat, len: nat, n: nat)
    requires
        len > 0,
        n * len >= size,
        n > 0 ==> (n - 1) * len < size,
    ensures
        n == block_count(size, len),
{
    let q = size / len;
    let r = size % len;
    assert(size == q * len + r && 0 <= r < len) by (nonlinear_arith)
        requires
            q == size / len,
            r == size % len,
            len > 0,
    ;
    if r == 0 {
        assert(n == q) by (nonlinear_arith)
            requires
                n * len >= q * len,
                n > 0 ==> (n - 1) * len < q * len,
                len > 0,
        ;
    } else {
        assert(n == q + 1) by (nonlinear_arith)
            requires
                n * len >= q * len + r,
                n > 0 ==> (n - 1) * len < q * len + r,
                0 < r < len,
        ;
    }
}

/// Contiguous blocks from 0 add up to where the last one ends.
pub proof fn lemma_contiguous_total(blocks: Seq<ChunkBloco>)
    requires
        blocks.len() > 0,
        blocks[0].inicio_bloco == 0,
        forall|i: int|
            0 <= i < blocks.len() - 1 ==> (#[trigger] blocks[i]).fim_bloco == blocks[i
                + 1].inicio_bloco,
    ensures
        total_length(blocks) == blocks.last().fim_bloco,
    decreases blocks.len(),
{
    let init = blocks.drop_last();
    if init.len() == 0 {
        assert(total_length(init) == 0);
    } else {
        assert(init[0] == blocks[0]);
        assert forall|i: int| 0 <= i < init.len() - 1 implies (#[trigger] init[i]).fim_bloco
            == init[i + 1].inicio_bloco by {
            assert(init[i] == blocks[i]);
            assert(init[i + 1] == blocks[i + 1]);
        }
        lemma_contiguous_total(init);
        assert(init.last() == blocks[blocks.len() - 2]);
    }
}

/// A partition of `size` bytes has `size` bytes in all.
pub proof fn lemma_partition_total(blocks: Seq<ChunkBloco>, size: nat)
    requires
        is_partition(blocks, size),
    ensures
        total_length(blocks) == size,
{
    if blocks.len() > 0 {
        lemma_contiguous_total(blocks);
    }
}

/// In a partition the blocks are in ascending order of their ranges.
pub proof fn lemma_partition_ascending(blocks: Seq<ChunkBloco>, size: nat, i: int, j: int)
    requires
        is_partition(blocks, size),
        0 <= i < j < blocks.len(),
    ensures
        blocks[i].fim_bloco <= blocks[j].inicio_bloco,
    decreases j - i,
{
    if i + 1 < j {
        lemma_partition_ascending(blocks, size, i, j - 1);
        assert(blocks[j - 1].fim_bloco == blocks[j].inicio_bloco);
        assert(blocks[j - 1].inicio_bloco < blocks[j - 1].fim_bloco);
    } else {
        assert(blocks[i].fim_bloco == blocks[i + 1].inicio_bloco);
    }
}

/// Every byte offset of the file lies in one block of a partition, and in no
/// other.
pub proof fn lemma_partition_covers_once(blocks: Seq<ChunkBloco>, size: nat, offset: nat)
    requires
        is_partition(blocks, size),
        offset < size,
    ensures
        exists|i: int|
            0 <= i < blocks.len() && (#[trigger] blocks[i]).inicio_bloco <= offset
                < blocks[i].fim_bloco,
        forall|i: int, j: int|
            0 <= i < blocks.len() && 0 <= j < blocks.len() && (#[trigger] blocks[i]).inicio_bloco
                <= offset < blocks[i].fim_bloco && (#[trigger] blocks[j]).inicio_bloco <= offset
                < blocks[j].fim_bloco ==> i == j,
{
    lemma_covering_block(blocks, size, offset, blocks.len() as int);
    assert forall|i: int, j: int|
        0 <= i < blocks.len() && 0 <= j < blocks.len() && (#[trigger] blocks[i]).inicio_bloco
            <= offset < blocks[i].fim_bloco && (#[trigger] blocks[j]).inicio_bloco <= offset
            < blocks[j].fim_bloco implies i == j by {
        if i < j {
            lemma_partition_ascending(blocks, size, i, j);
        } else if j < i {
            lemma_partition_ascending(blocks, size, j, i);
        }
    }
}

proof fn lemma_covering_block(blocks: Seq<ChunkBloco>, size: nat, offset: nat, k: int)
    requires
        is_partition(blocks, size),
        0 < k <= blocks.len(),
        offset < blocks[k - 1].fim_bloco,
    ensures
        exists|i: int|
            0 <= i < blocks.len() && (#[trigger] blocks[i]).inicio_bloco <= offset
                < blocks[i].fim_bloco,
    decreases k,
{
    if blocks[k - 1].inicio_bloco <= offset {
        assert(blocks[k - 1].inicio_bloco <= offset < blocks[k - 1].fim_bloco);
    } else {
        assert(k > 1);
        assert(blocks[k - 2].fim_bloco == blocks[k - 1].inicio_bloco);
        lemma_covering_block(blocks, size, offset, k - 1);
    }
}

/// Lays a file of `file_size` bytes out in blocks of `chunk_size` bytes, the
/// last one shorter where the size is no multiple of the block length.
pub fn calcular_blocos(file_size: u64, chunk_size: u64) -> (blocos: Vec<ChunkBloco>)
    requires
        chunk_size > 0,
    ensures
        blocos@.len() == block_count(file_size as nat, chunk_size as nat),
        forall|i: int|
            0 <= i < blocos@.len() ==> is_planned_block(
                #[trigger] blocos@[i],
                i as nat,
                file_size as nat,
                chunk_size as nat,
            ),
        is_partition(blocos@, file_size as nat),
        total_length(blocos@) == file_size,
{
    let mut blocos: Vec<ChunkBloco> = Vec::new();
    let mut inicio_bloco: u64 = 0;
    let mut n_bloco: u64 = 0;
    let ghost size = file_size as nat;
    let ghost len = chunk_size as nat;
    while inicio_bloco < file_size
        invariant
            chunk_size > 0,
            size == file_size,
            len == chunk_size,
            inicio_bloco <= file_size,
            n_bloco == blocos@.len(),
            n_bloco * len >= size ==> inicio_bloco == size,
            n_bloco * len < size ==> inicio_bloco == n_bloco * len,
            n_bloco > 0 ==> (n_bloco - 1) * len < size,
            forall|i: int|
                0 <= i < blocos@.len() ==> is_planned_block(#[trigger] blocos@[i], i as nat, size, len),
        decreases file_size - inicio_bloco,
    {
        assert(n_bloco * len < size);
        assert((n_bloco + 1) * len == n_bloco * len + len) by (nonlinear_arith);
        assert(n_bloco <= n_bloco * len) by (nonlinear_arith)
            requires
                len >= 1,
                n_bloco >= 0,
        ;
        let fim_bloco: u64 = if file_size - inicio_bloco <= chunk_size {
            file_size
        } else {
            inicio_bloco + chunk_size
        };
        assert(fim_bloco == block_end(n_bloco as nat, size, len));
        blocos.push(
            ChunkBloco { n_bloco, inicio_bloco, fim_bloco, hash_bloco: String::new() },
        );
        inicio_bloco = fim_bloco;
        n_bloco += 1;
    }
    proof {
        assert(n_bloco * len >= size);
        lemma_count_is(size, len, n_bloco as nat);
        lemma_planned_blocks_partition(blocos@, size, len);
        lemma_partition_total(blocos@, size);
    }
    blocos
}

/// The planned layout is a partition of the file.
pub proof fn lemma_planned_blocks_partition(blocks: Seq<ChunkBloco>, size: nat, len: nat)
    requires
        len > 0,
        blocks.len() == block_count(size, len),
        forall|i: int|
            0 <= i < blocks.len() ==> is_planned_block(#[trigger] blocks[i], i as nat, size, len),
    ensures
        is_partition(blocks, size),
{
    let n = blocks.len();
    let q = size / len;
    let r = size % len;
    assert(size == q * len + r && 0 <= r < len) by (nonlinear_arith)
        requires
            q == size / len,
            r == size % len,
            len > 0,
    ;
    assert(n == 0 <==> size == 0) by (nonlinear_arith)
        requires
            size == q * len + r,
            0 <= r < len,
            n == (if r == 0 {
                q
            } else {
                q + 1
            }),
    ;
    assert forall|i: int| 0 <= i < n implies (#[trigger] blocks[i]).n_bloco == i
        && blocks[i].inicio_bloco < blocks[i].fim_bloco by {
        assert(is_planned_block(blocks[i], i as nat, size, len));
        assert(i * len < size && i * len < (i + 1) * len) by (nonlinear_arith)
            requires
                0 <= i < n,
                size == q * len + r,
                0 <= r < len,
                n == (if r == 0 {
                    q
                } else {
                    q + 1
                }),
        ;
    }
    if n > 0 {
        assert(is_planned_block(blocks[0], 0, size, len));
        assert(is_planned_block(blocks[n - 1], (n - 1) as nat, size, len));
        assert(0 * len == 0) by (nonlinear_arith);
        assert(n * len >= size) by (nonlinear_arith)
            requires
                size == q * len + r,
                0 <= r < len,
                n == (if r == 0 {
                    q
                } else {
                    q + 1
                }),
        ;
    }
    assert forall|i: int| 0 <= i < n - 1 implies (#[trigger] blocks[i]).fim_bloco == blocks[i
        + 1].inicio_bloco by {
        assert(is_planned_block(blocks[i], i as nat, size, len));
        assert(is_planned_block(blocks[i + 1], (i + 1) as nat, size, len));
        assert((i + 1) * len <= size) by (nonlinear_arith)
            requires
                0 <= i < n - 1,
                size == q * len + r,
                0 <= r < len,
                n == (if r == 0 {
                    q
                } else {
                    q + 1
                }),
        ;
    }
}

/// Every block of the layout has the block length, but for the last one of a
/// file whose size is no multiple of it: that one has what is left over.
pub proof fn lemma_block_lengths(size: nat, len: nat, i: nat)
    requires
        len > 0,
        i < block_count(size, len),
    ensures
        block_end(i, size, len) - block_start(i, len) == if i + 1 < block_count(size, len) || size
            % len == 0 {
            len
        } else {
            size % len
        },
{
    let q = size / len;
    let r = size % len;
    assert(size == q * len + r && 0 <= r < len) by (nonlinear_arith)
        requires
            q == size / len,
            r == size % len,
            len > 0,
    ;
    assert((i + 1) * len == i * len + len) by (nonlinear_arith);
    if i + 1 < block_count(size, len) || r == 0 {
        assert((i + 1) * len <= size) by (nonlinear_arith)
            requires
                i + 1 <= q,
                size == q * len + r,
                0 <= r,
                len > 0,
        ;
    } else {
        assert(i == q);
        assert(i * len + r == size);
        assert((i + 1) * len > size);
    }
}

/// A block as contracts speak of it: its numbers, and its digest as text.
pub struct BlockView {
    pub n_bloco: u64,
    pub inicio_bloco: u64,
    pub fim_bloco: u64,
    pub hash_bloco: Seq<char>,
}

impl View for ChunkBloco {
    type V = BlockView;

    open spec fn view(&self) -> BlockView {
        BlockView {
            n_bloco: self.n_bloco,
            inicio_bloco: self.inicio_bloco,
            fim_bloco: self.fim_bloco,
            hash_bloco: self.hash_bloco@,
        }
    }
}

pub open spec fn block_views(blocks: Seq<ChunkBloco>) -> Seq<BlockView> {
    Seq::new(blocks.len(), |i: int| blocks[i]@)
}

/// How many bytes to ask for next: what is left of the block, but no more
/// than the buffer holds. A buffer of no bytes counts as one of one byte.
pub open spec fn chunk_len(buffer_size: nat, remaining: nat) -> nat {
    let room = if buffer_size == 0 {
        1
    } else {
        buffer_size
    };
    if remaining <= room {
        remaining
    } else {
        room
    }
}

/// The digest of one block while its bytes arrive piece by piece.
pub struct BlockStream {
    bloco: ChunkBloco,
    hasher: Sha256Stream,
    remaining: u64,
}

impl BlockStream {
    /// The block that is being hashed.
    pub closed spec fn block(&self) -> BlockView {
        self.bloco@
    }

    /// The bytes taken in so far.
    pub closed spec fn fed(&self) -> Seq<u8> {
        self.hasher@
    }

    /// How many bytes of the block are still to come.
    pub closed spec fn remaining(&self) -> nat {
        self.remaining as nat
    }

    /// The bytes taken in and those still to come are the bytes of the
    /// block.
    pub open spec fn wf(&self) -> bool {
        &&& self.block().inicio_bloco <= self.block().fim_bloco
        &&& self.fed().len() + self.remaining() == self.block().fim_bloco
            - self.block().inicio_bloco
    }

    /// Starts on `bloco`: nothing is taken in, and the whole range is to
    /// come. `None` for a block that ends before it starts.
    pub fn begin(bloco: ChunkBloco) -> (r: Option<Self>)
        ensures
            r is Some <==> bloco.inicio_bloco <= bloco.fim_bloco,
            r is Some ==> r->Some_0.wf() && r->Some_0.block() == bloco@ && r->Some_0.fed()
                == Seq::<u8>::empty(),
    {
        if bloco.inicio_bloco <= bloco.fim_bloco {
            let remaining = bloco.fim_bloco - bloco.inicio_bloco;
            Some(BlockStream { bloco, hasher: Sha256Stream::new(), remaining })
        } else {
            None
        }
    }

    /// How many bytes the next read should ask for; 0 when the block is
    /// complete.
    pub fn next_read(&self, buffer_size: usize) -> (n: usize)
        ensures
            n == chunk_len(buffer_size as nat, self.remaining()),
    {
        let room: usize = if buffer_size == 0 {
            1
        } else {
            buffer_size
        };
        if self.remaining <= room as u64 {
            self.remaining as usize
        } else {
            room
        }
    }

    /// Takes in the bytes that a read returned.
    pub fn feed(&mut self, chunk: &[u8])
        requires
            old(self).wf(),
            chunk@.len() <= old(self).remaining(),
        ensures
            final(self).wf(),
            final(self).block() == old(self).block(),
            final(self).fed() == old(self).fed() + chunk@,
            final(self).remaining() == old(self).remaining() - chunk@.len(),
    {
        self.hasher.feed(chunk);
        self.remaining = self.remaining - chunk.len() as u64;
    }

    /// Ends the block, once all its bytes are taken in: the block with the
    /// digest of those bytes. `None` while bytes are still to come.
    pub fn finish(self) -> (r: Option<ChunkBloco>)
        requires
            self.wf(),
        ensures
            r is Some <==> self.remaining() == 0,
            r is Some ==> r->Some_0.n_bloco == self.block().n_bloco,
            r is Some ==> r->Some_0.inicio_bloco == self.block().inicio_bloco,
            r is Some ==> r->Some_0.fim_bloco == self.block().fim_bloco,
            r is Some ==> r->Some_0.hash_bloco@ == sha256_hex(self.fed()),
            r is Some ==> self.fed().len() == self.block().fim_bloco - self.block().inicio_bloco,
            r is Some ==> r->Some_0.hash_bloco@.len() == 64,
    {
        if self.remaining != 0 {
            return None;
        }
        Some(
            ChunkBloco {
                n_bloco: self.bloco.n_bloco,
                inicio_bloco: self.bloco.inicio_bloco,
                fim_bloco: self.bloco.fim_bloco,
                hash_bloco: self.hasher.finish(),
            },
        )
    }
}

/// The digest of the bytes of `data` in the range of `bloco`, which lies
/// within `data`, taken in pieces of at most `buffer_size` bytes.
pub fn hash_range(data: &[u8], bloco: ChunkBloco, buffer_size: usize) -> (r: ChunkBloco)
    requires
        bloco.inicio_bloco <= bloco.fim_bloco <= data@.len(),
    ensures
        r.n_bloco == bloco.n_bloco,
        r.inicio_bloco == bloco.inicio_bloco,
        r.fim_bloco == bloco.fim_bloco,
        r.hash_bloco@ == sha256_hex(
            data@.subrange(bloco.inicio_bloco as int, bloco.fim_bloco as int),
        ),
        r.hash_bloco@.len() == 64,
{
    let len: usize = data.len();
    assert(bloco.fim_bloco <= len);
    let start: usize = bloco.inicio_bloco as usize;
    let end: usize = bloco.fim_bloco as usize;
    let mut stream = BlockStream::begin(bloco).unwrap();
    let mut pos: usize = start;
    assert(data@.subrange(start as int, start as int) == Seq::<u8>::empty());
    while pos < end
        invariant
            start <= pos <= end <= data@.len(),
            stream.wf(),
            stream.block() == bloco@,
            start == bloco.inicio_bloco,
            end == bloco.fim_bloco,
            stream.fed() == data@.subrange(start as int, pos as int),
        decreases end - pos,
    {
        let want = stream.next_read(buffer_size);
        let ghost before = stream.fed();
        stream.feed(slice_subrange(data, pos, pos + want));
        assert(before + data@.subrange(pos as int, pos + want) == data@.subrange(
            start as int,
            pos + want,
        ));
        pos += want;
    }
    stream.finish().unwrap()
}

/// Computes the digest of the bytes of `data` in the range of `bloco`, taking
/// them in pieces of at most `buffer_size` bytes.
///
/// Fails with `IoFailure` where `data` does not hold the whole range: the
/// block ends behind the end of `data`, or before its own start.
pub fn calcular_hash_bloco(data: &[u8], bloco: ChunkBloco, buffer_size: usize) -> (r: Result<
    ChunkBloco,
    HushError,
>)
    ensures
        r is Ok <==> bloco.inicio_bloco <= bloco.fim_bloco <= data@.len(),
        r is Ok ==> r->Ok_0.n_bloco == bloco.n_bloco,
        r is Ok ==> r->Ok_0.inicio_bloco == bloco.inicio_bloco,
        r is Ok ==> r->Ok_0.fim_bloco == bloco.fim_bloco,
        r is Ok ==> r->Ok_0.hash_bloco@ == sha256_hex(
            data@.subrange(bloco.inicio_bloco as int, bloco.fim_bloco as int),
        ),
        r is Ok ==> r->Ok_0.hash_bloco@.len() == 64,
        r is Err ==> r->Err_0 == HushError::IoFailure,
{
    if bloco.inicio_bloco <= bloco.fim_bloco && bloco.fim_bloco <= data.len() as u64 {
        Ok(hash_range(data, bloco, buffer_size))
    } else {
        Err(HushError::IoFailure)
    }
}

/// Ascending order of block numbers.
pub open spec fn is_sorted(blocks: Seq<BlockView>) -> bool {
    forall|i: int, j: int|
        0 <= i < j < blocks.len() ==> (#[trigger] blocks[i]).n_bloco <= (
        #[trigger] blocks[j]).n_bloco
}

/// No two blocks have one number.
pub open spec fn has_distinct_numbers(blocks: Seq<BlockView>) -> bool {
    forall|i: int, j: int|
        0 <= i < j < blocks.len() ==> (#[trigger] blocks[i]).n_bloco != (
        #[trigger] blocks[j]).n_bloco
}

/// Where a block numbered `key` goes into `sorted`: behind the last block
/// whose number is not greater.
pub open spec fn insertion_point(sorted: Seq<BlockView>, key: u64) -> int
    decreases sorted.len(),
{
    if sorted.len() == 0 || sorted.last().n_bloco <= key {
        sorted.len() as int
    } else {
        insertion_point(sorted.drop_last(), key)
    }
}

/// The blocks in ascending order of their numbers; blocks with one number
/// keep the order in which they came.
pub open spec fn sorted_by_index(blocks: Seq<BlockView>) -> Seq<BlockView>
    decreases blocks.len(),
{
    if blocks.len() == 0 {
        blocks
    } else {
        let head = sorted_by_index(blocks.drop_last());
        head.insert(insertion_point(head, blocks.last().n_bloco), blocks.last())
    }
}

pub proof fn lemma_insertion_point(sorted: Seq<BlockView>, key: u64)
    requires
        is_sorted(sorted),
    ensures
        0 <= insertion_point(sorted, key) <= sorted.len(),
        forall|i: int|
            0 <= i < insertion_point(sorted, key) ==> (#[trigger] sorted[i]).n_bloco <= key,
        forall|i: int|
            insertion_point(sorted, key) <= i < sorted.len() ==> (#[trigger] sorted[i]).n_bloco
                > key,
    decreases sorted.len(),
{
    if sorted.len() == 0 || sorted.last().n_bloco <= key {
        assert forall|i: int| 0 <= i < sorted.len() implies (#[trigger] sorted[i]).n_bloco
            <= key by {
            if i < sorted.len() - 1 {
                assert(sorted[i].n_bloco <= sorted[sorted.len() - 1].n_bloco);
            }
        }
    } else {
        let init = sorted.drop_last();
        assert forall|i: int, j: int| 0 <= i < j < init.len() implies (#[trigger] init[i]).n_bloco
            <= (#[trigger] init[j]).n_bloco by {
            assert(init[i] == sorted[i] && init[j] == sorted[j]);
        }
        lemma_insertion_point(init, key);
        let p = insertion_point(init, key);
        assert forall|i: int| 0 <= i < p implies (#[trigger] sorted[i]).n_bloco <= key by {
            assert(sorted[i] == init[i]);
        }
        assert forall|i: int| p <= i < sorted.len() implies (#[trigger] sorted[i]).n_bloco
            > key by {
            if i < init.len() {
                assert(sorted[i] == init[i]);
            }
        }
    }
}

/// Sorting orders the blocks and neither adds nor loses one.
pub proof fn lemma_sorted_by_index(blocks: Seq<BlockView>)
    ensures
        is_sorted(sorted_by_index(blocks)),
        sorted_by_index(blocks).len() == blocks.len(),
        sorted_by_index(blocks).to_multiset() == blocks.to_multiset(),
    decreases blocks.len(),
{
    broadcast use vstd::seq_lib::group_to_multiset_ensures;

    if blocks.len() == 0 {
    } else {
        let init = blocks.drop_last();
        let b = blocks.last();
        lemma_sorted_by_index(init);
        let head = sorted_by_index(init);
        lemma_insertion_point(head, b.n_bloco);
        let p = insertion_point(head, b.n_bloco);
        let out = head.insert(p, b);
        assert forall|i: int, j: int| 0 <= i < j < out.len() implies (#[trigger] out[i]).n_bloco
            <= (#[trigger] out[j]).n_bloco by {
            if j < p {
                assert(out[i] == head[i] && out[j] == head[j]);
            } else if j == p {
                assert(out[i] == head[i]);
            } else if i < p {
                assert(out[i] == head[i] && out[j] == head[j - 1]);
            } else if i == p {
                assert(out[j] == head[j - 1]);
            } else {
                assert(out[i] == head[i - 1] && out[j] == head[j - 1]);
            }
        }
        assert(blocks =~= init.push(b));
        assert(out.to_multiset() =~= head.to_multiset().insert(b));
        assert(init.push(b).to_multiset() =~= init.to_multiset().insert(b));
    }
}

/// Blocks that are in order already are what sorting returns.
pub proof fn lemma_sorted_is_fixed(blocks: Seq<BlockView>)
    requires
        is_sorted(blocks),
    ensures
        sorted_by_index(blocks) == blocks,
    decreases blocks.len(),
{
    if blocks.len() > 0 {
        let init = blocks.drop_last();
        assert forall|i: int, j: int| 0 <= i < j < init.len() implies (#[trigger] init[i]).n_bloco
            <= (#[trigger] init[j]).n_bloco by {
            assert(init[i] == blocks[i] && init[j] == blocks[j]);
        }
        lemma_sorted_is_fixed(init);
        if init.len() > 0 {
            assert(init.last() == blocks[blocks.len() - 2]);
            assert(blocks[blocks.len() - 2].n_bloco <= blocks[blocks.len() - 1].n_bloco);
        }
        assert(insertion_point(init, blocks.last().n_bloco) == init.len());
        assert(init.insert(init.len() as int, blocks.last()) =~= blocks);
    }
}

/// Sorts blocks into ascending order of their numbers.
pub fn sort_blocks(blocks: Vec<ChunkBloco>) -> (sorted: Vec<ChunkBloco>)
    ensures
        block_views(sorted@) == sorted_by_index(block_views(blocks@)),
        is_sorted(block_views(sorted@)),
        block_views(sorted@).to_multiset() == block_views(blocks@).to_multiset(),
{
    let mut sorted: Vec<ChunkBloco> = Vec::new();
    let ghost all = block_views(blocks@);
    let ghost given = blocks@;
    assert(all.take(0) =~= Seq::<BlockView>::empty());
    assert(block_views(sorted@) =~= Seq::<BlockView>::empty());
    for b in it: blocks
        invariant
            it.seq() == given,
            all == block_views(given),
            block_views(sorted@) == sorted_by_index(all.take(it.index() as int)),
    {
        let ghost done = all.take(it.index() as int);
        let ghost before = block_views(sorted@);
        let mut p: usize = sorted.len();
        assert(before.take(p as int) =~= before);
        while p > 0 && sorted[p - 1].n_bloco > b.n_bloco
            invariant
                p <= sorted.len(),
                before == block_views(sorted@),
                insertion_point(before, b.n_bloco) == insertion_point(
                    before.take(p as int),
                    b.n_bloco,
                ),
            decreases p,
        {
            assert(before.take(p as int).drop_last() =~= before.take(p - 1));
            assert(before.take(p as int).last() == sorted@[p - 1]@);
            p -= 1;
        }
        proof {
            if p > 0 {
                assert(before.take(p as int).last() == sorted@[p - 1]@);
            }
        }
        sorted.insert(p, b);
        proof {
            assert(block_views(sorted@) =~= before.insert(p as int, b@));
            assert(all.take(it.index() + 1).drop_last() =~= done);
            assert(all.take(it.index() + 1).last() == b@);
        }
    }
    proof {
        assert(all.take(all.len() as int) =~= all);
        lemma_sorted_by_index(all);
    }
    sorted
}

/// The digests of the blocks, in the order of the blocks.
pub open spec fn digests_of(blocks: Seq<BlockView>) -> Seq<Seq<char>> {
    Seq::new(blocks.len(), |i: int| blocks[i].hash_bloco)
}

/// The bytes of the digests as text, one digest behind the other.
pub open spec fn joined_bytes(digests: Seq<Seq<char>>) -> Seq<u8>
    decreases digests.len(),
{
    if digests.len() == 0 {
        Seq::empty()
    } else {
        joined_bytes(digests.drop_last()) + vstd::utf8::encode_utf8(digests.last())
    }
}

/// What block digests in the order of their blocks combine to: a single
/// digest stands for itself; otherwise the SHA-256 digest of the digests
/// written one behind the other.
pub open spec fn combined_digest(digests: Seq<Seq<char>>) -> Seq<char> {
    if digests.len() == 1 {
        digests[0]
    } else {
        sha256_hex(joined_bytes(digests))
    }
}

/// The digest of a file whose blocks arrived as `blocks`, in any order.
pub open spec fn digest_of_blocks(blocks: Seq<BlockView>) -> Seq<char> {
    combined_digest(digests_of(sorted_by_index(blocks)))
}

/// Combines the blocks of one file, in whatever order they come, to the
/// file's digest: the blocks are put in the order of their numbers first.
pub fn combine_blocks(blocks: Vec<ChunkBloco>) -> (digest: String)
    ensures
        digest@ == digest_of_blocks(block_views(blocks@)),
        blocks@.len() != 1 ==> digest@.len() == 64,
{
    let sorted = sort_blocks(blocks);
    assert(block_views(sorted@).len() == block_views(blocks@).len()) by {
        lemma_sorted_by_index(block_views(blocks@));
    }
    if sorted.len() == 1 {
        return sorted[0].hash_bloco.clone();
    }
    let mut hasher = Sha256Stream::new();
    let mut i: usize = 0;
    let ghost digests = digests_of(block_views(sorted@));
    assert(digests.take(0) =~= Seq::<Seq<char>>::empty());
    while i < sorted.len()
        invariant
            i <= sorted.len(),
            digests == digests_of(block_views(sorted@)),
            hasher@ == joined_bytes(digests.take(i as int)),
        decreases sorted.len() - i,
    {
        hasher.feed(sorted[i].hash_bloco.as_str().as_bytes());
        assert(digests.take(i + 1).drop_last() =~= digests.take(i as int));
        i += 1;
    }
    assert(digests.take(sorted.len() as int) =~= digests);
    hasher.finish()
}

/// Blocks without a repeated number put no value twice in a sequence.
proof fn lemma_distinct_numbers_no_duplicates(blocks: Seq<BlockView>)
    requires
        has_distinct_numbers(blocks),
    ensures
        blocks.no_duplicates(),
{
    assert forall|i: int, j: int|
        0 <= i < blocks.len() && 0 <= j < blocks.len() && i != j implies blocks[i]
        != blocks[j] by {
        if i < j {
            assert(blocks[i].n_bloco != blocks[j].n_bloco);
        } else {
            assert(blocks[j].n_bloco != blocks[i].n_bloco);
        }
    }
}

/// A rearrangement of blocks with distinct numbers has distinct numbers.
pub proof fn lemma_distinct_numbers_rearranged(a: Seq<BlockView>, b: Seq<BlockView>)
    requires
        has_distinct_numbers(a),
        a.to_multiset() == b.to_multiset(),
    ensures
        has_distinct_numbers(b),
{
    broadcast use vstd::seq_lib::group_to_multiset_ensures;

    lemma_distinct_numbers_no_duplicates(a);
    a.lemma_multiset_has_no_duplicates();
    b.lemma_multiset_has_no_duplicates_conv();
    assert forall|i: int, j: int| 0 <= i < j < b.len() implies (#[trigger] b[i]).n_bloco != (
    #[trigger] b[j]).n_bloco by {
        assert(b.contains(b[i]));
        assert(b.contains(b[j]));
        assert(a.to_multiset().count(b[i]) > 0);
        assert(a.to_multiset().count(b[j]) > 0);
        assert(a.contains(b[i]));
        assert(a.contains(b[j]));
        let p = choose|p: int| 0 <= p < a.len() && a[p] == b[i];
        let q = choose|q: int| 0 <= q < a.len() && a[q] == b[j];
        assert(b[i] != b[j]);
        if p < q {
            assert(a[p].n_bloco != a[q].n_bloco);
        } else if q < p {
            assert(a[q].n_bloco != a[p].n_bloco);
        }
    }
}

/// Two ordered sequences of the same blocks, none with a repeated number, are
/// one sequence.
pub proof fn lemma_sorted_is_unique(x: Seq<BlockView>, y: Seq<BlockView>)
    requires
        is_sorted(x),
        is_sorted(y),
        has_distinct_numbers(x),
        x.to_multiset() == y.to_multiset(),
    ensures
        x == y,
    decreases x.len(),
{
    broadcast use vstd::seq_lib::group_to_multiset_ensures;

    assert(x.len() == y.len()) by {
        vstd::seq_lib::to_multiset_len(x);
        vstd::seq_lib::to_multiset_len(y);
    }
    lemma_distinct_numbers_rearranged(x, y);
    if x.len() == 0 {
        assert(x =~= y);
    } else {
        let n = x.len() as int;
        let m = x[n - 1];
        let z = y[n - 1];
        assert(x.contains(m));
        assert(y.to_multiset().count(m) > 0);
        assert(y.contains(m));
        let j = choose|j: int| 0 <= j < y.len() && y[j] == m;
        assert(y.contains(z));
        assert(x.to_multiset().count(z) > 0);
        assert(x.contains(z));
        let k = choose|k: int| 0 <= k < x.len() && x[k] == z;
        if k < n - 1 {
            assert(x[k].n_bloco <= x[n - 1].n_bloco);
            assert(x[k].n_bloco != x[n - 1].n_bloco);
        }
        if j < n - 1 {
            assert(y[j].n_bloco <= y[n - 1].n_bloco);
            assert(y[j].n_bloco != y[n - 1].n_bloco);
        }
        assert(m == z);
        let xs = x.drop_last();
        let ys = y.drop_last();
        assert(xs =~= x.remove(n - 1));
        assert(ys =~= y.remove(n - 1));
        assert(xs.to_multiset() == ys.to_multiset());
        assert forall|i: int, j: int| 0 <= i < j < xs.len() implies (#[trigger] xs[i]).n_bloco
            <= (#[trigger] xs[j]).n_bloco && xs[i].n_bloco != xs[j].n_bloco by {
            assert(xs[i] == x[i] && xs[j] == x[j]);
        }
        assert forall|i: int, j: int| 0 <= i < j < ys.len() implies (#[trigger] ys[i]).n_bloco
            <= (#[trigger] ys[j]).n_bloco by {
            assert(ys[i] == y[i] && ys[j] == y[j]);
        }
        lemma_sorted_is_unique(xs, ys);
        assert(x =~= xs.push(m));
        assert(y =~= ys.push(z));
    }
}

/// The digest of a file does not depend on the order in which the digests of
/// its blocks arrive: blocks with distinct numbers, in any two arrangements,
/// are sorted to one sequence and combine to one digest.
pub proof fn lemma_completion_order_is_irrelevant(a: Seq<BlockView>, b: Seq<BlockView>)
    requires
        has_distinct_numbers(a),
        a.to_multiset() == b.to_multiset(),
    ensures
        sorted_by_index(a) == sorted_by_index(b),
        digest_of_blocks(a) == digest_of_blocks(b),
{
    lemma_sorted_by_index(a);
    lemma_sorted_by_index(b);
    lemma_distinct_numbers_rearranged(a, sorted_by_index(a));
    lemma_sorted_is_unique(sorted_by_index(a), sorted_by_index(b));
}

} // verus!
