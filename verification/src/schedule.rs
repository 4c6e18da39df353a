//! Handing the blocks of a file out for hashing, never more than a set
//! number at a time, and taking their digests in as they come back.

use crate::blocks::{
    block_count, block_views, calcular_blocos, combine_blocks, digest_of_blocks,
    has_distinct_numbers, is_planned_block, lemma_sorted_by_index, sorted_by_index, BlockView,
    ChunkBloco,
};
use crate::digest::{is_digest, is_digest_text};
use crate::engine::HashAlgorithm;
use vstd::prelude::*;

verus! {

/// The blocks of one file as they are handed out for hashing: never more
/// than `limit` of them are in work at once.
#[derive(Clone, Copy, Debug, PartialEq, Eq, Structural)]
pub struct BlockWindow {
    total: usize,
    dispatched: usize,
    completed: usize,
    limit: usize,
}

impl BlockWindow {
    /// How many blocks the file has.
    pub closed spec fn total(&self) -> nat {
        self.total as nat
    }

    /// How many blocks have been handed out.
    pub closed spec fn dispatched(&self) -> nat {
        self.dispatched as nat
    }

    /// How many blocks have come back.
    pub closed spec fn completed(&self) -> nat {
        self.completed as nat
    }

    /// How many blocks may be in work at once.
    pub closed spec fn limit(&self) -> nat {
        self.limit as nat
    }

    /// How many blocks are in work.
    pub open spec fn in_flight(&self) -> int {
        self.dispatched() - self.completed()
    }

    /// No block comes back before it is handed out, none is handed out that
    /// the file does not have, and no more than the limit are in work.
    pub open spec fn wf(&self) -> bool {
        &&& self.completed() <= self.dispatched() <= self.total()
        &&& self.in_flight() <= self.limit()
        &&& self.limit() >= 1
    }

    /// A window over `total` blocks. A limit of 0 counts as 1: with no block
    /// in work the file would never be done.
    pub fn new(total: usize, limit: usize) -> (w: Self)
        ensures
            w.wf(),
            w.total() == total,
            w.dispatched() == 0,
            w.completed() == 0,
            w.limit() == if limit == 0 {
                1
            } else {
                limit as nat
            },
    {
        BlockWindow {
            total,
            dispatched: 0,
            completed: 0,
            limit: if limit == 0 {
                1
            } else {
                limit
            },
        }
    }

    /// The next block to hand out, if there is one left and the limit allows
    /// it. Blocks are handed out in the order of their numbers, each once.
    pub fn next(&mut self) -> (r: Option<usize>)
        requires
            old(self).wf(),
        ensures
            final(self).wf(),
            final(self).total() == old(self).total(),
            final(self).limit() == old(self).limit(),
            final(self).completed() == old(self).completed(),
            r is Some <==> old(self).dispatched() < old(self).total() && old(self).in_flight()
                < old(self).limit(),
            match r {
                Some(i) => i == old(self).dispatched() && final(self).dispatched() == i + 1,
                None => final(self).dispatched() == old(self).dispatched(),
            },
    {
        if self.dispatched < self.total && self.dispatched - self.completed < self.limit {
            let i = self.dispatched;
            self.dispatched = self.dispatched + 1;
            Some(i)
        } else {
            None
        }
    }

    /// Counts one block that came back.
    pub fn complete_one(&mut self)
        requires
            old(self).wf(),
            old(self).in_flight() > 0,
        ensures
            final(self).wf(),
            final(self).total() == old(self).total(),
            final(self).limit() == old(self).limit(),
            final(self).dispatched() == old(self).dispatched(),
            final(self).completed() == old(self).completed() + 1,
    {
        self.completed = self.completed + 1;
    }

    /// Whether a block is in work.
    pub fn has_in_flight(&self) -> (r: bool)
        requires
            self.wf(),
        ensures
            r == (self.in_flight() > 0),
    {
        self.dispatched > self.completed
    }

    /// Whether every block of the file has come back.
    pub fn is_done(&self) -> (r: bool)
        requires
            self.wf(),
        ensures
            r == (self.completed() == self.total()),
    {
        self.completed == self.total
    }
}

/// The most threads that are at work at one time, for a pool that handles
/// whole files and blocks alike: as many as the pool has workers, whatever
/// the number of large files.
pub open spec fn thread_bound(worker_count: u32) -> nat {
    if worker_count == 0 {
        1
    } else {
        worker_count as nat
    }
}

/// The number of worker threads to start: the configured number, and one
/// where none is configured.
pub fn pool_size(worker_count: u32) -> (n: usize)
    ensures
        n == thread_bound(worker_count),
        n >= 1,
{
    if worker_count == 0 {
        1
    } else {
        worker_count as usize
    }
}

/// The byte ranges that are hashed for a file of `size` bytes: the whole
/// file under the plain algorithm, its blocks under the hierarchical one.
pub open spec fn is_plan(planned: Seq<BlockView>, size: u64, algorithm: HashAlgorithm) -> bool {
    match algorithm {
        HashAlgorithm::Plain => planned =~= seq![
            BlockView {
                n_bloco: 0,
                inicio_bloco: 0,
                fim_bloco: size,
                hash_bloco: Seq::<char>::empty(),
            },
        ],
        HashAlgorithm::Hierarchical { block_size } => {
            &&& planned.len() == block_count(size as nat, block_size as nat)
            &&& forall|i: int|
                0 <= i < planned.len() ==> {
                    &&& (#[trigger] planned[i]).n_bloco == i
                    &&& planned[i].inicio_bloco == i * block_size
                    &&& planned[i].fim_bloco == if (i + 1) * block_size <= size {
                        (i + 1) * block_size
                    } else {
                        size as int
                    }
                    &&& planned[i].hash_bloco == Seq::<char>::empty()
                }
        },
    }
}

/// How many of the flags are set.
pub open spec fn count_true(flags: Seq<bool>) -> nat
    decreases flags.len(),
{
    if flags.len() == 0 {
        0
    } else {
        count_true(flags.drop_last()) + if flags.last() {
            1nat
        } else {
            0nat
        }
    }
}

proof fn lemma_count_update(flags: Seq<bool>, i: int, v: bool)
    requires
        0 <= i < flags.len(),
    ensures
        count_true(flags.update(i, v)) == count_true(flags) - (if flags[i] {
            1int
        } else {
            0int
        }) + (if v {
            1int
        } else {
            0int
        }),
        flags[i] ==> count_true(flags) >= 1,
    decreases flags.len(),
{
    if i == flags.len() - 1 {
        assert(flags.update(i, v).drop_last() =~= flags.drop_last());
    } else {
        lemma_count_update(flags.drop_last(), i, v);
        assert(flags.update(i, v).drop_last() =~= flags.drop_last().update(i, v));
    }
}

/// One file on its way through the workers: the ranges to hash, those handed
/// out, and the digests that came back.
pub struct FileJob {
    planned: Vec<ChunkBloco>,
    window: BlockWindow,
    out: Vec<bool>,
    arrived: Vec<ChunkBloco>,
    failed: bool,
}

impl FileJob {
    /// The ranges to hash, in the order of their numbers.
    pub closed spec fn planned(&self) -> Seq<BlockView> {
        block_views(self.planned@)
    }

    /// The hashed ranges that came back, in the order of their coming.
    pub closed spec fn arrived(&self) -> Seq<BlockView> {
        block_views(self.arrived@)
    }

    /// How many ranges are handed out and how many came back.
    pub closed spec fn window(&self) -> BlockWindow {
        self.window
    }

    /// For each range, whether it is handed out and not back yet.
    pub closed spec fn out(&self) -> Seq<bool> {
        self.out@
    }

    /// Whether a range could not be hashed.
    pub closed spec fn failed(&self) -> bool {
        self.failed
    }

    /// Whether the range numbered `n` is handed out and not back yet.
    pub open spec fn is_out(&self, n: u64) -> bool {
        n < self.out().len() && self.out()[n as int]
    }

    /// Whether `bloco` is one of the ranges that are handed out and not back
    /// yet, with its digest: it has the number, the start and the end of
    /// one, and text of the form of a digest.
    pub open spec fn expects(&self, bloco: BlockView) -> bool {
        &&& is_digest(bloco.hash_bloco)
        &&& self.is_out(bloco.n_bloco)
        &&& bloco.inicio_bloco == self.planned()[bloco.n_bloco as int].inicio_bloco
        &&& bloco.fim_bloco == self.planned()[bloco.n_bloco as int].fim_bloco
    }

    /// The ranges are numbered from 0; those that are out were handed out
    /// and are as many as the window counts in work; every range that came
    /// back is a planned one that is no longer out, and none came back
    /// twice; without a failure, each one that was counted came back hashed.
    pub open spec fn wf(&self) -> bool {
        &&& self.window().wf()
        &&& self.window().total() == self.planned().len()
        &&& self.out().len() == self.planned().len()
        &&& forall|i: int| 0 <= i < self.planned().len() ==> (#[trigger] self.planned()[i]).n_bloco == i
        &&& forall|i: int|
            0 <= i < self.out().len() && #[trigger] self.out()[i] ==> i < self.window().dispatched()
        &&& count_true(self.out()) == self.window().in_flight()
        &&& self.arrived().len() <= self.window().completed()
        &&& !self.failed() ==> self.arrived().len() == self.window().completed()
        &&& has_distinct_numbers(self.arrived())
        &&& forall|k: int|
            0 <= k < self.arrived().len() ==> {
                let b = #[trigger] self.arrived()[k];
                &&& is_digest(b.hash_bloco)
                &&& b.n_bloco < self.window().dispatched()
                &&& !self.out()[b.n_bloco as int]
                &&& b.inicio_bloco == self.planned()[b.n_bloco as int].inicio_bloco
                &&& b.fim_bloco == self.planned()[b.n_bloco as int].fim_bloco
            }
    }

    /// Whether nothing more will come back: every range came back, or one
    /// failed and none is in work any more.
    pub open spec fn over(&self) -> bool {
        if self.failed() {
            self.window().in_flight() == 0
        } else {
            self.window().completed() == self.window().total()
        }
    }

    /// Lays out the ranges to hash for a file of `file_size` bytes. No more
    /// than `limit` of them will be in work at a time.
    pub fn plan(file_size: u64, algorithm: HashAlgorithm, limit: usize) -> (job: Self)
        requires
            algorithm.wf(),
        ensures
            job.wf(),
            is_plan(job.planned(), file_size, algorithm),
            job.arrived() == Seq::<BlockView>::empty(),
            !job.failed(),
            job.window().dispatched() == 0,
            job.window().completed() == 0,
            job.window().limit() == if limit == 0 {
                1
            } else {
                limit as nat
            },
    {
        let planned = match algorithm {
            HashAlgorithm::Plain => {
                let mut whole: Vec<ChunkBloco> = Vec::new();
                whole.push(
                    ChunkBloco {
                        n_bloco: 0,
                        inicio_bloco: 0,
                        fim_bloco: file_size,
                        hash_bloco: String::new(),
                    },
                );
                whole
            },
            HashAlgorithm::Hierarchical { block_size } => {
                let blocks = calcular_blocos(file_size, block_size);
                proof {
                    let views = block_views(blocks@);
                    assert forall|i: int| 0 <= i < views.len() implies {
                        &&& (#[trigger] views[i]).n_bloco == i
                        &&& views[i].inicio_bloco == i * block_size
                        &&& views[i].fim_bloco == if (i + 1) * block_size <= file_size {
                            (i + 1) * block_size
                        } else {
                            file_size as int
                        }
                        &&& views[i].hash_bloco == Seq::<char>::empty()
                    } by {
                        assert(is_planned_block(
                            blocks@[i],
                            i as nat,
                            file_size as nat,
                            block_size as nat,
                        ));
                    }
                }
                blocks
            },
        };
        let mut out: Vec<bool> = Vec::new();
        let mut i: usize = 0;
        while i < planned.len()
            invariant
                i <= planned.len(),
                out@.len() == i,
                count_true(out@) == 0,
                forall|k: int| 0 <= k < out@.len() ==> !#[trigger] out@[k],
            decreases planned.len() - i,
        {
            let ghost before = out@;
            out.push(false);
            assert(out@.drop_last() =~= before);
            i += 1;
        }
        let window = BlockWindow::new(planned.len(), limit);
        let job = FileJob { planned, window, out, arrived: Vec::new(), failed: false };
        assert(job.arrived() =~= Seq::<BlockView>::empty());
        job
    }

    /// The next range to hand out, if one is left, the limit allows it, and
    /// no range has failed. Ranges are handed out in the order of their
    /// numbers, each once.
    pub fn next_block(&mut self) -> (r: Option<ChunkBloco>)
        requires
            old(self).wf(),
        ensures
            final(self).wf(),
            final(self).planned() == old(self).planned(),
            final(self).arrived() == old(self).arrived(),
            final(self).failed() == old(self).failed(),
            final(self).window().total() == old(self).window().total(),
            final(self).window().limit() == old(self).window().limit(),
            final(self).window().completed() == old(self).window().completed(),
            r is Some <==> (!old(self).failed() && old(self).window().dispatched() < old(
                self
            ).window().total() && old(self).window().in_flight() < old(self).window().limit()),
            match r {
                Some(bloco) => bloco@ == old(self).planned()[old(self).window().dispatched() as int]
                    && final(self).window().dispatched() == old(self).window().dispatched() + 1
                    && final(self).is_out(bloco.n_bloco) && final(self).out() == old(
                    self
                ).out().update(
                    bloco.n_bloco as int,
                    true,
                ),
                None => final(self).window().dispatched() == old(self).window().dispatched()
                    && final(self).out() == old(self).out(),
            },
    {
        if self.failed {
            return None;
        }
        match self.window.next() {
            Some(i) => {
                let ghost flags = self.out@;
                proof {
                    lemma_count_update(flags, i as int, true);
                    if flags[i as int] {
                        assert(i < old(self).window().dispatched());
                    }
                }
                self.out.set(i, true);
                let planned = &self.planned[i];
                assert(planned@ == self.planned()[i as int]);
                Some(
                    ChunkBloco {
                        n_bloco: planned.n_bloco,
                        inicio_bloco: planned.inicio_bloco,
                        fim_bloco: planned.fim_bloco,
                        hash_bloco: planned.hash_bloco.clone(),
                    },
                )
            },
            None => None,
        }
    }

    /// Whether `bloco` is one of the ranges that are handed out and not back
    /// yet, with its digest.
    pub fn expects_block(&self, bloco: &ChunkBloco) -> (r: bool)
        requires
            self.wf(),
        ensures
            r == self.expects(bloco@),
    {
        if !is_digest_text(bloco.hash_bloco.as_str()) {
            return false;
        }
        if bloco.n_bloco >= self.out.len() as u64 {
            return false;
        }
        let n = bloco.n_bloco as usize;
        let planned = &self.planned[n];
        assert(planned@ == self.planned()[n as int]);
        self.out[n] && bloco.inicio_bloco == planned.inicio_bloco && bloco.fim_bloco
            == planned.fim_bloco
    }

    /// Whether the range numbered `n_bloco` is handed out and not back yet.
    pub fn is_handed_out(&self, n_bloco: u64) -> (r: bool)
        requires
            self.wf(),
        ensures
            r == self.is_out(n_bloco),
    {
        n_bloco < self.out.len() as u64 && self.out[n_bloco as usize]
    }

    /// Takes in a range that was handed out and came back hashed.
    pub fn block_done(&mut self, bloco: ChunkBloco)
        requires
            old(self).wf(),
            old(self).expects(bloco@),
        ensures
            final(self).wf(),
            final(self).planned() == old(self).planned(),
            final(self).failed() == old(self).failed(),
            final(self).window().total() == old(self).window().total(),
            final(self).window().limit() == old(self).window().limit(),
            final(self).window().dispatched() == old(self).window().dispatched(),
            final(self).window().completed() == old(self).window().completed() + 1,
            final(self).arrived() == old(self).arrived().push(bloco@),
            final(self).out() == old(self).out().update(bloco.n_bloco as int, false),
    {
        let n = bloco.n_bloco as usize;
        let ghost flags = self.out@;
        let ghost before = block_views(self.arrived@);
        proof {
            lemma_count_update(flags, n as int, false);
        }
        self.out.set(n, false);
        self.window.complete_one();
        self.arrived.push(bloco);
        proof {
            let after = block_views(self.arrived@);
            assert(after =~= before.push(bloco@));
            assert forall|i: int, j: int| 0 <= i < j < after.len() implies (
            #[trigger] after[i]).n_bloco != (#[trigger] after[j]).n_bloco by {
                if j < before.len() {
                    assert(after[i] == before[i] && after[j] == before[j]);
                } else {
                    assert(after[i] == before[i]);
                    assert(!flags[before[i].n_bloco as int]);
                }
            }
            assert forall|k: int| 0 <= k < after.len() implies {
                let b = #[trigger] after[k];
                &&& is_digest(b.hash_bloco)
                &&& b.n_bloco < self.window().dispatched()
                &&& !self.out()[b.n_bloco as int]
                &&& b.inicio_bloco == self.planned()[b.n_bloco as int].inicio_bloco
                &&& b.fim_bloco == self.planned()[b.n_bloco as int].fim_bloco
            } by {
                if k < before.len() {
                    assert(after[k] == before[k]);
                }
            }
        }
    }

    /// Takes in that the range numbered `n_bloco`, which was handed out,
    /// could not be hashed.
    pub fn block_failed(&mut self, n_bloco: u64)
        requires
            old(self).wf(),
            old(self).is_out(n_bloco),
        ensures
            final(self).wf(),
            final(self).failed(),
            final(self).planned() == old(self).planned(),
            final(self).arrived() == old(self).arrived(),
            final(self).window().total() == old(self).window().total(),
            final(self).window().limit() == old(self).window().limit(),
            final(self).window().dispatched() == old(self).window().dispatched(),
            final(self).window().completed() == old(self).window().completed() + 1,
            final(self).out() == old(self).out().update(n_bloco as int, false),
    {
        let n = n_bloco as usize;
        proof {
            lemma_count_update(self.out@, n as int, false);
        }
        self.out.set(n, false);
        self.window.complete_one();
        self.failed = true;
    }

    /// Whether a range is in work.
    pub fn has_in_flight(&self) -> (r: bool)
        requires
            self.wf(),
        ensures
            r == (self.window().in_flight() > 0),
    {
        self.window.has_in_flight()
    }

    /// Whether nothing more will come back for this file.
    pub fn is_over(&self) -> (r: bool)
        requires
            self.wf(),
        ensures
            r == self.over(),
    {
        if self.failed {
            !self.window.has_in_flight()
        } else {
            self.window.is_done()
        }
    }

    /// The digest of the file, once every range has come back hashed: the
    /// ranges are put in the order of their numbers, whatever the order in
    /// which they came. `None` where a range failed or is still missing.
    pub fn finish(self) -> (r: Option<String>)
        requires
            self.wf(),
        ensures
            r is Some <==> !self.failed() && self.window().completed() == self.window().total(),
            r is Some ==> r->Some_0@ == digest_of_blocks(self.arrived()),
            r is Some ==> r->Some_0@.len() == 64,
            r is Some ==> self.arrived().len() == self.planned().len(),
            r is Some ==> has_distinct_numbers(self.arrived()),
    {
        if self.failed || !self.window.is_done() {
            None
        } else {
            proof {
                let blocks = self.arrived();
                lemma_sorted_by_index(blocks);
                if blocks.len() == 1 {
                    let sorted = sorted_by_index(blocks);
                    vstd::seq_lib::to_multiset_contains(blocks, sorted[0]);
                    assert(sorted.contains(sorted[0]));
                    vstd::seq_lib::to_multiset_contains(sorted, sorted[0]);
                    assert(blocks.contains(sorted[0]));
                    assert(sorted[0] == blocks[0]);
                }
            }
            Some(combine_blocks(self.arrived))
        }
    }
}

} // verus!
