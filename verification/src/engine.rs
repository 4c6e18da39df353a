//! The digest of a whole file: plain SHA-256 for a file that fits in one
//! block, and the combination of its block digests for a larger one.

use crate::blocks::{
    block_count, block_end, block_start, block_views, calcular_blocos, combine_blocks,
    combined_digest, digest_of_blocks, digests_of, has_distinct_numbers, hash_range,
    is_partition, is_planned_block, is_sorted, joined_bytes,
    lemma_completion_order_is_irrelevant, lemma_distinct_numbers_rearranged,
    lemma_sorted_by_index, lemma_sorted_is_fixed, sorted_by_index, BlockView, ChunkBloco,
};
use crate::digest::{is_hex, sha256_hex};
use crate::error::HushError;
use crate::size::{lemma_size_text_has_no_star, parse_size, parse_size_chars};
use crate::text::{
    append_chars, chars_to_string, lemma_first_index_is, split_chars_once, split_once, str_chars,
};
use vstd::prelude::*;

verus! {

/// How a file's digest is computed.
#[derive(Clone, Copy, Debug, PartialEq, Eq, Structural)]
pub enum HashAlgorithm {
    /// SHA-256 of the whole content.
    Plain,
    /// Block digests over blocks of `block_size` bytes, combined.
    Hierarchical { block_size: u64 },
}

impl HashAlgorithm {
    /// A block length is never 0.
    pub open spec fn wf(&self) -> bool {
        match self {
            HashAlgorithm::Plain => true,
            HashAlgorithm::Hierarchical { block_size } => *block_size > 0,
        }
    }
}

/// The digests of the blocks of `data`, for blocks of `len` bytes.
pub open spec fn block_digests(data: Seq<u8>, len: nat) -> Seq<Seq<char>> {
    Seq::new(
        block_count(data.len(), len),
        |i: int|
            sha256_hex(
                data.subrange(
                    block_start(i as nat, len) as int,
                    block_end(i as nat, data.len(), len) as int,
                ),
            ),
    )
}

/// The hierarchical digest of `data` for blocks of `len` bytes.
pub open spec fn hsha256(data: Seq<u8>, len: nat) -> Seq<char> {
    combined_digest(block_digests(data, len))
}

/// The digest of `data` under `alg`.
pub open spec fn file_digest(data: Seq<u8>, alg: HashAlgorithm) -> Seq<char> {
    match alg {
        HashAlgorithm::Plain => sha256_hex(data),
        HashAlgorithm::Hierarchical { block_size } => hsha256(data, block_size as nat),
    }
}

/// The algorithm for a file of `file_size` bytes under a block length: plain
/// unless the file is longer than one block.
pub open spec fn algorithm_for(file_size: nat, block_size: u64) -> HashAlgorithm {
    if file_size > block_size {
        HashAlgorithm::Hierarchical { block_size }
    } else {
        HashAlgorithm::Plain
    }
}

/// The tag that records an algorithm in a manifest: `sha256`, or `hsha256-`
/// before the block length as the settings of the run write it.
pub open spec fn tag_of_algorithm(alg: HashAlgorithm, block_size_str: Seq<char>) -> Seq<char> {
    match alg {
        HashAlgorithm::Plain => "sha256"@,
        HashAlgorithm::Hierarchical { block_size } => "hsha256-"@ + block_size_str,
    }
}

/// The text writes the block length of the algorithm, where it has one.
pub open spec fn writes_block_size(alg: HashAlgorithm, block_size_str: Seq<char>) -> bool {
    match alg {
        HashAlgorithm::Plain => true,
        HashAlgorithm::Hierarchical { block_size } => parse_size(block_size_str) == Some(
            block_size as nat,
        ),
    }
}

/// The algorithm that a tag stands for. A tag with a dash is hierarchical,
/// with the block length that the text behind the first dash denotes; any
/// other tag is plain.
pub open spec fn algorithm_of_tag(tag: Seq<char>) -> Result<HashAlgorithm, HushError> {
    match split_once(tag, '-') {
        None => Ok(HashAlgorithm::Plain),
        Some((_, suffix)) => match parse_size(suffix) {
            Some(n) => if 0 < n <= u64::MAX {
                Ok(HashAlgorithm::Hierarchical { block_size: n as u64 })
            } else {
                Err(HushError::InvalidSizeLiteral)
            },
            None => Err(HushError::InvalidSizeLiteral),
        },
    }
}

/// A file that fits in one block has the plain SHA-256 digest as its
/// hierarchical digest.
pub proof fn lemma_one_block_is_plain(data: Seq<u8>, len: nat)
    requires
        len > 0,
        data.len() <= len,
    ensures
        hsha256(data, len) == sha256_hex(data),
{
    let size = data.len();
    let digests = block_digests(data, len);
    if size == 0 {
        assert(size % len == 0 && size / len == 0) by (nonlinear_arith)
            requires
                size == 0,
                len > 0,
        ;
        assert(digests.len() == 0);
        assert(joined_bytes(digests) == Seq::<u8>::empty());
        assert(data =~= Seq::<u8>::empty());
    } else {
        assert(block_count(size, len) == 1) by (nonlinear_arith)
            requires
                0 < size <= len,
                block_count(size, len) == (if size % len == 0 {
                    size / len
                } else {
                    size / len + 1
                }),
        ;
        assert(block_start(0, len) == 0) by (nonlinear_arith);
        assert(block_end(0, size, len) == size) by (nonlinear_arith)
            requires
                size <= len,
                block_end(0, size, len) == (if (0 + 1) * len <= size {
                    (0 + 1) * len
                } else {
                    size
                }),
        ;
        assert(data.subrange(0, size as int) =~= data);
        assert(digests[0] == sha256_hex(data));
    }
}

/// The SHA-256 digest of `data`, taken in pieces of at most `buffer_size`
/// bytes.
pub fn hash_sha256(data: &[u8], buffer_size: usize) -> (digest: String)
    ensures
        digest@ == sha256_hex(data@),
        digest@.len() == 64,
{
    let whole = ChunkBloco {
        n_bloco: 0,
        inicio_bloco: 0,
        fim_bloco: data.len() as u64,
        hash_bloco: String::new(),
    };
    let done = hash_range(data, whole, buffer_size);
    assert(data@.subrange(0, data@.len() as int) == data@);
    done.hash_bloco
}

/// The hierarchical digest of `data` for blocks of `chunk_size` bytes: the
/// blocks are laid out, each is hashed, and the block digests are combined in
/// the order of the blocks.
pub fn hash_hsha256(data: &[u8], buffer_size: usize, chunk_size: usize) -> (digest: String)
    requires
        chunk_size > 0,
    ensures
        digest@ == hsha256(data@, chunk_size as nat),
        digest@.len() == 64,
{
    let ghost size = data@.len();
    let ghost len = chunk_size as nat;
    let blocos = calcular_blocos(data.len() as u64, chunk_size as u64);
    let ghost planned = blocos@;
    let mut resultados: Vec<ChunkBloco> = Vec::new();
    for bloco in it: blocos
        invariant
            it.seq() == planned,
            size == data@.len(),
            len > 0,
            planned.len() == block_count(size, len),
            is_partition(planned, size),
            forall|i: int|
                0 <= i < planned.len() ==> is_planned_block(#[trigger] planned[i], i as nat, size, len),
            resultados@.len() == it.index(),
            forall|i: int|
                0 <= i < resultados@.len() ==> (#[trigger] resultados@[i]).n_bloco == i
                    && resultados@[i].hash_bloco@ == block_digests(data@, len)[i]
                    && resultados@[i].hash_bloco@.len() == 64,
    {
        let ghost k = it.index() as int;
        assert(is_planned_block(planned[k], k as nat, size, len));
        assert(planned[k].inicio_bloco < planned[k].fim_bloco <= size);
        let pronto = hash_range(data, bloco, buffer_size);
        resultados.push(pronto);
    }
    proof {
        let views = block_views(resultados@);
        assert(is_sorted(views));
        lemma_sorted_is_fixed(views);
        assert(digests_of(views) =~= block_digests(data@, len));
    }
    combine_blocks(resultados)
}

/// The algorithm for a file of `file_size` bytes: plain unless the file is
/// longer than `block_size`.
pub fn choose_algorithm(file_size: u64, block_size: u64) -> (alg: HashAlgorithm)
    ensures
        alg == algorithm_for(file_size as nat, block_size),
{
    if file_size > block_size {
        HashAlgorithm::Hierarchical { block_size }
    } else {
        HashAlgorithm::Plain
    }
}

/// The digest of `data` under `alg`.
pub fn hash_with(data: &[u8], alg: HashAlgorithm, buffer_size: usize) -> (digest: String)
    requires
        alg.wf(),
    ensures
        digest@ == file_digest(data@, alg),
        digest@.len() == 64,
{
    match alg {
        HashAlgorithm::Plain => hash_sha256(data, buffer_size),
        HashAlgorithm::Hierarchical { block_size } => {
            if block_size > usize::MAX as u64 {
                let size = data.len();
                proof {
                    assert(data@.len() == size);
                    lemma_one_block_is_plain(data@, block_size as nat);
                }
                hash_sha256(data, buffer_size)
            } else {
                hash_hsha256(data, buffer_size, block_size as usize)
            }
        },
    }
}

/// Reads the algorithm out of a manifest's algorithm tag.
///
/// Fails with `InvalidSizeLiteral` where the text behind the first dash is no
/// size literal, or denotes no block length between 1 and the largest 64-bit
/// number.
pub fn decode_algorithm(tag: &str) -> (r: Result<HashAlgorithm, HushError>)
    ensures
        r == algorithm_of_tag(tag@),
        r is Ok ==> r->Ok_0.wf(),
{
    let chars = str_chars(tag);
    match split_chars_once(&chars, '-') {
        None => Ok(HashAlgorithm::Plain),
        Some((_, suffix)) => match parse_size_chars(&suffix) {
            Ok(n) => if n > 0 {
                Ok(HashAlgorithm::Hierarchical { block_size: n })
            } else {
                Err(HushError::InvalidSizeLiteral)
            },
            Err(e) => Err(e),
        },
    }
}

/// Writes the tag that records `alg` in a manifest, with the block length
/// as `block_size_str` writes it. The tag reads back as `alg`.
pub fn algorithm_tag(alg: HashAlgorithm, block_size_str: &str) -> (tag: String)
    requires
        writes_block_size(alg, block_size_str@),
    ensures
        tag@ == tag_of_algorithm(alg, block_size_str@),
        alg.wf() ==> algorithm_of_tag(tag@) == Ok::<HashAlgorithm, HushError>(alg),
{
    proof {
        if alg.wf() {
            lemma_tag_round_trip(alg, block_size_str@);
        }
    }
    match alg {
        HashAlgorithm::Plain => "sha256".to_owned(),
        HashAlgorithm::Hierarchical { block_size } => {
            let mut text = str_chars("hsha256-");
            let tail = str_chars(block_size_str);
            append_chars(&mut text, &tail);
            chars_to_string(&text)
        },
    }
}

/// The digest of `data` under the algorithm that the tag `alg_str` names.
///
/// Fails exactly where the tag names no algorithm.
pub fn hash_hush(data: &[u8], alg_str: &str, buffer_size: usize) -> (r: Result<String, HushError>)
    ensures
        match algorithm_of_tag(alg_str@) {
            Ok(alg) => r is Ok && r->Ok_0@ == file_digest(data@, alg) && r->Ok_0@.len() == 64,
            Err(e) => r == Err::<String, HushError>(e),
        },
{
    match decode_algorithm(alg_str) {
        Ok(alg) => Ok(hash_with(data, alg, buffer_size)),
        Err(e) => Err(e),
    }
}

/// Every digest of a file is text of lower-case hexadecimal digits.
pub proof fn lemma_file_digest_is_hex(data: Seq<u8>, alg: HashAlgorithm)
    ensures
        is_hex(file_digest(data, alg)),
{
    match alg {
        HashAlgorithm::Plain => {},
        HashAlgorithm::Hierarchical { block_size } => {
            let digests = block_digests(data, block_size as nat);
            if digests.len() == 1 {
                assert(is_hex(digests[0]));
            }
        },
    }
}

/// No algorithm tag that is written holds a `*`.
pub proof fn lemma_tag_has_no_star(alg: HashAlgorithm, block_size_str: Seq<char>)
    requires
        writes_block_size(alg, block_size_str),
    ensures
        !tag_of_algorithm(alg, block_size_str).contains('*'),
{
    let tag = tag_of_algorithm(alg, block_size_str);
    reveal_strlit("sha256");
    reveal_strlit("hsha256-");
    match alg {
        HashAlgorithm::Plain => {
            assert forall|i: int| 0 <= i < tag.len() implies tag[i] != '*' by {}
        },
        HashAlgorithm::Hierarchical { block_size } => {
            lemma_size_text_has_no_star(block_size_str);
            assert forall|i: int| 0 <= i < tag.len() implies tag[i] != '*' by {
                if i >= 8 {
                    assert(tag[i] == block_size_str[i - 8]);
                    assert(block_size_str.contains(block_size_str[i - 8]));
                }
            }
        },
    }
}

/// The tag that is written for an algorithm is read back as that algorithm.
pub proof fn lemma_tag_round_trip(alg: HashAlgorithm, block_size_str: Seq<char>)
    requires
        alg.wf(),
        writes_block_size(alg, block_size_str),
    ensures
        algorithm_of_tag(tag_of_algorithm(alg, block_size_str)) == Ok::<HashAlgorithm, HushError>(
            alg,
        ),
{
    let tag = tag_of_algorithm(alg, block_size_str);
    reveal_strlit("sha256");
    reveal_strlit("hsha256-");
    match alg {
        HashAlgorithm::Plain => {
            lemma_first_index_is(tag, '-', tag.len() as int);
        },
        HashAlgorithm::Hierarchical { block_size } => {
            lemma_first_index_is(tag, '-', 7);
            assert(tag.skip(8) =~= block_size_str);
        },
    }
}

/// The blocks of `data` with their digests, in the order of their numbers.
pub open spec fn hashed_blocks(data: Seq<u8>, len: nat) -> Seq<BlockView> {
    Seq::new(
        block_count(data.len(), len),
        |i: int|
            BlockView {
                n_bloco: i as u64,
                inicio_bloco: block_start(i as nat, len) as u64,
                fim_bloco: block_end(i as nat, data.len(), len) as u64,
                hash_bloco: block_digests(data, len)[i],
            },
    )
}

/// Whatever the order in which the hashed blocks of a file arrive, they
/// combine to the hierarchical digest of the file.
pub proof fn lemma_arrival_order_is_irrelevant(data: Seq<u8>, len: nat, arrived: Seq<BlockView>)
    requires
        len > 0,
        data.len() <= u64::MAX,
        arrived.to_multiset() == hashed_blocks(data, len).to_multiset(),
    ensures
        digest_of_blocks(arrived) == hsha256(data, len),
{
    let planned = hashed_blocks(data, len);
    let size = data.len();
    assert(block_count(size, len) <= size) by (nonlinear_arith)
        requires
            len > 0,
            block_count(size, len) == (if size % len == 0 {
                size / len
            } else {
                size / len + 1
            }),
    ;
    assert forall|i: int, j: int| 0 <= i < j < planned.len() implies (
    #[trigger] planned[i]).n_bloco < (#[trigger] planned[j]).n_bloco by {}
    lemma_completion_order_is_irrelevant(planned, arrived);
    lemma_sorted_is_fixed(planned);
    assert(digests_of(planned) =~= block_digests(data, len));
}

proof fn lemma_number_at_least(x: Seq<BlockView>, i: int)
    requires
        is_sorted(x),
        has_distinct_numbers(x),
        0 <= i < x.len(),
    ensures
        x[i].n_bloco >= i,
    decreases i,
{
    if i > 0 {
        lemma_number_at_least(x, i - 1);
        assert(x[i - 1].n_bloco <= x[i].n_bloco);
        assert(x[i - 1].n_bloco != x[i].n_bloco);
    }
}

proof fn lemma_number_at_most(x: Seq<BlockView>, i: int)
    requires
        is_sorted(x),
        has_distinct_numbers(x),
        forall|k: int| 0 <= k < x.len() ==> (#[trigger] x[k]).n_bloco < x.len(),
        0 <= i < x.len(),
    ensures
        x[i].n_bloco <= i,
    decreases x.len() - i,
{
    if i + 1 < x.len() {
        lemma_number_at_most(x, i + 1);
        assert(x[i].n_bloco <= x[i + 1].n_bloco);
        assert(x[i].n_bloco != x[i + 1].n_bloco);
    }
}

/// Once every block of a file is back, each with the digest of its range and
/// none twice, the blocks combine to the hierarchical digest of the file,
/// whatever the order in which they came back.
pub proof fn lemma_all_blocks_back(data: Seq<u8>, len: nat, arrived: Seq<BlockView>)
    requires
        len > 0,
        arrived.len() == block_count(data.len(), len),
        has_distinct_numbers(arrived),
        forall|k: int|
            0 <= k < arrived.len() ==> (#[trigger] arrived[k]).n_bloco < arrived.len()
                && arrived[k].hash_bloco == block_digests(data, len)[arrived[k].n_bloco as int],
    ensures
        digest_of_blocks(arrived) == hsha256(data, len),
{
    broadcast use vstd::seq_lib::group_to_multiset_ensures;

    let sorted = sorted_by_index(arrived);
    lemma_sorted_by_index(arrived);
    lemma_distinct_numbers_rearranged(arrived, sorted);
    assert forall|i: int| 0 <= i < sorted.len() implies (#[trigger] sorted[i]).n_bloco
        < sorted.len() && sorted[i].hash_bloco == block_digests(data, len)[sorted[i].n_bloco as int] by {
        assert(sorted.contains(sorted[i]));
        assert(arrived.to_multiset().count(sorted[i]) > 0);
        assert(arrived.contains(sorted[i]));
        let k = choose|k: int| 0 <= k < arrived.len() && arrived[k] == sorted[i];
        assert(arrived[k].n_bloco < arrived.len());
    }
    assert forall|i: int| 0 <= i < sorted.len() implies digests_of(sorted)[i] == block_digests(
        data,
        len,
    )[i] by {
        lemma_number_at_least(sorted, i);
        lemma_number_at_most(sorted, i);
        assert(sorted[i].n_bloco == i);
    }
    assert(digests_of(sorted) =~= block_digests(data, len));
}

} // verus!
