//! Generating a manifest: each file is hashed under the algorithm that its
//! size calls for, and each result is written as a line with the file's path
//! relative to the root.

use crate::digest::is_hex;
use crate::engine::{
    algorithm_for, algorithm_tag, choose_algorithm, file_digest, hash_with,
    lemma_file_digest_is_hex, tag_of_algorithm, HashAlgorithm,
};
use crate::error::HushError;
use crate::manifest::{encode_line, manifest_line, EntryView};
use crate::path::{gera_caminho_relativo, relative_path, starts_with_dot_slash};
use crate::size::{
    format_size, lemma_size_literal_round_trip, parse_size, parse_size_chars, size_literal,
};
use crate::text::{
    chars_equal, chars_to_string, lemma_trim_is_trimmed, lemma_trim_of_trimmed, replace_char,
    replace_in_chars, str_chars, trim, trim_chars,
};
use vstd::prelude::*;

verus! {

/// The settings of one run, fixed at its start.
#[derive(Debug, Clone)]
pub struct Argumentos {
    pub name: String,
    pub n_workers: u32,
    pub n_max_concur: u32,
    pub block_size_str: String,
    pub buffer_size_str: String,
    pub block_size: u64,
    pub buffer_size: u32,
    pub log_enabled: bool,
    pub sub_comando: String,
    pub in_file_path: String,
    pub in_file_filter: String,
    pub recursive_enabled: bool,
    pub out_file_path: String,
    pub flag_show_progress: bool,
    pub flag_stop_on_first_error: bool,
}

/// The block length of a run that sets none: 50 MB.
pub const DEFAULT_BLOCK_SIZE: u64 = 52428800;

/// The buffer length of a run that sets none: 10 KB.
pub const DEFAULT_BUFFER_SIZE: u32 = 10240;

/// The number of workers of a run that sets none.
pub const DEFAULT_WORKERS: u32 = 15;

/// A block length that is not 0, and the size literal that writes it: digits
/// and a unit, with no white space around them.
pub open spec fn is_block_size(block_size: u64, block_size_str: Seq<char>) -> bool {
    &&& block_size > 0
    &&& trim(block_size_str) == block_size_str
    &&& parse_size(block_size_str) == Some(block_size as nat)
}

impl Argumentos {
    /// Settings that a run can work with: the block length is not 0, and
    /// `block_size_str` is the size literal that denotes it, digits and a
    /// unit with no white space around them.
    pub open spec fn wf(&self) -> bool {
        is_block_size(self.block_size, self.block_size_str@)
    }

    /// Whether a run can work with these settings.
    pub fn is_wf(&self) -> (r: bool)
        ensures
            r == self.wf(),
    {
        let text = str_chars(self.block_size_str.as_str());
        let bare = trim_chars(&text);
        self.block_size > 0 && chars_equal(&bare, &text) && match parse_size_chars(&text) {
            Ok(size) => size == self.block_size,
            Err(_) => false,
        }
    }

    /// Sets the block length from a size literal: the literal is kept as it
    /// is given, without the white space around it, and the number of bytes
    /// is what it denotes. Fails, and changes nothing, where the text is no
    /// size literal or denotes no length between 1 and the largest 64-bit
    /// number.
    pub fn set_block_size(&mut self, size_str: &str) -> (r: Result<(), HushError>)
        ensures
            match r {
                Ok(_) => final(self).wf() && final(self).block_size_str@ == trim(size_str@)
                    && *final(self) == (Argumentos {
                    block_size_str: final(self).block_size_str,
                    block_size: final(self).block_size,
                    ..*old(self)
                }),
                Err(e) => e == HushError::InvalidSizeLiteral && *final(self) == *old(self) && (
                match parse_size(size_str@) {
                    Some(n) => n == 0 || n > u64::MAX,
                    None => true,
                }),
            },
    {
        let bare = trim_chars(&str_chars(size_str));
        proof {
            lemma_trim_is_trimmed(size_str@);
            lemma_trim_of_trimmed(bare@);
        }
        match parse_size_chars(&bare) {
            Ok(size) => {
                if size == 0 {
                    return Err(HushError::InvalidSizeLiteral);
                }
                self.block_size_str = chars_to_string(&bare);
                self.block_size = size;
                Ok(())
            },
            Err(e) => Err(e),
        }
    }
}

impl Default for Argumentos {
    /// The settings of a run before any option is read: blocks of 50 MB, a
    /// buffer of 10 KB, 15 workers and 15 blocks of a file at a time, no
    /// progress marks, no log, and no stop on the first error.
    fn default() -> (a: Self)
        ensures
            a.wf(),
            a.block_size == DEFAULT_BLOCK_SIZE,
            a.buffer_size == DEFAULT_BUFFER_SIZE,
            a.block_size_str@ == size_literal(DEFAULT_BLOCK_SIZE as nat),
            a.buffer_size_str@ == size_literal(DEFAULT_BUFFER_SIZE as nat),
            a.n_workers == DEFAULT_WORKERS,
            a.n_max_concur == DEFAULT_WORKERS,
            !a.log_enabled,
            !a.recursive_enabled,
            !a.flag_show_progress,
            !a.flag_stop_on_first_error,
            a.name@ == "hush"@,
            a.sub_comando@.len() == 0,
            a.in_file_path@.len() == 0,
            a.in_file_filter@.len() == 0,
            a.out_file_path@.len() == 0,
    {
        proof {
            lemma_size_literal_round_trip(DEFAULT_BLOCK_SIZE as nat);
            lemma_trim_of_trimmed(size_literal(DEFAULT_BLOCK_SIZE as nat));
        }
        Argumentos {
            name: "hush".to_owned(),
            n_workers: DEFAULT_WORKERS,
            n_max_concur: DEFAULT_WORKERS,
            block_size_str: format_size(DEFAULT_BLOCK_SIZE),
            buffer_size_str: format_size(DEFAULT_BUFFER_SIZE as u64),
            block_size: DEFAULT_BLOCK_SIZE,
            buffer_size: DEFAULT_BUFFER_SIZE,
            log_enabled: false,
            sub_comando: String::new(),
            in_file_path: String::new(),
            in_file_filter: String::new(),
            recursive_enabled: false,
            out_file_path: String::new(),
            flag_show_progress: false,
            flag_stop_on_first_error: false,
        }
    }
}

/// The digest of one file: its path, the tag of the algorithm, the digest.
#[derive(Debug, Clone)]
pub struct TFileHash {
    pub n_arquivo: u64,
    pub path: String,
    pub alg_hash: String,
    pub valor_hash: String,
}

/// The texts of a file's digest.
pub struct ResultView {
    pub path: Seq<char>,
    pub algorithm: Seq<char>,
    pub digest: Seq<char>,
}

impl View for TFileHash {
    type V = ResultView;

    open spec fn view(&self) -> ResultView {
        ResultView { path: self.path@, algorithm: self.alg_hash@, digest: self.valor_hash@ }
    }
}

/// A file as the pipeline is handed it: its path and what reading it gave,
/// `None` where it could not be read.
#[derive(Debug, Clone)]
pub struct SourceFile {
    pub path: String,
    pub content: Option<Vec<u8>>,
}

/// A file's path and bytes.
pub struct FileView {
    pub path: Seq<char>,
    pub content: Option<Seq<u8>>,
}

impl View for SourceFile {
    type V = FileView;

    open spec fn view(&self) -> FileView {
        FileView {
            path: self.path@,
            content: match self.content {
                Some(bytes) => Some(bytes@),
                None => None,
            },
        }
    }
}

pub open spec fn file_views(files: Seq<SourceFile>) -> Seq<FileView> {
    Seq::new(files.len(), |i: int| files[i]@)
}

pub open spec fn result_views(results: Seq<TFileHash>) -> Seq<ResultView> {
    Seq::new(results.len(), |i: int| results[i]@)
}

pub open spec fn string_views(lines: Seq<String>) -> Seq<Seq<char>> {
    Seq::new(lines.len(), |i: int| lines[i]@)
}

/// The digest of content stored under `path`, for a block length and the
/// size literal that writes it: content longer than one block has the tag
/// `hsha256-` before that literal, any other content the tag `sha256`.
pub open spec fn hashed_content(
    path: Seq<char>,
    data: Seq<u8>,
    block_size: u64,
    block_size_str: Seq<char>,
) -> ResultView {
    let alg = algorithm_for(data.len(), block_size);
    ResultView {
        path,
        algorithm: tag_of_algorithm(alg, block_size_str),
        digest: file_digest(data, alg),
    }
}

/// The results for the files that could be read, in the order of the files.
pub open spec fn pipeline_results(
    files: Seq<FileView>,
    block_size: u64,
    block_size_str: Seq<char>,
) -> Seq<ResultView>
    decreases files.len(),
{
    if files.len() == 0 {
        Seq::empty()
    } else {
        let before = pipeline_results(files.drop_last(), block_size, block_size_str);
        match files.last().content {
            Some(data) => before.push(
                hashed_content(files.last().path, data, block_size, block_size_str),
            ),
            None => before,
        }
    }
}

/// A line as a run with this block length writes it: a digest of 64
/// hexadecimal digits, the tag `sha256` or `hsha256-` before the size
/// literal, and a path that starts with `./`.
pub open spec fn is_generated_line(line: Seq<char>, block_size: u64, block_size_str: Seq<char>) -> bool {
    exists|entry: EntryView|
        {
            &&& line == #[trigger] manifest_line(entry)
            &&& entry.digest.len() == 64
            &&& is_hex(entry.digest)
            &&& (entry.algorithm == tag_of_algorithm(HashAlgorithm::Plain, block_size_str)
                || entry.algorithm == tag_of_algorithm(
                HashAlgorithm::Hierarchical { block_size },
                block_size_str,
            ))
            &&& starts_with_dot_slash(entry.relative_path)
        }
}

/// The manifest line for a result: its digest, its tag, and its path
/// relative to `root`. A manifest holds paths that start with `./` only, so a
/// result has a line only where its relative path does: where its path lies
/// under `root` and is not a rooted path under a root without components.
pub open spec fn result_line(result: ResultView, root: Seq<char>) -> Option<Seq<char>> {
    match relative_path(result.path, root) {
        Some(relative) => if starts_with_dot_slash(relative) {
            Some(
                manifest_line(
                    EntryView {
                        digest: result.digest,
                        algorithm: result.algorithm,
                        relative_path: relative,
                    },
                ),
            )
        } else {
            None
        },
        None => None,
    }
}

/// The lines for the results whose paths lie under `root`, in the order of
/// the results.
pub open spec fn pipeline_lines(results: Seq<ResultView>, root: Seq<char>) -> Seq<Seq<char>>
    decreases results.len(),
{
    if results.len() == 0 {
        Seq::empty()
    } else {
        let before = pipeline_lines(results.drop_last(), root);
        match result_line(results.last(), root) {
            Some(line) => before.push(line),
            None => before,
        }
    }
}

/// The root that paths are made relative to: the input path with `/` for `\`.
pub open spec fn pipeline_root(in_file_path: Seq<char>) -> Seq<char> {
    replace_char(in_file_path, '\\', '/')
}

/// Hashes the content of one file: plain SHA-256 unless the content is
/// longer than one block. The tag of a longer file records the block length
/// as `block_size_str` writes it.
pub fn hash_file(
    path: &str,
    content: &[u8],
    block_size: u64,
    block_size_str: &str,
    buffer_size: usize,
) -> (r: TFileHash)
    requires
        is_block_size(block_size, block_size_str@),
    ensures
        r@ == hashed_content(path@, content@, block_size, block_size_str@),
        r.valor_hash@.len() == 64,
        is_hex(r.valor_hash@),
        r.n_arquivo == 0,
{
    let alg = choose_algorithm(content.len() as u64, block_size);
    proof {
        lemma_file_digest_is_hex(content@, alg);
    }
    TFileHash {
        n_arquivo: 0,
        path: path.to_owned(),
        alg_hash: algorithm_tag(alg, block_size_str),
        valor_hash: hash_with(content, alg, buffer_size),
    }
}

/// Writes the manifest line for a result. Fails with `PathNotRelocatable`
/// exactly where the result has no line: its path does not lie under `root`,
/// or its path relative to `root` does not start with `./` and so is no path
/// that a manifest can hold (a rooted path under a root without components).
pub fn manifest_line_for(result: &TFileHash, root: &str) -> (r: Result<String, HushError>)
    ensures
        match result_line(result@, root@) {
            Some(line) => r is Ok && r->Ok_0@ == line && starts_with_dot_slash(
                relative_path(result.path@, root@)->0,
            ),
            None => r == Err::<String, HushError>(HushError::PathNotRelocatable),
        },
{
    match gera_caminho_relativo(result.path.as_str(), root) {
        Some(relative) => {
            let chars = str_chars(relative.as_str());
            if chars.len() >= 2 && chars[0] == '.' && chars[1] == '/' {
                Ok(
                    encode_line(
                        result.valor_hash.as_str(),
                        result.alg_hash.as_str(),
                        relative.as_str(),
                    ),
                )
            } else {
                Err(HushError::PathNotRelocatable)
            }
        },
        None => Err(HushError::PathNotRelocatable),
    }
}

/// Judges a run: it succeeded if and only if as many results were produced
/// as files were discovered.
pub fn pipeline_outcome(discovered: usize, produced: usize) -> (r: Result<(), HushError>)
    ensures
        r == if produced == discovered {
            Ok::<(), HushError>(())
        } else {
            Err::<(), HushError>(HushError::PartialCompletion)
        },
{
    if produced == discovered {
        Ok(())
    } else {
        Err(HushError::PartialCompletion)
    }
}

/// What a run produced.
#[derive(Debug)]
pub struct PipelineReport {
    /// One result for each file that could be read.
    pub results: Vec<TFileHash>,
    /// One manifest line for each result whose path lies under the root.
    pub lines: Vec<String>,
    /// `Ok` if every file gave a result, `PartialCompletion` if not.
    pub outcome: Result<(), HushError>,
}

/// Hashes every file and writes the manifest.
///
/// A file that cannot be read gives no result, and the run then ends in
/// `PartialCompletion`. A result whose path does not lie under the root gives
/// no line; the run goes on. Every line that is written is well-formed.
pub fn process_files(main_args: &Argumentos, files: &Vec<SourceFile>) -> (report: PipelineReport)
    requires
        main_args.wf(),
    ensures
        result_views(report.results@) == pipeline_results(
            file_views(files@),
            main_args.block_size,
            main_args.block_size_str@,
        ),
        string_views(report.lines@) == pipeline_lines(
            result_views(report.results@),
            pipeline_root(main_args.in_file_path@),
        ),
        forall|i: int|
            0 <= i < report.lines@.len() ==> is_generated_line(
                (#[trigger] report.lines@[i])@,
                main_args.block_size,
                main_args.block_size_str@,
            ),
        forall|i: int| 0 <= i < report.results@.len() ==> (#[trigger] report.results@[i]).n_arquivo == 0,
        report.outcome == if report.results@.len() == files@.len() {
            Ok::<(), HushError>(())
        } else {
            Err::<(), HushError>(HushError::PartialCompletion)
        },
{
    let caminho_pai_full = chars_to_string(
        &replace_in_chars(&str_chars(main_args.in_file_path.as_str()), '\\', '/'),
    );
    let ghost root = pipeline_root(main_args.in_file_path@);
    let ghost all = file_views(files@);
    let mut results: Vec<TFileHash> = Vec::new();
    let mut lines: Vec<String> = Vec::new();
    let mut i: usize = 0;
    assert(all.take(0) =~= Seq::<FileView>::empty());
    assert(result_views(results@) =~= Seq::<ResultView>::empty());
    assert(string_views(lines@) =~= Seq::<Seq<char>>::empty());
    while i < files.len()
        invariant
            i <= files.len(),
            main_args.wf(),
            all == file_views(files@),
            root == caminho_pai_full@,
            result_views(results@) == pipeline_results(
                all.take(i as int),
                main_args.block_size,
                main_args.block_size_str@,
            ),
            string_views(lines@) == pipeline_lines(result_views(results@), root),
            forall|k: int|
                0 <= k < lines@.len() ==> is_generated_line(
                    (#[trigger] lines@[k])@,
                    main_args.block_size,
                    main_args.block_size_str@,
                ),
            forall|k: int| 0 <= k < results@.len() ==> (#[trigger] results@[k]).n_arquivo == 0,
        decreases files.len() - i,
    {
        let file = &files[i];
        proof {
            assert(all.take(i + 1).drop_last() =~= all.take(i as int));
            assert(all.take(i + 1).last() == files@[i as int]@);
        }
        match &file.content {
            Some(data) => {
                let result = hash_file(
                    file.path.as_str(),
                    data.as_slice(),
                    main_args.block_size,
                    main_args.block_size_str.as_str(),
                    main_args.buffer_size as usize,
                );
                let ghost old_results = result_views(results@);
                let ghost old_lines = string_views(lines@);
                match manifest_line_for(&result, caminho_pai_full.as_str()) {
                    Ok(line) => {
                        proof {
                            let entry = EntryView {
                                digest: result@.digest,
                                algorithm: result@.algorithm,
                                relative_path: relative_path(result@.path, root)->0,
                            };
                            assert(line@ == manifest_line(entry));
                            assert(is_generated_line(
                                line@,
                                main_args.block_size,
                                main_args.block_size_str@,
                            ));
                        }
                        lines.push(line);
                        assert(string_views(lines@) =~= old_lines.push(line@));
                    },
                    Err(_) => {},
                }
                results.push(result);
                proof {
                    assert(result_views(results@) =~= old_results.push(result@));
                    assert(old_results.push(result@).drop_last() =~= old_results);
                }
            },
            None => {},
        }
        i += 1;
    }
    assert(all.take(files.len() as int) =~= all);
    let outcome = pipeline_outcome(files.len(), results.len());
    PipelineReport { results, lines, outcome }
}

} // verus!
