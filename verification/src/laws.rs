//! What holds of generating a manifest and verifying it afterwards.

use crate::check::{
    count_matches, each_verdict, lemma_count_all_matches, lemma_count_matches_but_one,
    lemma_find_file_is, lemma_verdicts_without_error, lemma_verdicts_without_stop, line_verdict,
    line_verdicts,
};
use crate::digest::lemma_hex_text;
use crate::engine::{
    algorithm_for, file_digest, lemma_file_digest_is_hex, lemma_tag_has_no_star,
    lemma_tag_round_trip,
};
use crate::error::HushError;
use crate::manifest::{lemma_manifest_round_trip, manifest_line, EntryView};
use crate::path::{
    full_path, lemma_relative_path_below_parent, lemma_relative_round_trip, normalized,
    path_components, relative_path,
};
use crate::pipeline::{
    hashed_content, is_block_size, pipeline_lines, pipeline_results, result_line, FileView,
    ResultView,
};
use vstd::prelude::*;

verus! {

/// A tree that a manifest can be generated for and verified against: the
/// root is not empty, every file can be read and lies under it, no two files
/// share a path, and the root and the relative paths are read back as they
/// stand (no `\`, no white space at either end).
pub open spec fn is_verifiable_tree(files: Seq<FileView>, root: Seq<char>) -> bool {
    &&& root.len() > 0
    &&& normalized(root) == root
    &&& forall|i: int| 0 <= i < files.len() ==> (#[trigger] files[i]).content is Some
    &&& forall|i: int|
        0 <= i < files.len() ==> {
            let path = (#[trigger] files[i]).path;
            &&& relative_path(path, root) is Some
            &&& normalized(relative_path(path, root)->0) == relative_path(path, root)->0
        }
    &&& forall|i: int, j: int|
        0 <= i < j < files.len() ==> path_components((#[trigger] files[i]).path)
            != path_components((#[trigger] files[j]).path)
}

/// The same files in the same places, whatever they hold.
pub open spec fn same_paths(a: Seq<FileView>, b: Seq<FileView>) -> bool {
    &&& a.len() == b.len()
    &&& forall|i: int| 0 <= i < a.len() ==> (#[trigger] a[i]).path == b[i].path
}

/// The result for file `i` of a tree in which every file can be read.
pub open spec fn result_at(
    files: Seq<FileView>,
    block_size: u64,
    block_size_str: Seq<char>,
    i: int,
) -> ResultView {
    hashed_content(files[i].path, files[i].content->0, block_size, block_size_str)
}

/// Where every file can be read, each has its result.
pub proof fn lemma_results_of_readable(
    files: Seq<FileView>,
    block_size: u64,
    block_size_str: Seq<char>,
)
    requires
        forall|i: int| 0 <= i < files.len() ==> (#[trigger] files[i]).content is Some,
    ensures
        pipeline_results(files, block_size, block_size_str) == Seq::new(
            files.len(),
            |i: int| result_at(files, block_size, block_size_str, i),
        ),
    decreases files.len(),
{
    if files.len() > 0 {
        let init = files.drop_last();
        assert forall|i: int| 0 <= i < init.len() implies (#[trigger] init[i]).content is Some by {
            assert(init[i] == files[i]);
        }
        lemma_results_of_readable(init, block_size, block_size_str);
        assert(files[files.len() - 1].content is Some);
    }
    assert(pipeline_results(files, block_size, block_size_str) =~= Seq::new(
        files.len(),
        |i: int| result_at(files, block_size, block_size_str, i),
    ));
}

/// Where every result lies under the root, each has its line.
pub proof fn lemma_lines_of_relocatable(results: Seq<ResultView>, root: Seq<char>)
    requires
        forall|i: int| 0 <= i < results.len() ==> result_line(#[trigger] results[i], root) is Some,
    ensures
        pipeline_lines(results, root) == Seq::new(
            results.len(),
            |i: int| result_line(results[i], root)->0,
        ),
    decreases results.len(),
{
    if results.len() > 0 {
        let init = results.drop_last();
        assert forall|i: int| 0 <= i < init.len() implies result_line(
            #[trigger] init[i],
            root,
        ) is Some by {
            assert(init[i] == results[i]);
        }
        lemma_lines_of_relocatable(init, root);
        assert(result_line(results[results.len() - 1], root) is Some);
    }
    assert(pipeline_lines(results, root) =~= Seq::new(
        results.len(),
        |i: int| result_line(results[i], root)->0,
    ));
}

/// The manifest of a verifiable tree has one line for each file.
pub proof fn lemma_manifest_of_tree(
    files: Seq<FileView>,
    root: Seq<char>,
    block_size: u64,
    block_size_str: Seq<char>,
)
    requires
        is_verifiable_tree(files, root),
    ensures
        pipeline_lines(pipeline_results(files, block_size, block_size_str), root) == Seq::new(
            files.len(),
            |i: int| result_line(result_at(files, block_size, block_size_str, i), root)->0,
        ),
        forall|i: int|
            0 <= i < files.len() ==> result_line(
                #[trigger] result_at(files, block_size, block_size_str, i),
                root,
            ) is Some,
{
    lemma_results_of_readable(files, block_size, block_size_str);
    let results = pipeline_results(files, block_size, block_size_str);
    assert forall|i: int| 0 <= i < results.len() implies result_line(
        #[trigger] results[i],
        root,
    ) is Some by {
        assert(results[i] == result_at(files, block_size, block_size_str, i));
        assert(relative_path(files[i].path, root) is Some);
        lemma_relative_path_below_parent(files[i].path, root);
    }
    assert forall|i: int| 0 <= i < files.len() implies result_line(
        #[trigger] result_at(files, block_size, block_size_str, i),
        root,
    ) is Some by {
        assert(relative_path(files[i].path, root) is Some);
        lemma_relative_path_below_parent(files[i].path, root);
    }
    lemma_lines_of_relocatable(results, root);
    assert(Seq::new(results.len(), |i: int| result_line(results[i], root)->0) =~= Seq::new(
        files.len(),
        |i: int| result_line(result_at(files, block_size, block_size_str, i), root)->0,
    ));
}

/// How the line generated for file `i` of a tree ends when it is verified
/// against files in the same places: in `IoFailure` if the file there cannot
/// be read, in a match if its digest under the recorded algorithm is the
/// recorded one, in `DigestMismatch` if not.
pub proof fn lemma_verdict_on_generated_line(
    files: Seq<FileView>,
    root: Seq<char>,
    block_size: u64,
    block_size_str: Seq<char>,
    present: Seq<FileView>,
    i: int,
)
    requires
        is_block_size(block_size, block_size_str),
        is_verifiable_tree(files, root),
        same_paths(files, present),
        0 <= i < files.len(),
    ensures
        ({
            let result = result_at(files, block_size, block_size_str, i);
            let line = result_line(result, root)->0;
            let alg = algorithm_for(files[i].content->0.len(), block_size);
            line_verdict(line, root, present) == match present[i].content {
                None => Err::<(), HushError>(HushError::IoFailure),
                Some(data) => if file_digest(data, alg) == result.digest {
                    Ok::<(), HushError>(())
                } else {
                    Err::<(), HushError>(HushError::DigestMismatch)
                },
            }
        }),
{
    let file = files[i];
    let data = file.content->0;
    let alg = algorithm_for(data.len(), block_size);
    let result = result_at(files, block_size, block_size_str, i);
    let relative = relative_path(file.path, root)->0;
    let entry = EntryView {
        digest: result.digest,
        algorithm: result.algorithm,
        relative_path: relative,
    };
    let line = manifest_line(entry);
    lemma_relative_path_below_parent(file.path, root);
    assert(result_line(result, root) == Some(line));
    lemma_file_digest_is_hex(data, alg);
    lemma_hex_text(result.digest);
    lemma_tag_has_no_star(alg, block_size_str);
    lemma_manifest_round_trip(entry);
    lemma_relative_round_trip(file.path, root);
    let full = full_path(relative, root);
    assert(present[i].path == file.path);
    assert forall|j: int| 0 <= j < i implies path_components((#[trigger] present[j]).path)
        != path_components(full) by {
        assert(present[j].path == files[j].path);
        assert(path_components(files[j].path) != path_components(files[i].path));
    }
    lemma_find_file_is(present, full, i);
    lemma_tag_round_trip(alg, block_size_str);
    match present[i].content {
        None => {},
        Some(other) => {
            lemma_file_digest_is_hex(other, alg);
            lemma_hex_text(file_digest(other, alg));
        },
    }
}

/// A manifest generated for a tree and verified against that tree has no
/// error: every file has its line, every line is looked at, and every line
/// is a match.
pub proof fn lemma_generated_manifest_verifies(
    files: Seq<FileView>,
    root: Seq<char>,
    block_size: u64,
    block_size_str: Seq<char>,
    stop: bool,
)
    requires
        is_block_size(block_size, block_size_str),
        is_verifiable_tree(files, root),
    ensures
        ({
            let lines = pipeline_lines(pipeline_results(files, block_size, block_size_str), root);
            let verdicts = line_verdicts(lines, root, files, stop);
            &&& lines.len() == files.len()
            &&& verdicts.len() == lines.len()
            &&& forall|i: int| 0 <= i < verdicts.len() ==> (#[trigger] verdicts[i]) is Ok
            &&& count_matches(verdicts) == lines.len()
        }),
{
    lemma_manifest_of_tree(files, root, block_size, block_size_str);
    let lines = pipeline_lines(pipeline_results(files, block_size, block_size_str), root);
    assert forall|i: int| 0 <= i < lines.len() implies line_verdict(
        #[trigger] lines[i],
        root,
        files,
    ) is Ok by {
        lemma_verdict_on_generated_line(files, root, block_size, block_size_str, files, i);
    }
    lemma_verdicts_without_error(lines, root, files, stop);
    let verdicts = line_verdicts(lines, root, files, stop);
    assert(verdicts == each_verdict(lines, root, files));
    lemma_count_all_matches(verdicts);
}

/// Where one file of a tree is changed after the manifest was generated, and
/// the run does not stop on the first error, the line of that file ends in
/// `DigestMismatch` and every other line is a match.
///
/// The changed content must not have the digest of the old content under the
/// recorded algorithm; no more is asked of it.
pub proof fn lemma_changed_file_is_the_one_mismatch(
    files: Seq<FileView>,
    root: Seq<char>,
    block_size: u64,
    block_size_str: Seq<char>,
    k: int,
    changed: Seq<u8>,
)
    requires
        is_block_size(block_size, block_size_str),
        is_verifiable_tree(files, root),
        0 <= k < files.len(),
        file_digest(changed, algorithm_for(files[k].content->0.len(), block_size)) != file_digest(
            files[k].content->0,
            algorithm_for(files[k].content->0.len(), block_size),
        ),
    ensures
        ({
            let lines = pipeline_lines(pipeline_results(files, block_size, block_size_str), root);
            let present = files.update(
                k,
                FileView { path: files[k].path, content: Some(changed) },
            );
            let verdicts = line_verdicts(lines, root, present, false);
            &&& verdicts.len() == files.len()
            &&& verdicts[k] == Err::<(), HushError>(HushError::DigestMismatch)
            &&& forall|i: int|
                0 <= i < verdicts.len() && i != k ==> (#[trigger] verdicts[i]) is Ok
            &&& count_matches(verdicts) == files.len() - 1
        }),
{
    lemma_manifest_of_tree(files, root, block_size, block_size_str);
    let lines = pipeline_lines(pipeline_results(files, block_size, block_size_str), root);
    let present = files.update(k, FileView { path: files[k].path, content: Some(changed) });
    assert(same_paths(files, present));
    lemma_verdicts_without_stop(lines, root, present);
    let verdicts = line_verdicts(lines, root, present, false);
    assert(verdicts == each_verdict(lines, root, present));
    assert forall|i: int| 0 <= i < verdicts.len() implies (i != k ==> (
    #[trigger] verdicts[i]) is Ok) && (i == k ==> verdicts[i] == Err::<(), HushError>(
        HushError::DigestMismatch,
    )) by {
        lemma_verdict_on_generated_line(files, root, block_size, block_size_str, present, i);
        if i != k {
            assert(present[i] == files[i]);
        }
    }
    lemma_count_matches_but_one(verdicts, k);
}

} // verus!
