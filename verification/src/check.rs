//! Verifying a manifest: each line is read, the file it names is looked up
//! and hashed again under the recorded algorithm, and the digests are
//! compared. Every line ends in a match or in one error, which is counted.

use crate::engine::{algorithm_of_tag, decode_algorithm, file_digest, hash_with, HashAlgorithm};
use crate::error::HushError;
use crate::manifest::{lemma_line_without_separator, parse_line, parse_manifest_line};
use crate::path::{full_path, gera_caminho_completo, path_components, same_path};
use crate::pipeline::{file_views, string_views, Argumentos, FileView, SourceFile};
use crate::text::{chars_equal, lower, lower_chars, str_chars, trim, trim_chars};
use vstd::prelude::*;

verus! {

/// Whether a recorded and a computed digest agree: as text, without regard to
/// case and to white space around them.
pub open spec fn digests_agree(recorded: Seq<char>, computed: Seq<char>) -> bool {
    trim(lower(recorded)) == trim(lower(computed))
}

/// The first of `files` whose path has the components of `path`.
pub open spec fn find_file(files: Seq<FileView>, path: Seq<char>) -> Option<FileView>
    decreases files.len(),
{
    if files.len() == 0 {
        None
    } else if path_components(files[0].path) == path_components(path) {
        Some(files[0])
    } else {
        find_file(files.drop_first(), path)
    }
}

/// How one manifest line ends, for files below `work_dir`.
///
/// In this order: a line that cannot be read is `ManifestMalformed`; a path
/// that names no file is `FileNotFound`; a tag that names no algorithm is
/// `InvalidSizeLiteral`; a file that cannot be read is `IoFailure`; a digest
/// that differs is `DigestMismatch`.
pub open spec fn line_verdict(line: Seq<char>, work_dir: Seq<char>, files: Seq<FileView>) -> Result<
    (),
    HushError,
> {
    match parse_manifest_line(line) {
        None => Err(HushError::ManifestMalformed),
        Some(entry) => match find_file(files, full_path(entry.relative_path, work_dir)) {
            None => Err(HushError::FileNotFound),
            Some(file) => match algorithm_of_tag(entry.algorithm) {
                Err(e) => Err(e),
                Ok(alg) => match file.content {
                    None => Err(HushError::IoFailure),
                    Some(data) => if digests_agree(entry.digest, file_digest(data, alg)) {
                        Ok(())
                    } else {
                        Err(HushError::DigestMismatch)
                    },
                },
            },
        },
    }
}

/// How the lines end, one after the other. With `stop`, the first error is
/// the last line looked at.
pub open spec fn line_verdicts(
    lines: Seq<Seq<char>>,
    work_dir: Seq<char>,
    files: Seq<FileView>,
    stop: bool,
) -> Seq<Result<(), HushError>>
    decreases lines.len(),
{
    if lines.len() == 0 {
        Seq::empty()
    } else {
        let first = line_verdict(lines[0], work_dir, files);
        if first is Err && stop {
            seq![first]
        } else {
            seq![first] + line_verdicts(lines.drop_first(), work_dir, files, stop)
        }
    }
}

/// How many of the verdicts are matches.
pub open spec fn count_matches(verdicts: Seq<Result<(), HushError>>) -> nat
    decreases verdicts.len(),
{
    if verdicts.len() == 0 {
        0
    } else {
        count_matches(verdicts.drop_last()) + if verdicts.last() is Ok {
            1nat
        } else {
            0nat
        }
    }
}

pub proof fn lemma_count_matches_bound(verdicts: Seq<Result<(), HushError>>)
    ensures
        count_matches(verdicts) <= verdicts.len(),
    decreases verdicts.len(),
{
    if verdicts.len() > 0 {
        lemma_count_matches_bound(verdicts.drop_last());
    }
}

/// The lines looked at so far, and how many of them matched and how many
/// ended in an error.
#[derive(Clone, Copy, Debug, PartialEq, Eq, Structural)]
pub struct VerificationTally {
    pub lines_total: u64,
    pub matches: u64,
    pub errors: u64,
}

impl VerificationTally {
    /// Every line is a match or an error.
    pub open spec fn wf(&self) -> bool {
        self.matches + self.errors == self.lines_total
    }

    /// The tally of the given verdicts.
    pub open spec fn counts(&self, verdicts: Seq<Result<(), HushError>>) -> bool {
        &&& self.lines_total == verdicts.len()
        &&& self.matches == count_matches(verdicts)
        &&& self.errors == verdicts.len() - count_matches(verdicts)
    }

    /// The tally before the first line.
    pub fn new() -> (tally: Self)
        ensures
            tally.wf(),
            tally.counts(Seq::empty()),
    {
        VerificationTally { lines_total: 0, matches: 0, errors: 0 }
    }

    /// Counts one line and how it ended.
    pub fn record(&mut self, verdict: &Result<(), HushError>)
        requires
            old(self).wf(),
            old(self).lines_total < u64::MAX,
        ensures
            final(self).wf(),
            final(self).lines_total == old(self).lines_total + 1,
            final(self).matches == old(self).matches + if verdict is Ok {
                1int
            } else {
                0int
            },
            final(self).errors == old(self).errors + if verdict is Err {
                1int
            } else {
                0int
            },
            forall|seen: Seq<Result<(), HushError>>|
                old(self).counts(seen) ==> #[trigger] final(self).counts(seen.push(*verdict)),
    {
        self.lines_total = self.lines_total + 1;
        match verdict {
            Ok(_) => {
                self.matches = self.matches + 1;
            },
            Err(_) => {
                self.errors = self.errors + 1;
            },
        }
        proof {
            assert forall|seen: Seq<Result<(), HushError>>| old(self).counts(seen) implies (
            #[trigger] self.counts(seen.push(*verdict))) by {
                assert(seen.push(*verdict).drop_last() =~= seen);
                lemma_count_matches_bound(seen);
            }
        }
    }

    /// Whether the run succeeded: every line looked at was a match.
    pub fn is_success(&self) -> (ok: bool)
        ensures
            ok == (self.matches == self.lines_total),
    {
        self.matches == self.lines_total
    }
}

/// Compares a recorded digest with a computed one, without regard to case
/// and to white space around them.
pub fn digests_match(recorded: &str, computed: &str) -> (r: bool)
    ensures
        r == digests_agree(recorded@, computed@),
{
    let a = trim_chars(&lower_chars(&str_chars(recorded)));
    let b = trim_chars(&lower_chars(&str_chars(computed)));
    chars_equal(&a, &b)
}

/// The verdict on a file whose digest was computed anew.
pub fn judge_digest(recorded: &str, computed: &str) -> (r: Result<(), HushError>)
    ensures
        r == if digests_agree(recorded@, computed@) {
            Ok::<(), HushError>(())
        } else {
            Err::<(), HushError>(HushError::DigestMismatch)
        },
{
    if digests_match(recorded, computed) {
        Ok(())
    } else {
        Err(HushError::DigestMismatch)
    }
}

/// Whether verification ends after this line: only after an error, and only
/// where the run is to stop on the first one.
pub fn should_stop(verdict: &Result<(), HushError>, stop_on_first_error: bool) -> (stop: bool)
    ensures
        stop == (verdict is Err && stop_on_first_error),
{
    verdict.is_err() && stop_on_first_error
}

/// Looks a path up among `files`, by its components.
pub fn lookup_file<'a>(files: &'a Vec<SourceFile>, path: &str) -> (r: Option<&'a SourceFile>)
    ensures
        match r {
            Some(file) => find_file(file_views(files@), path@) == Some(file@),
            None => find_file(file_views(files@), path@) is None,
        },
{
    let ghost all = file_views(files@);
    let mut i: usize = 0;
    assert(all.skip(0) =~= all);
    while i < files.len()
        invariant
            i <= files.len(),
            all == file_views(files@),
            find_file(all, path@) == find_file(all.skip(i as int), path@),
        decreases files.len() - i,
    {
        proof {
            assert(all.skip(i as int)[0] == files@[i as int]@);
            assert(all.skip(i as int).drop_first() =~= all.skip(i + 1));
        }
        if same_path(files[i].path.as_str(), path) {
            return Some(&files[i]);
        }
        i += 1;
    }
    None
}

/// One manifest line on its way through verification: the digest it
/// records, the tag of the algorithm, and the path of the file below the
/// work directory.
#[derive(Debug)]
pub struct LineTask {
    pub recorded: String,
    pub algorithm: String,
    pub file_path: String,
}

/// The first step on a line: reading it and resolving its path below
/// `work_dir`. Fails with `ManifestMalformed` exactly where the line has no
/// `?`, or no `*` behind it.
pub fn begin_line(line: &str, work_dir: &str) -> (r: Result<LineTask, HushError>)
    ensures
        match parse_manifest_line(line@) {
            Some(entry) => r is Ok && r->Ok_0.recorded@ == entry.digest && r->Ok_0.algorithm@
                == entry.algorithm && r->Ok_0.file_path@ == full_path(
                entry.relative_path,
                work_dir@,
            ),
            None => r is Err && r->Err_0 == HushError::ManifestMalformed,
        },
{
    match parse_line(line) {
        Some(entry) => {
            let file_path = gera_caminho_completo(entry.relative_path.as_str(), work_dir);
            Ok(LineTask { recorded: entry.digest, algorithm: entry.algorithm, file_path })
        },
        None => Err(HushError::ManifestMalformed),
    }
}

impl LineTask {
    /// The second step, once it is known whether the file is there: the
    /// algorithm to hash it with. `FileNotFound` where the file is absent,
    /// else `InvalidSizeLiteral` where the tag names no algorithm.
    pub fn algorithm_for_file(&self, file_found: bool) -> (r: Result<HashAlgorithm, HushError>)
        ensures
            r == if file_found {
                algorithm_of_tag(self.algorithm@)
            } else {
                Err::<HashAlgorithm, HushError>(HushError::FileNotFound)
            },
            r is Ok ==> r->Ok_0.wf(),
    {
        if file_found {
            decode_algorithm(self.algorithm.as_str())
        } else {
            Err(HushError::FileNotFound)
        }
    }

    /// The last step, once the file was hashed: `IoFailure` where it could
    /// not be read, a match where the digests agree, else `DigestMismatch`.
    pub fn judge(&self, computed: Option<&str>) -> (r: Result<(), HushError>)
        ensures
            r == match computed {
                None => Err::<(), HushError>(HushError::IoFailure),
                Some(digest) => if digests_agree(self.recorded@, digest@) {
                    Ok::<(), HushError>(())
                } else {
                    Err::<(), HushError>(HushError::DigestMismatch)
                },
            },
    {
        match computed {
            None => Err(HushError::IoFailure),
            Some(digest) => judge_digest(self.recorded.as_str(), digest),
        }
    }
}

/// Verifies one manifest line against the files below `work_dir`.
pub fn check_line(line: &str, work_dir: &str, files: &Vec<SourceFile>, buffer_size: usize) -> (r:
    Result<(), HushError>)
    ensures
        r == line_verdict(line@, work_dir@, file_views(files@)),
{
    let task = match begin_line(line, work_dir) {
        Ok(task) => task,
        Err(e) => {
            return Err(e);
        },
    };
    let found = lookup_file(files, task.file_path.as_str());
    let alg = match task.algorithm_for_file(found.is_some()) {
        Ok(alg) => alg,
        Err(e) => {
            return Err(e);
        },
    };
    match found {
        None => Err(HushError::FileNotFound),
        Some(file) => match &file.content {
            None => task.judge(None),
            Some(data) => {
                let hash_calculado = hash_with(data.as_slice(), alg, buffer_size);
                task.judge(Some(hash_calculado.as_str()))
            },
        },
    }
}

/// What a verification found.
#[derive(Debug)]
pub struct VerificationReport {
    /// The counts over the lines looked at.
    pub tally: VerificationTally,
    /// How each line looked at ended, in the order of the lines.
    pub verdicts: Vec<Result<(), HushError>>,
    /// Whether every line looked at was a match.
    pub success: bool,
}

/// Verifies a manifest, line by line, against the files below `work_dir`.
///
/// Every error is counted. Where the run is to stop on the first error, no
/// line behind that error is looked at; otherwise every line is.
pub fn check_hash(
    main_args: &Argumentos,
    manifest: &Vec<String>,
    work_dir: &str,
    files: &Vec<SourceFile>,
) -> (report: VerificationReport)
    ensures
        report.verdicts@ == line_verdicts(
            string_views(manifest@),
            work_dir@,
            file_views(files@),
            main_args.flag_stop_on_first_error,
        ),
        report.tally.wf(),
        report.tally.counts(report.verdicts@),
        report.success == (report.tally.errors == 0),
{
    let ghost lines = string_views(manifest@);
    let ghost stop = main_args.flag_stop_on_first_error;
    let ghost whole = line_verdicts(lines, work_dir@, file_views(files@), stop);
    let mut tally = VerificationTally::new();
    let mut verdicts: Vec<Result<(), HushError>> = Vec::new();
    let mut i: usize = 0;
    assert(lines.skip(0) =~= lines);
    while i < manifest.len()
        invariant
            i <= manifest.len(),
            lines == string_views(manifest@),
            stop == main_args.flag_stop_on_first_error,
            whole == line_verdicts(lines, work_dir@, file_views(files@), stop),
            whole == verdicts@ + line_verdicts(
                lines.skip(i as int),
                work_dir@,
                file_views(files@),
                stop,
            ),
            verdicts@.len() == i,
            tally.wf(),
            tally.counts(verdicts@),
        decreases manifest.len() - i,
    {
        proof {
            assert(lines.skip(i as int)[0] == manifest@[i as int]@);
            assert(lines.skip(i as int).drop_first() =~= lines.skip(i + 1));
        }
        let verdict = check_line(
            manifest[i].as_str(),
            work_dir,
            files,
            main_args.buffer_size as usize,
        );
        let ghost seen = verdicts@;
        tally.record(&verdict);
        verdicts.push(verdict);
        assert(tally.counts(seen.push(verdict)));
        if should_stop(&verdict, main_args.flag_stop_on_first_error) {
            assert(whole =~= verdicts@);
            let success = tally.is_success();
            return VerificationReport { tally, verdicts, success };
        }
        assert(seen + (seq![verdict] + line_verdicts(
            lines.skip(i + 1),
            work_dir@,
            file_views(files@),
            stop,
        )) =~= verdicts@ + line_verdicts(lines.skip(i + 1), work_dir@, file_views(files@), stop));
        i += 1;
    }
    assert(whole =~= verdicts@);
    let success = tally.is_success();
    VerificationReport { tally, verdicts, success }
}

/// The file that a path finds is the first one with the path's components.
pub proof fn lemma_find_file_is(files: Seq<FileView>, path: Seq<char>, k: int)
    requires
        0 <= k < files.len(),
        path_components(files[k].path) == path_components(path),
        forall|j: int|
            0 <= j < k ==> path_components((#[trigger] files[j]).path) != path_components(path),
    ensures
        find_file(files, path) == Some(files[k]),
    decreases k,
{
    if k > 0 {
        let rest = files.drop_first();
        assert(path_components(files[0].path) != path_components(path));
        assert(rest[k - 1] == files[k]);
        assert forall|j: int| 0 <= j < k - 1 implies path_components((#[trigger] rest[j]).path)
            != path_components(path) by {
            assert(rest[j] == files[j + 1]);
        }
        lemma_find_file_is(rest, path, k - 1);
    }
}

/// The verdicts on all lines, each for itself.
pub open spec fn each_verdict(lines: Seq<Seq<char>>, work_dir: Seq<char>, files: Seq<FileView>) -> Seq<
    Result<(), HushError>,
> {
    Seq::new(lines.len(), |i: int| line_verdict(lines[i], work_dir, files))
}

/// A run that does not stop on the first error looks at every line.
pub proof fn lemma_verdicts_without_stop(
    lines: Seq<Seq<char>>,
    work_dir: Seq<char>,
    files: Seq<FileView>,
)
    ensures
        line_verdicts(lines, work_dir, files, false) == each_verdict(lines, work_dir, files),
    decreases lines.len(),
{
    if lines.len() > 0 {
        let rest = lines.drop_first();
        lemma_verdicts_without_stop(rest, work_dir, files);
        let first = line_verdict(lines[0], work_dir, files);
        assert(seq![first] + each_verdict(rest, work_dir, files) =~= each_verdict(
            lines,
            work_dir,
            files,
        ));
    } else {
        assert(each_verdict(lines, work_dir, files) =~= Seq::<Result<(), HushError>>::empty());
    }
}

/// A run in which no line ends in an error looks at every line, whether it
/// would stop on an error or not.
pub proof fn lemma_verdicts_without_error(
    lines: Seq<Seq<char>>,
    work_dir: Seq<char>,
    files: Seq<FileView>,
    stop: bool,
)
    requires
        forall|i: int| 0 <= i < lines.len() ==> line_verdict(#[trigger] lines[i], work_dir, files) is Ok,
    ensures
        line_verdicts(lines, work_dir, files, stop) == each_verdict(lines, work_dir, files),
    decreases lines.len(),
{
    if lines.len() > 0 {
        let rest = lines.drop_first();
        assert forall|i: int| 0 <= i < rest.len() implies line_verdict(
            #[trigger] rest[i],
            work_dir,
            files,
        ) is Ok by {
            assert(rest[i] == lines[i + 1]);
        }
        lemma_verdicts_without_error(rest, work_dir, files, stop);
        let first = line_verdict(lines[0], work_dir, files);
        assert(first is Ok);
        assert(seq![first] + each_verdict(rest, work_dir, files) =~= each_verdict(
            lines,
            work_dir,
            files,
        ));
    } else {
        assert(each_verdict(lines, work_dir, files) =~= Seq::<Result<(), HushError>>::empty());
    }
}

/// Verdicts without an error are all matches.
pub proof fn lemma_count_all_matches(verdicts: Seq<Result<(), HushError>>)
    requires
        forall|i: int| 0 <= i < verdicts.len() ==> (#[trigger] verdicts[i]) is Ok,
    ensures
        count_matches(verdicts) == verdicts.len(),
    decreases verdicts.len(),
{
    if verdicts.len() > 0 {
        let init = verdicts.drop_last();
        assert forall|i: int| 0 <= i < init.len() implies (#[trigger] init[i]) is Ok by {
            assert(init[i] == verdicts[i]);
        }
        lemma_count_all_matches(init);
        assert(verdicts[verdicts.len() - 1] is Ok);
    }
}

/// Verdicts with one error are matches but for that one.
pub proof fn lemma_count_matches_but_one(verdicts: Seq<Result<(), HushError>>, k: int)
    requires
        0 <= k < verdicts.len(),
        verdicts[k] is Err,
        forall|i: int| 0 <= i < verdicts.len() && i != k ==> (#[trigger] verdicts[i]) is Ok,
    ensures
        count_matches(verdicts) == verdicts.len() - 1,
    decreases verdicts.len(),
{
    let init = verdicts.drop_last();
    if k == verdicts.len() - 1 {
        assert forall|i: int| 0 <= i < init.len() implies (#[trigger] init[i]) is Ok by {
            assert(init[i] == verdicts[i]);
        }
        lemma_count_all_matches(init);
    } else {
        assert(init[k] == verdicts[k]);
        assert forall|i: int| 0 <= i < init.len() && i != k implies (#[trigger] init[i]) is Ok by {
            assert(init[i] == verdicts[i]);
        }
        lemma_count_matches_but_one(init, k);
        assert(verdicts[verdicts.len() - 1] is Ok);
    }
}

/// A line that ends in an error is not among the matches.
pub proof fn lemma_error_is_counted(verdicts: Seq<Result<(), HushError>>, k: int)
    requires
        0 <= k < verdicts.len(),
        verdicts[k] is Err,
    ensures
        count_matches(verdicts) < verdicts.len(),
    decreases verdicts.len(),
{
    let init = verdicts.drop_last();
    lemma_count_matches_bound(init);
    if k < verdicts.len() - 1 {
        assert(init[k] == verdicts[k]);
        lemma_error_is_counted(init, k);
    }
}

/// A line without `?` or without `*` ends in `ManifestMalformed` and is
/// counted as an error. Where the run does not stop on the first error,
/// every other line is verified as it would be without that line.
pub proof fn lemma_malformed_line_is_counted_and_passed(
    lines: Seq<Seq<char>>,
    work_dir: Seq<char>,
    files: Seq<FileView>,
    k: int,
)
    requires
        0 <= k < lines.len(),
        !lines[k].contains('?') || !lines[k].contains('*'),
    ensures
        line_verdict(lines[k], work_dir, files) == Err::<(), HushError>(
            HushError::ManifestMalformed,
        ),
        line_verdicts(lines, work_dir, files, false).len() == lines.len(),
        forall|i: int|
            0 <= i < lines.len() ==> #[trigger] line_verdicts(lines, work_dir, files, false)[i]
                == line_verdict(lines[i], work_dir, files),
        count_matches(line_verdicts(lines, work_dir, files, false)) < lines.len(),
{
    lemma_line_without_separator(lines[k]);
    lemma_verdicts_without_stop(lines, work_dir, files);
    let all = line_verdicts(lines, work_dir, files, false);
    assert(all[k] is Err);
    lemma_error_is_counted(all, k);
}

} // verus!
