//! Manifest lines: a digest, a blank, `?`, the algorithm tag, `*`, and the
//! path relative to the root.

use crate::text::{
    append_chars, chars_to_string, first_index, is_trimmed, lemma_first_index,
    lemma_first_index_is, lemma_trim_ignores_trailing_space, lemma_trim_of_trimmed,
    split_chars_once, split_once, str_chars, trim, trim_chars,
};
use vstd::prelude::*;

verus! {

/// What one manifest line records.
#[derive(Debug)]
pub struct ManifestEntry {
    pub digest: String,
    pub algorithm: String,
    pub relative_path: String,
}

/// The three texts of an entry.
pub struct EntryView {
    pub digest: Seq<char>,
    pub algorithm: Seq<char>,
    pub relative_path: Seq<char>,
}

impl View for ManifestEntry {
    type V = EntryView;

    open spec fn view(&self) -> EntryView {
        EntryView {
            digest: self.digest@,
            algorithm: self.algorithm@,
            relative_path: self.relative_path@,
        }
    }
}

/// The line that records an entry.
pub open spec fn manifest_line(entry: EntryView) -> Seq<char> {
    entry.digest + seq![' ', '?'] + entry.algorithm + seq!['*'] + entry.relative_path
}

/// What a line records: the digest is the text before the first `?` without
/// the white space around it, the algorithm the text from there to the next
/// `*`, the path all that follows. `None` where the line has no `?`, or no
/// `*` behind it.
pub open spec fn parse_manifest_line(line: Seq<char>) -> Option<EntryView> {
    match split_once(line, '?') {
        None => None,
        Some((digest, rest)) => match split_once(rest, '*') {
            None => None,
            Some((algorithm, relative_path)) => Some(
                EntryView { digest: trim(digest), algorithm, relative_path },
            ),
        },
    }
}

/// Writes the manifest line for a digest, an algorithm tag and a relative path.
pub fn encode_line(digest: &str, algorithm: &str, relative_path: &str) -> (line: String)
    ensures
        line@ == manifest_line(
            EntryView { digest: digest@, algorithm: algorithm@, relative_path: relative_path@ },
        ),
{
    let mut out = str_chars(digest);
    out.push(' ');
    out.push('?');
    append_chars(&mut out, &str_chars(algorithm));
    out.push('*');
    append_chars(&mut out, &str_chars(relative_path));
    assert(out@ =~= digest@ + seq![' ', '?'] + algorithm@ + seq!['*'] + relative_path@);
    chars_to_string(&out)
}

impl ManifestEntry {
    /// Writes the line that records this entry.
    pub fn encode(&self) -> (line: String)
        ensures
            line@ == manifest_line(self@),
    {
        encode_line(self.digest.as_str(), self.algorithm.as_str(), self.relative_path.as_str())
    }
}

/// Reads one manifest line. `None` for a line without `?`, or without `*`
/// behind the first `?`.
pub fn parse_line(line: &str) -> (r: Option<ManifestEntry>)
    ensures
        match r {
            Some(entry) => parse_manifest_line(line@) == Some(entry@),
            None => parse_manifest_line(line@) is None,
        },
{
    let chars = str_chars(line);
    match split_chars_once(&chars, '?') {
        None => None,
        Some((digest, rest)) => match split_chars_once(&rest, '*') {
            None => None,
            Some((algorithm, relative_path)) => Some(
                ManifestEntry {
                    digest: chars_to_string(&trim_chars(&digest)),
                    algorithm: chars_to_string(&algorithm),
                    relative_path: chars_to_string(&relative_path),
                },
            ),
        },
    }
}

/// A line that was written is read back as the entry it was written for,
/// where the digest holds no `?` and no white space at its ends, and the
/// algorithm tag holds no `*`.
pub proof fn lemma_manifest_round_trip(entry: EntryView)
    requires
        !entry.digest.contains('?'),
        is_trimmed(entry.digest),
        !entry.algorithm.contains('*'),
    ensures
        parse_manifest_line(manifest_line(entry)) == Some(entry),
{
    let line = manifest_line(entry);
    let d = entry.digest;
    let k = d.len() as int + 1;
    assert forall|i: int| 0 <= i < k implies #[trigger] line[i] != '?' by {
        if i < d.len() {
            assert(line[i] == d[i]);
            assert(d.contains(d[i]));
        }
    }
    assert(line[k] == '?');
    lemma_first_index_is(line, '?', k);
    let rest = line.skip(k + 1);
    assert(line.take(k) =~= d.push(' '));
    assert(rest =~= entry.algorithm + seq!['*'] + entry.relative_path);
    let a = entry.algorithm;
    assert forall|i: int| 0 <= i < a.len() implies #[trigger] rest[i] != '*' by {
        assert(rest[i] == a[i]);
        assert(a.contains(a[i]));
    }
    assert(rest[a.len() as int] == '*');
    lemma_first_index_is(rest, '*', a.len() as int);
    assert(rest.take(a.len() as int) =~= a);
    assert(rest.skip(a.len() as int + 1) =~= entry.relative_path);
    lemma_trim_ignores_trailing_space(d, ' ');
    lemma_trim_of_trimmed(d);
}

/// A line without `?`, or without `*`, records nothing.
pub proof fn lemma_line_without_separator(line: Seq<char>)
    requires
        !line.contains('?') || !line.contains('*'),
    ensures
        parse_manifest_line(line) is None,
{
    lemma_first_index(line, '?');
    let k = first_index(line, '?');
    if k < line.len() {
        let rest = line.skip(k + 1);
        lemma_first_index(rest, '*');
        if rest.contains('*') {
            let j = choose|j: int| 0 <= j < rest.len() && rest[j] == '*';
            assert(line[k + 1 + j] == '*');
        }
    }
}

} // verus!
