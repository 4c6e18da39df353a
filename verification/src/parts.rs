//! Naming and numbering the parts that a file is split into, and the rule by
//! which writing moves on from one part to the next.

use crate::path::{components_of, is_name, path_components};
use crate::size::{decimal_chars, decimal_digits, decimal_value, is_digit, lemma_decimal_digits};
use crate::text::{append_chars, chars_to_string, copy_range, str_chars};
use vstd::prelude::*;

verus! {

/// The length of `s` up to and with its last `c`; 0 where `s` holds no `c`.
pub open spec fn after_last(s: Seq<char>, c: char) -> int
    decreases s.len(),
{
    if s.len() == 0 {
        0
    } else if s.last() == c {
        s.len() as int
    } else {
        after_last(s.drop_last(), c)
    }
}

/// What stands behind the last `_` of a file name; the whole name where it
/// has no `_`.
pub open spec fn part_suffix(name: Seq<char>) -> Seq<char> {
    name.skip(after_last(name, '_'))
}

/// Only decimal digits.
pub open spec fn all_digits(s: Seq<char>) -> bool {
    forall|i: int| 0 <= i < s.len() ==> is_digit(#[trigger] s[i])
}

/// The number that text denotes: digits, with or without a `+` before
/// them. `None` for any other text.
pub open spec fn unsigned_value(text: Seq<char>) -> Option<nat> {
    let digits = if text.len() > 0 && text[0] == '+' {
        text.skip(1)
    } else {
        text
    };
    if digits.len() > 0 && all_digits(digits) {
        Some(decimal_value(digits))
    } else {
        None
    }
}

/// The number of a part: what its suffix denotes, or 0 where the suffix
/// denotes no number that fits in 64 bits.
pub open spec fn part_number_of(name: Seq<char>) -> u64 {
    match unsigned_value(part_suffix(name)) {
        Some(n) => if n <= u64::MAX {
            n as u64
        } else {
            0
        },
        None => 0,
    }
}

/// The path of part `index` of the file `file_name`, in the directory `dir`.
pub open spec fn part_path_of(dir: Seq<char>, file_name: Seq<char>, index: nat) -> Seq<char> {
    dir + seq!['/'] + file_name + seq!['_'] + decimal_digits(index)
}

/// Whether a file name is that of a part: it holds a `_`, and a number stands
/// behind the last one.
pub open spec fn is_part(name: Seq<char>) -> bool {
    name.contains('_') && unsigned_value(part_suffix(name)) is Some
}

/// An index is where the text behind the last `c` starts when `c` stands
/// before it and nowhere behind.
proof fn lemma_after_last_is(s: Seq<char>, c: char, k: int)
    requires
        0 <= k <= s.len(),
        k > 0 ==> s[k - 1] == c,
        forall|i: int| k <= i < s.len() ==> #[trigger] s[i] != c,
    ensures
        after_last(s, c) == k,
    decreases s.len(),
{
    if s.len() > 0 {
        if s.last() == c {
            assert(k == s.len());
        } else {
            let t = s.drop_last();
            assert(k < s.len());
            assert forall|i: int| k <= i < t.len() implies #[trigger] t[i] != c by {
                assert(t[i] == s[i]);
            }
            if k > 0 {
                assert(t[k - 1] == s[k - 1]);
            }
            lemma_after_last_is(t, c, k);
        }
    }
}

/// Where the text behind the last `_` of a name starts; 0 where the name
/// holds no `_`.
fn suffix_start(chars: &Vec<char>) -> (start: usize)
    ensures
        start == after_last(chars@, '_'),
        start <= chars.len(),
        start > 0 <==> chars@.contains('_'),
{
    let mut start: usize = chars.len();
    while start > 0 && chars[start - 1] != '_'
        invariant
            start <= chars.len(),
            forall|i: int| start <= i < chars.len() ==> #[trigger] chars@[i] != '_',
        decreases start,
    {
        start -= 1;
    }
    proof {
        lemma_after_last_is(chars@, '_', start as int);
        if start > 0 {
            assert(chars@[start - 1] == '_');
        }
    }
    start
}

/// Reads text as a number: whether it denotes one, and the number where it
/// fits in 64 bits, else 0.
fn read_unsigned(text: &Vec<char>) -> (r: (bool, u64))
    ensures
        r.0 == (unsigned_value(text@) is Some),
        r.1 == match unsigned_value(text@) {
            Some(n) => if n <= u64::MAX {
                n as u64
            } else {
                0
            },
            None => 0,
        },
{
    let from: usize = if text.len() > 0 && text[0] == '+' {
        1
    } else {
        0
    };
    let ghost digits = text@.skip(from as int);
    assert(text@.skip(0) =~= text@);
    if from == text.len() {
        return (false, 0);
    }
    let mut value: u64 = 0;
    let mut fits: bool = true;
    let mut i: usize = from;
    assert(digits.take(0) =~= Seq::<char>::empty());
    while i < text.len()
        invariant
            from <= i <= text.len(),
            from < text.len(),
            digits == text@.skip(from as int),
            digits == (if text@.len() > 0 && text@[0] == '+' {
                text@.skip(1)
            } else {
                text@
            }),
            all_digits(digits.take(i - from)),
            fits ==> value == decimal_value(digits.take(i - from)),
            !fits ==> decimal_value(digits.take(i - from)) > u64::MAX,
        decreases text.len() - i,
    {
        let c = text[i];
        assert(digits[i - from] == c);
        if !(c >= '0' && c <= '9') {
            assert(!all_digits(digits));
            return (false, 0);
        }
        let d: u64 = (c as u32 - '0' as u32) as u64;
        proof {
            let seen = digits.take(i - from + 1);
            assert(seen.drop_last() =~= digits.take(i - from));
            assert(seen.last() == c);
            assert forall|j: int| 0 <= j < seen.len() implies is_digit(#[trigger] seen[j]) by {
                if j < i - from {
                    assert(seen[j] == digits.take(i - from)[j]);
                }
            }
            assert(decimal_value(seen) == decimal_value(digits.take(i - from)) * 10 + d);
        }
        if fits {
            let next = match value.checked_mul(10) {
                Some(tens) => tens.checked_add(d),
                None => None,
            };
            match next {
                Some(sum) => {
                    value = sum;
                },
                None => {
                    fits = false;
                },
            }
        }
        i += 1;
    }
    assert(digits.take(digits.len() as int) =~= digits);
    if fits {
        (true, value)
    } else {
        (true, 0)
    }
}

/// Whether a file in the directory of parts is a part: its name holds a `_`
/// with a number behind the last one. The digest that stands beside a part
/// is none.
pub fn is_part_name(file_name: &str) -> (r: bool)
    ensures
        r == is_part(file_name@),
{
    let chars = str_chars(file_name);
    let start = suffix_start(&chars);
    if start == 0 {
        return false;
    }
    let suffix = copy_range(&chars, start, chars.len());
    assert(suffix@ == part_suffix(chars@));
    read_unsigned(&suffix).0
}

/// The number of a part, read from its file name: the digits behind the last
/// `_`, or 0 where no number stands there.
pub fn part_number(file_name: &str) -> (n: u64)
    ensures
        n == part_number_of(file_name@),
{
    let chars = str_chars(file_name);
    let start = suffix_start(&chars);
    let suffix = copy_range(&chars, start, chars.len());
    assert(suffix@ == part_suffix(chars@));
    read_unsigned(&suffix).1
}

/// Writes the path of part `index` of `file_name` in `dir`.
pub fn part_path(dir: &str, file_name: &str, index: u64) -> (path: String)
    ensures
        path@ == part_path_of(dir@, file_name@, index as nat),
{
    let mut out = str_chars(dir);
    out.push('/');
    append_chars(&mut out, &str_chars(file_name));
    out.push('_');
    append_chars(&mut out, &decimal_chars(index));
    assert(out@ =~= part_path_of(dir@, file_name@, index as nat));
    chars_to_string(&out)
}

/// The name of the file that holds the digest of a part.
pub open spec fn sidecar_path_of(part: Seq<char>) -> Seq<char> {
    part + ".sha256.txt"@
}

/// Writes the name of the file that holds the digest of `part`.
pub fn sidecar_path(part: &str) -> (path: String)
    ensures
        path@ == sidecar_path_of(part@),
{
    let mut out = str_chars(part);
    append_chars(&mut out, &str_chars(".sha256.txt"));
    chars_to_string(&out)
}

/// The number that a part was written under is the number read from its
/// name.
pub proof fn lemma_part_number_round_trip(dir: Seq<char>, file_name: Seq<char>, index: nat)
    requires
        index <= u64::MAX,
    ensures
        part_number_of(part_path_of(dir, file_name, index)) == index,
{
    let digits = decimal_digits(index);
    let path = part_path_of(dir, file_name, index);
    lemma_decimal_digits(index);
    let k = path.len() - digits.len();
    assert(path[k - 1] == '_');
    assert forall|i: int| k <= i < path.len() implies #[trigger] path[i] != '_' by {
        assert(path[i] == digits[i - k]);
        assert(is_digit(digits[i - k]));
    }
    lemma_after_last_is(path, '_', k);
    assert(path.skip(k) =~= digits);
    assert(is_digit(digits[0]));
}

/// The path of a part is the name of a part.
pub proof fn lemma_part_path_is_part(dir: Seq<char>, file_name: Seq<char>, index: nat)
    ensures
        is_part(part_path_of(dir, file_name, index)),
{
    let digits = decimal_digits(index);
    let path = part_path_of(dir, file_name, index);
    lemma_decimal_digits(index);
    let k = path.len() - digits.len();
    assert(path[k - 1] == '_');
    assert forall|i: int| k <= i < path.len() implies #[trigger] path[i] != '_' by {
        assert(path[i] == digits[i - k]);
        assert(is_digit(digits[i - k]));
    }
    lemma_after_last_is(path, '_', k);
    assert(path.skip(k) =~= digits);
    assert(is_digit(digits[0]));
}

/// The file that holds the digest of a part is not taken for a part,
/// whatever the part is called.
pub proof fn lemma_sidecar_is_no_part(part: Seq<char>)
    ensures
        !is_part(sidecar_path_of(part)),
{
    reveal_strlit(".sha256.txt");
    let ext = ".sha256.txt"@;
    let name = sidecar_path_of(part);
    let suffix = part_suffix(name);
    lemma_after_last(name, '_');
    let k = after_last(name, '_');
    assert forall|i: int| part.len() <= i < name.len() implies #[trigger] name[i] != '_' by {
        assert(name[i] == ext[i - part.len()]);
    }
    if k > part.len() {
        assert(name[k - 1] == '_');
    }
    assert(suffix.len() >= ext.len());
    assert(suffix.last() == name.last());
    assert(name.last() == 't');
    let digits = if suffix.len() > 0 && suffix[0] == '+' {
        suffix.skip(1)
    } else {
        suffix
    };
    assert(digits.len() > 0);
    assert(digits.last() == 't');
    assert(!is_digit(digits[digits.len() - 1]));
}

proof fn lemma_after_last(s: Seq<char>, c: char)
    ensures
        0 <= after_last(s, c) <= s.len(),
        after_last(s, c) > 0 ==> s[after_last(s, c) - 1] == c,
    decreases s.len(),
{
    if s.len() > 0 && s.last() != c {
        let t = s.drop_last();
        lemma_after_last(t, c);
        if after_last(s, c) > 0 {
            assert(s[after_last(s, c) - 1] == t[after_last(t, c) - 1]);
        }
    }
}

/// The name of the file that a path leads to: its last component, unless
/// that is the root, `.` or `..`.
pub open spec fn file_name_of(path: Seq<char>) -> Option<Seq<char>> {
    let c = path_components(path);
    if c.len() > 0 && is_name(c.last()) && !(c.last() =~= seq!['/']) && !(c.last() =~= seq![
        '.',
        '.',
    ]) {
        Some(c.last())
    } else {
        None
    }
}

/// The name of the file that `path` leads to.
pub fn file_name(path: &str) -> (r: Option<String>)
    ensures
        match r {
            Some(name) => file_name_of(path@) == Some(name@),
            None => file_name_of(path@) is None,
        },
{
    let parts = components_of(&str_chars(path));
    if parts.len() == 0 {
        return None;
    }
    let last = &parts[parts.len() - 1];
    let ghost c = path_components(path@);
    assert(c.last() == last@);
    let n = last.len();
    if n == 0 || (n == 1 && (last[0] == '.' || last[0] == '/')) || (n == 2 && last[0] == '.'
        && last[1] == '.') {
        return None;
    }
    Some(chars_to_string(last))
}

/// How far writing the parts of a file has come: the number of the part
/// being written, and how many bytes it holds.
#[derive(Clone, Copy, Debug, PartialEq, Eq, Structural)]
pub struct SplitProgress {
    pub index: u64,
    pub bytes_written: u64,
}

impl SplitProgress {
    /// A part being written holds fewer bytes than a part may hold.
    pub open spec fn wf(&self, chunk_size: usize) -> bool {
        self.bytes_written == 0 || self.bytes_written < chunk_size
    }

    /// Before the first byte: part 0, empty.
    pub fn new() -> (p: Self)
        ensures
            p.index == 0,
            p.bytes_written == 0,
    {
        SplitProgress { index: 0, bytes_written: 0 }
    }

    /// Counts `n` bytes written to the current part. Where the part then
    /// holds at least `chunk_size` bytes it is complete: the result is
    /// `true`, and the next part is the current one, empty.
    pub fn wrote(&mut self, n: usize, chunk_size: usize) -> (complete: bool)
        requires
            old(self).wf(chunk_size),
            old(self).index < u64::MAX,
        ensures
            complete == (old(self).bytes_written + n >= chunk_size),
            complete ==> final(self).index == old(self).index + 1 && final(self).bytes_written
                == 0,
            !complete ==> final(self).index == old(self).index && final(self).bytes_written
                == old(self).bytes_written + n,
            final(self).wf(chunk_size),
    {
        let room: u64 = if self.bytes_written < chunk_size as u64 {
            chunk_size as u64 - self.bytes_written
        } else {
            0
        };
        if n as u64 >= room {
            self.index = self.index + 1;
            self.bytes_written = 0;
            true
        } else {
            self.bytes_written = self.bytes_written + n as u64;
            false
        }
    }
}

} // verus!
