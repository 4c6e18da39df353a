//! SHA-256 over byte sequences, and the lower-case hexadecimal form in which
//! digests are written.
//!
//! The hash function itself is not defined here: `sha256` names what the
//! `sha2` crate computes. Everything stated about a digest is stated over
//! that name.

use crate::text::{
    ascii_lower, chars_to_string, is_space, is_trimmed, lemma_trim_of_trimmed, lower, str_chars,
    trim,
};
use vstd::prelude::*;

verus! {

/// A SHA-256 computation in progress: a `sha2::Sha256`, whose state is not
/// visible to proofs. All that is known of a value is what `sha256_fed` names.
#[verifier::external_body]
pub struct Sha256Stream {
    inner: sha2::Sha256,
}

/// The bytes that a `sha2::Sha256` has been given through `update` since it
/// was made by `new`, in the order in which they were given.
pub uninterp spec fn sha256_fed(h: Sha256Stream) -> Seq<u8>;

/// The 32 bytes that `finalize` of a `sha2::Sha256` returns for a
/// computation that was given `data`: the SHA-256 digest of `data`.
pub uninterp spec fn sha256(data: Seq<u8>) -> Seq<u8>;

/// `Digest::new` of `sha2::Sha256`: a computation that has been given no
/// bytes yet.
#[verifier::external_body]
fn sha256_new() -> (h: Sha256Stream)
    ensures
        sha256_fed(h) == Seq::<u8>::empty(),
{
    Sha256Stream { inner: <sha2::Sha256 as sha2::Digest>::new() }
}

/// `Digest::update` of `sha2::Sha256`: the computation has then been given
/// what it had been given before, and `data` behind that.
#[verifier::external_body]
fn sha256_update(h: &mut Sha256Stream, data: &[u8])
    ensures
        sha256_fed(*final(h)) == sha256_fed(*old(h)) + data@,
{
    sha2::Digest::update(&mut h.inner, data);
}

/// `Digest::finalize` of `sha2::Sha256`: the digest of all the bytes that the
/// computation was given, which depends on those bytes alone and has 32
/// bytes.
#[verifier::external_body]
fn sha256_finalize(h: Sha256Stream) -> (d: Vec<u8>)
    ensures
        d@ == sha256(sha256_fed(h)),
        d@.len() == 32,
{
    sha2::Digest::finalize(h.inner).to_vec()
}

/// The lower-case hexadecimal digit for a number below sixteen.
pub open spec fn hex_char(n: nat) -> char {
    if n < 10 {
        (n + 48) as char
    } else {
        (n + 87) as char
    }
}

pub open spec fn is_hex_char(c: char) -> bool {
    '0' <= c <= '9' || 'a' <= c <= 'f'
}

/// Two lower-case hexadecimal digits for each byte, the high half first.
pub open spec fn hex(bytes: Seq<u8>) -> Seq<char> {
    Seq::new(
        2 * bytes.len(),
        |i: int|
            if i % 2 == 0 {
                hex_char((bytes[i / 2] / 16) as nat)
            } else {
                hex_char((bytes[i / 2] % 16) as nat)
            },
    )
}

/// The SHA-256 digest of `data` as it is written in a manifest.
pub open spec fn sha256_hex(data: Seq<u8>) -> Seq<char> {
    hex(sha256(data))
}

/// A string of lower-case hexadecimal digits only.
pub open spec fn is_hex(s: Seq<char>) -> bool {
    forall|i: int| 0 <= i < s.len() ==> is_hex_char(#[trigger] s[i])
}

fn hex_digit(n: u8) -> (c: char)
    requires
        n < 16,
    ensures
        c == hex_char(n as nat),
{
    if n < 10 {
        (n + 48) as char
    } else {
        (n + 87) as char
    }
}

/// The hexadecimal form of `bytes`.
pub fn hex_encode(bytes: &Vec<u8>) -> (r: String)
    ensures
        r@ == hex(bytes@),
{
    let mut out: Vec<char> = Vec::new();
    let mut i: usize = 0;
    while i < bytes.len()
        invariant
            i <= bytes.len(),
            out@ == hex(bytes@.take(i as int)),
        decreases bytes.len() - i,
    {
        let b = bytes[i];
        out.push(hex_digit(b / 16));
        out.push(hex_digit(b % 16));
        i += 1;
        assert(out@ =~= hex(bytes@.take(i as int)));
    }
    assert(bytes@.take(bytes.len() as int) == bytes@);
    chars_to_string(&out)
}

impl View for Sha256Stream {
    type V = Seq<u8>;

    /// The bytes written so far.
    open spec fn view(&self) -> Seq<u8> {
        sha256_fed(*self)
    }
}

impl Sha256Stream {
    /// Starts a computation; nothing is written yet.
    pub fn new() -> (h: Self)
        ensures
            h@ == Seq::<u8>::empty(),
    {
        sha256_new()
    }

    /// Writes `data` behind what was written before.
    pub fn feed(&mut self, data: &[u8])
        ensures
            final(self)@ == old(self)@ + data@,
    {
        sha256_update(self, data);
    }

    /// Ends the computation: the digest of all that was written, as 64
    /// hexadecimal digits.
    pub fn finish(self) -> (digest: String)
        ensures
            digest@ == sha256_hex(self@),
            is_digest(digest@),
    {
        let raw = sha256_finalize(self);
        hex_encode(&raw)
    }
}

/// Text of the form of a digest: 64 lower-case hexadecimal digits.
pub open spec fn is_digest(s: Seq<char>) -> bool {
    s.len() == 64 && is_hex(s)
}

/// Whether `text` has the form of a digest.
pub fn is_digest_text(text: &str) -> (r: bool)
    ensures
        r == is_digest(text@),
{
    let chars = str_chars(text);
    if chars.len() != 64 {
        return false;
    }
    let mut i: usize = 0;
    while i < chars.len()
        invariant
            i <= chars.len(),
            chars@ == text@,
            forall|j: int| 0 <= j < i ==> is_hex_char(#[trigger] chars@[j]),
        decreases chars.len() - i,
    {
        let c = chars[i];
        if !((c >= '0' && c <= '9') || (c >= 'a' && c <= 'f')) {
            assert(!is_hex_char(text@[i as int]));
            return false;
        }
        i += 1;
    }
    true
}

/// Digest text reads the same whatever is done to case and to white space
/// around it, and holds no `?`.
pub proof fn lemma_hex_text(d: Seq<char>)
    requires
        is_hex(d),
    ensures
        !d.contains('?'),
        is_trimmed(d),
        lower(d) == d,
        trim(lower(d)) == d,
{
    assert forall|i: int| 0 <= i < d.len() implies d[i] != '?' && !is_space(d[i]) && ascii_lower(
        d[i],
    ) == d[i] by {
        assert(is_hex_char(d[i]));
    }
    assert(lower(d) =~= d);
    if d.len() > 0 {
        assert(!is_space(d[0]));
        assert(!is_space(d[d.len() - 1]));
    }
    lemma_trim_of_trimmed(d);
}

} // verus!
