//! Fingerprints of memory items: the lower-case hexadecimal SHA-256
//! digest of `source`, a line feed and the content.
use vstd::prelude::*;
use vstd::utf8::encode_utf8;
use sha2::Digest;
use crate::text::string_from_chars;

verus! {

/// The SHA-256 digest of `data`.
pub uninterp spec fn sha256_of(data: Seq<u8>) -> Seq<u8>;

/// `sha2::Sha256::digest` (through the `Digest` trait). The digest is
/// named (`sha256_of`), not restated; the contract adds the one fact the
/// output type fixes: it is 32 bytes long.
#[verifier::external_body]
fn sha256_digest(data: &[u8]) -> (res: Vec<u8>)
    ensures
        res@ == sha256_of(data@),
        res@.len() == 32,
{
    sha2::Sha256::digest(data).to_vec()
}

/// The lower-case hexadecimal digit for `n < 16`.
pub open spec fn hex_digit(n: int) -> char {
    if n < 10 {
        (('0' as int) + n) as char
    } else {
        (('a' as int) + n - 10) as char
    }
}

/// Two lower-case hexadecimal digits per byte, high nibble first
/// (`{:x}` on a byte array).
pub open spec fn hex_lower(bytes: Seq<u8>) -> Seq<char>
    decreases bytes.len(),
{
    if bytes.len() == 0 {
        seq![]
    } else {
        let b = bytes.last();
        hex_lower(bytes.drop_last()) + seq![hex_digit((b / 16) as int), hex_digit((b % 16) as int)]
    }
}

/// The bytes that are hashed for a fingerprint.
pub open spec fn fingerprint_input(source: Seq<char>, content: Seq<char>) -> Seq<u8> {
    encode_utf8(source) + seq![10u8] + encode_utf8(content)
}

/// The fingerprint of `content` coming from `source`.
pub open spec fn fingerprint_spec(source: Seq<char>, content: Seq<char>) -> Seq<char> {
    hex_lower(sha256_of(fingerprint_input(source, content)))
}

/// The hexadecimal digit for `n < 16`.
fn hex_digit_exec(n: u8) -> (res: char)
    requires
        n < 16,
    ensures
        res == hex_digit(n as int),
{
    if n < 10 {
        ((48u8 + n) as char)
    } else {
        ((87u8 + n) as char)
    }
}

/// Lower-case hexadecimal text of `bytes`.
pub fn to_hex_lower(bytes: &[u8]) -> (res: Vec<char>)
    ensures
        res@ == hex_lower(bytes@),
{
    let mut out: Vec<char> = Vec::new();
    let mut i: usize = 0;
    while i < bytes.len()
        invariant
            i <= bytes@.len(),
            out@ == hex_lower(bytes@.take(i as int)),
        decreases bytes@.len() - i,
    {
        assert(bytes@.take(i + 1).drop_last() =~= bytes@.take(i as int));
        let b = bytes[i];
        out.push(hex_digit_exec(b / 16));
        out.push(hex_digit_exec(b % 16));
        assert(out@ =~= hex_lower(bytes@.take(i as int)) + seq![
            hex_digit((b / 16) as int),
            hex_digit((b % 16) as int),
        ]);
        i = i + 1;
    }
    assert(bytes@.take(bytes@.len() as int) =~= bytes@);
    out
}

/// The fingerprint of `content` coming from `source`: the lower-case
/// hexadecimal SHA-256 digest of the UTF-8 bytes of `source`, a line feed
/// and the UTF-8 bytes of `content`.
pub fn fingerprint_value(source: &str, content: &str) -> (res: String)
    ensures
        res@ == fingerprint_spec(source@, content@),
        res@.len() == 64,
{
    let mut data: Vec<u8> = Vec::new();
    let s = source.as_bytes();
    let c = content.as_bytes();
    let mut i: usize = 0;
    while i < s.len()
        invariant
            i <= s@.len(),
            data@ == s@.take(i as int),
        decreases s@.len() - i,
    {
        assert(s@.take(i + 1) =~= s@.take(i as int).push(s@[i as int]));
        data.push(s[i]);
        i = i + 1;
    }
    assert(s@.take(s@.len() as int) =~= s@);
    data.push(10u8);
    let ghost head = data@;
    let mut j: usize = 0;
    while j < c.len()
        invariant
            j <= c@.len(),
            data@ == head + c@.take(j as int),
        decreases c@.len() - j,
    {
        assert(c@.take(j + 1) =~= c@.take(j as int).push(c@[j as int]));
        data.push(c[j]);
        j = j + 1;
    }
    assert(c@.take(c@.len() as int) =~= c@);
    assert(data@ =~= fingerprint_input(source@, content@));
    let digest = sha256_digest(data.as_slice());
    let hex = to_hex_lower(digest.as_slice());
    proof {
        lemma_hex_len(digest@);
    }
    string_from_chars(hex.as_slice())
}

/// A lower-case hexadecimal digit: `0`-`9` or `a`-`f`.
pub open spec fn is_lower_hex_char(c: char) -> bool {
    ('0' <= c && c <= '9') || ('a' <= c && c <= 'f')
}

/// Law: the hexadecimal text of bytes has two lower-case hexadecimal
/// digits per byte, and nothing else.
pub proof fn lemma_hex_lower_digits(bytes: Seq<u8>)
    ensures
        hex_lower(bytes).len() == 2 * bytes.len(),
        forall|i: int| 0 <= i < hex_lower(bytes).len() ==> is_lower_hex_char(#[trigger] hex_lower(bytes)[i]),
    decreases bytes.len(),
{
    if bytes.len() > 0 {
        let init = bytes.drop_last();
        lemma_hex_lower_digits(init);
        let h = hex_lower(bytes);
        let p = hex_lower(init);
        assert forall|i: int| 0 <= i < h.len() implies is_lower_hex_char(#[trigger] h[i]) by {
            if i < p.len() {
                assert(h[i] == p[i]);
            }
        }
    }
}

/// Law: a fingerprint is made of lower-case hexadecimal digits, two per
/// byte of the SHA-256 digest.
pub proof fn lemma_fingerprint_is_lower_hex(source: Seq<char>, content: Seq<char>)
    ensures
        fingerprint_spec(source, content).len() == 2 * sha256_of(fingerprint_input(source, content)).len(),
        forall|i: int|
            0 <= i < fingerprint_spec(source, content).len() ==> is_lower_hex_char(
                #[trigger] fingerprint_spec(source, content)[i],
            ),
{
    lemma_hex_lower_digits(sha256_of(fingerprint_input(source, content)));
}

proof fn lemma_hex_len(bytes: Seq<u8>)
    ensures
        hex_lower(bytes).len() == 2 * bytes.len(),
    decreases bytes.len(),
{
    if bytes.len() > 0 {
        lemma_hex_len(bytes.drop_last());
    }
}

} // verus!
