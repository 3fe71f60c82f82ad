use md5::Digest;
use vstd::prelude::*;

verus! {

/// The MD5 digest of the UTF-8 encoding of a text.
pub uninterp spec fn md5_of(s: Seq<char>) -> Seq<u8>;

/// Relies on `md5::Md5::digest` (through the `Digest` trait of md-5): the
/// digest of the bytes given, which for MD5 are 16.
#[verifier::external_body]
fn md5_digest(s: &str) -> (r: Vec<u8>)
    ensures
        r@ == md5_of(s@),
        r@.len() == 16,
{
    md5::Md5::digest(s.as_bytes()).to_vec()
}

/// The upper-case hexadecimal digit of a value below 16.
pub open spec fn hex_digit(n: u8) -> char {
    if n < 10 {
        ('0' as u8 + n) as char
    } else {
        ('A' as u8 + (n - 10)) as char
    }
}

/// Bytes in upper-case hexadecimal: two digits for each byte, the high half first.
pub open spec fn upper_hex(b: Seq<u8>) -> Seq<char>
    decreases b.len(),
{
    if b.len() == 0 {
        Seq::empty()
    } else {
        upper_hex(b.drop_last()) + seq![hex_digit(b.last() / 16), hex_digit(b.last() % 16)]
    }
}

/// Relies on `hex::encode_upper`: two upper-case digits for each byte, the
/// high half first.
#[verifier::external_body]
fn encode_upper(b: &Vec<u8>) -> (r: String)
    ensures
        r@ == upper_hex(b@),
{
    hex::encode_upper(b)
}

/// The fingerprint of a text: its MD5 digest in upper-case hexadecimal.
pub open spec fn fingerprint_of(s: Seq<char>) -> Seq<char> {
    upper_hex(md5_of(s))
}

/// The fingerprint of a text: its MD5 digest in upper-case hexadecimal.
pub fn md5(buf: &String) -> (r: String)
    ensures
        r@ == fingerprint_of(buf@),
        r@.len() == 32,
{
    let d = md5_digest(buf.as_str());
    proof {
        lemma_upper_hex_len(d@);
    }
    encode_upper(&d)
}

/// Two hexadecimal digits stand for each byte.
pub proof fn lemma_upper_hex_len(b: Seq<u8>)
    ensures
        upper_hex(b).len() == 2 * b.len(),
    decreases b.len(),
{
    if b.len() > 0 {
        lemma_upper_hex_len(b.drop_last());
    }
}

/// Whether two fingerprints differ.
pub fn fingerprints_differ(new_fingerprint: &String, old_fingerprint: &String) -> (r: bool)
    ensures
        r == (new_fingerprint@ != old_fingerprint@),
{
    !(*new_fingerprint == *old_fingerprint)
}

/// Whether the outline document must be written: the fingerprint of the new
/// content differs from that of what the destination holds (empty where it
/// does not exist yet).
pub fn needs_write(new_content: &String, old_content: &String) -> (r: bool)
    ensures
        r == (fingerprint_of(new_content@) != fingerprint_of(old_content@)),
{
    let a = md5(new_content);
    let b = md5(old_content);
    fingerprints_differ(&a, &b)
}

} // verus!
