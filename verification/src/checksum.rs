//! The digests that snapshots record: SHA-256 and MD5, as lowercase
//! hexadecimal strings.

use vstd::prelude::*;
use crypto::digest::Digest;
use crypto::md5::Md5;
use crypto::sha2::Sha256;
use crate::error::Error;
use crate::text::str_eq;

verus! {

/// The digest function of a store. It is chosen when the store is created and
/// written into every snapshot.
#[derive(Clone, Copy, Debug, PartialEq, Eq, Structural)]
pub enum ChecksumFunction {
    SHA256,
    MD5,
}

/// SHA-256 counts its input in bits, in 64 bits: it takes fewer than 2^61
/// bytes.
pub const SHA256_MAX_INPUT: u64 = 0x2000_0000_0000_0000;

/// The name under which a digest function is written down.
pub open spec fn function_name(f: ChecksumFunction) -> Seq<char> {
    match f {
        ChecksumFunction::SHA256 => seq!['s', 'h', 'a', '2', '5', '6'],
        ChecksumFunction::MD5 => seq!['m', 'd', '5'],
    }
}

/// The digest function that a name stands for.
pub open spec fn function_named(name: Seq<char>) -> Option<ChecksumFunction> {
    if name == function_name(ChecksumFunction::SHA256) {
        Some(ChecksumFunction::SHA256)
    } else if name == function_name(ChecksumFunction::MD5) {
        Some(ChecksumFunction::MD5)
    } else {
        None
    }
}

/// A digit or one of the letters `a` to `f`.
pub open spec fn is_lower_hex(c: char) -> bool {
    ('0' <= c && c <= '9') || ('a' <= c && c <= 'f')
}

/// Whether `s` is made of `len` lowercase hexadecimal digits.
pub open spec fn is_hex_of_len(s: Seq<char>, len: nat) -> bool {
    s.len() == len && forall|i: int| 0 <= i < s.len() ==> is_lower_hex(#[trigger] s[i])
}

/// The number of characters of a digest.
pub open spec fn digest_len(f: ChecksumFunction) -> nat {
    match f {
        ChecksumFunction::SHA256 => 64,
        ChecksumFunction::MD5 => 32,
    }
}

/// Whether `f` takes an input of `len` bytes.
pub open spec fn digest_takes(f: ChecksumFunction, len: nat) -> bool {
    f == ChecksumFunction::SHA256 ==> len < SHA256_MAX_INPUT
}

/// The SHA-256 digest of `data` in lowercase hexadecimal, as the crate
/// `crypto` computes it.
pub uninterp spec fn sha256_hex(data: Seq<u8>) -> Seq<char>;

/// The MD5 digest of `data` in lowercase hexadecimal, as the crate `crypto`
/// computes it.
pub uninterp spec fn md5_hex(data: Seq<u8>) -> Seq<char>;

/// The digest of `data` under `f`.
pub open spec fn digest_hex(f: ChecksumFunction, data: Seq<u8>) -> Seq<char> {
    match f {
        ChecksumFunction::SHA256 => sha256_hex(data),
        ChecksumFunction::MD5 => md5_hex(data),
    }
}

/// The digest function called `s`: `sha256` or `md5`.
pub fn checksum_function_from_str(s: &str) -> (r: Result<ChecksumFunction, Error>)
    ensures
        r == (match function_named(s@) {
            Some(f) => Ok::<ChecksumFunction, Error>(f),
            None => Err(Error::Config),
        }),
{
    proof {
        reveal_strlit("sha256");
        reveal_strlit("md5");
        assert("sha256"@ =~= function_name(ChecksumFunction::SHA256));
        assert("md5"@ =~= function_name(ChecksumFunction::MD5));
    }
    if str_eq(s, "sha256") {
        Ok(ChecksumFunction::SHA256)
    } else if str_eq(s, "md5") {
        Ok(ChecksumFunction::MD5)
    } else {
        Err(Error::Config)
    }
}

/// The name of a digest function.
pub fn checksum_function_to_str(f: &ChecksumFunction) -> (name: String)
    ensures
        name@ == function_name(*f),
{
    proof {
        reveal_strlit("sha256");
        reveal_strlit("md5");
        assert("sha256"@ =~= function_name(ChecksumFunction::SHA256));
        assert("md5"@ =~= function_name(ChecksumFunction::MD5));
    }
    match f {
        ChecksumFunction::SHA256 => "sha256".to_owned(),
        ChecksumFunction::MD5 => "md5".to_owned(),
    }
}

/// Every name stands for the function it names, and for no other.
pub proof fn lemma_function_names(f: ChecksumFunction)
    ensures
        function_named(function_name(f)) == Some(f),
{
    assert(function_name(ChecksumFunction::SHA256).len() == 6);
    assert(function_name(ChecksumFunction::MD5).len() == 3);
}

/// The digest of `data` under `checksum_fn`, in lowercase hexadecimal.
pub fn compute(checksum_fn: ChecksumFunction, data: &[u8]) -> (digest: String)
    requires
        digest_takes(checksum_fn, data@.len()),
    ensures
        digest@ == digest_hex(checksum_fn, data@),
        is_hex_of_len(digest@, digest_len(checksum_fn)),
{
    match checksum_fn {
        ChecksumFunction::SHA256 => compute_sha256(data),
        ChecksumFunction::MD5 => compute_md5(data),
    }
}

/// Feeds `data` to a new `Sha256` of the crate `crypto` and takes
/// `result_str`. The result is a function of the bytes alone. It is the hex
/// form of the 32 bytes of output, two digits of `0123456789abcdef` for each.
/// The digest's bit counter refuses 2^61 bytes and more.
#[verifier::external_body]
fn compute_sha256(data: &[u8]) -> (digest: String)
    requires
        data@.len() < SHA256_MAX_INPUT,
    ensures
        digest@ == sha256_hex(data@),
        is_hex_of_len(digest@, 64),
{
    let mut digest = Sha256::new();
    digest.input(data);
    digest.result_str()
}

/// Feeds `data` to a new `Md5` of the crate `crypto` and takes `result_str`.
/// The result is a function of the bytes alone. It is the hex form of the 16
/// bytes of output, two digits of `0123456789abcdef` for each.
#[verifier::external_body]
fn compute_md5(data: &[u8]) -> (digest: String)
    ensures
        digest@ == md5_hex(data@),
        is_hex_of_len(digest@, 32),
{
    let mut digest = Md5::new();
    digest.input(data);
    digest.result_str()
}

} // verus!
