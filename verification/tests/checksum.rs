use fhistory::checksum::{
    checksum_function_from_str, checksum_function_to_str, compute, ChecksumFunction,
};
use fhistory::Error;

#[test]
fn sha256_of_nothing() {
    assert_eq!(
        compute(ChecksumFunction::SHA256, b""),
        "e3b0c44298fc1c149afbf4c8996fb92427ae41e4649b934ca495991b7852b855"
    );
}

#[test]
fn sha256_of_abc() {
    assert_eq!(
        compute(ChecksumFunction::SHA256, b"abc"),
        "ba7816bf8f01cfea414140de5dae2223b00361a396177a9cb410ff61f20015ad"
    );
}

#[test]
fn md5_of_nothing() {
    assert_eq!(compute(ChecksumFunction::MD5, b""), "d41d8cd98f00b204e9800998ecf8427e");
}

#[test]
fn md5_of_abc() {
    assert_eq!(compute(ChecksumFunction::MD5, b"abc"), "900150983cd24fb0d6963f7d28e17f72");
}

#[test]
fn digests_are_lowercase_hex_of_fixed_length() {
    for data in [&b""[..], &b"a"[..], &b"The quick brown fox"[..], &[0u8, 255, 10, 32][..]] {
        let sha = compute(ChecksumFunction::SHA256, data);
        let md5 = compute(ChecksumFunction::MD5, data);
        assert_eq!(sha.len(), 64);
        assert_eq!(md5.len(), 32);
        assert!(sha.chars().all(|c| c.is_ascii_digit() || ('a'..='f').contains(&c)));
        assert!(md5.chars().all(|c| c.is_ascii_digit() || ('a'..='f').contains(&c)));
    }
}

#[test]
fn digest_depends_on_every_byte() {
    let a = compute(ChecksumFunction::SHA256, b"snapshot");
    let b = compute(ChecksumFunction::SHA256, b"snapshou");
    assert_ne!(a, b);
    assert_eq!(a, compute(ChecksumFunction::SHA256, b"snapshot"));
}

#[test]
fn function_names_are_read() {
    assert_eq!(checksum_function_from_str("sha256"), Ok(ChecksumFunction::SHA256));
    assert_eq!(checksum_function_from_str("md5"), Ok(ChecksumFunction::MD5));
}

#[test]
fn unknown_function_names_are_refused() {
    assert_eq!(checksum_function_from_str(""), Err(Error::Config));
    assert_eq!(checksum_function_from_str("SHA256"), Err(Error::Config));
    assert_eq!(checksum_function_from_str("sha256 "), Err(Error::Config));
    assert_eq!(checksum_function_from_str("sha1"), Err(Error::Config));
    assert_eq!(checksum_function_from_str("md"), Err(Error::Config));
}

#[test]
fn function_names_are_written() {
    assert_eq!(checksum_function_to_str(&ChecksumFunction::SHA256), "sha256");
    assert_eq!(checksum_function_to_str(&ChecksumFunction::MD5), "md5");
}

#[test]
fn function_names_round_trip() {
    for f in [ChecksumFunction::SHA256, ChecksumFunction::MD5] {
        assert_eq!(checksum_function_from_str(&checksum_function_to_str(&f)), Ok(f));
    }
}

#[test]
fn every_error_has_a_message() {
    assert_eq!(Error::Io.message(), "i/o error");
    assert_eq!(Error::Format.message(), "invalid index file");
    assert_eq!(Error::ChecksumMismatch.message(), "checksum mismatch for index file");
    assert_eq!(
        Error::Causality.message(),
        "a newer snapshot exists. did we go back into the future?"
    );
    assert_eq!(Error::Path.message(), "invalid path");
    assert_eq!(Error::Config.message(), "invalid checksum function");
}
