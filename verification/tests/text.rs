use zfilexfer::checksum::crc64;
use zfilexfer::error::Error;
use zfilexfer::text::fmt_u64;
use zfilexfer::text::parse_u64;

#[test]
fn test_fmt_u64() {
    assert_eq!(fmt_u64(0), b"0".to_vec());
    assert_eq!(fmt_u64(7), b"7".to_vec());
    assert_eq!(fmt_u64(12345), b"12345".to_vec());
    assert_eq!(fmt_u64(u64::MAX), b"18446744073709551615".to_vec());
}

#[test]
fn test_parse_u64() {
    assert_eq!(parse_u64(b"0"), Some(0));
    assert_eq!(parse_u64(b"007"), Some(7));
    assert_eq!(parse_u64(b"12345"), Some(12345));
    assert_eq!(parse_u64(b"18446744073709551615"), Some(u64::MAX));
    assert_eq!(parse_u64(b"18446744073709551616"), None);
    assert_eq!(parse_u64(b""), None);
    assert_eq!(parse_u64(b"12a"), None);
    assert_eq!(parse_u64(b"-1"), None);
    assert_eq!(parse_u64(b"+5"), None);
}

#[test]
fn test_calc_crc() {
    // The checksum of the content must agree with the CRC-64/ECMA-182
    // algorithm of the crc crate, computed fresh.
    let expected = crc::Crc::<u64>::new(&crc::CRC_64_ECMA_182).checksum(b"12345");
    assert_eq!(crc64(b"12345"), expected);
    assert_ne!(crc64(b"12345"), crc64(b"12346"));
    assert_eq!(crc64(b""), crc::Crc::<u64>::new(&crc::CRC_64_ECMA_182).checksum(b""));
}

#[test]
fn test_error_messages() {
    assert_eq!(Error::FileFail.message(), b"Failed to upload file".to_vec());
    assert_eq!(
        Error::FailChecksum.message(),
        b"Uploaded file does not match expected CRC".to_vec()
    );
    assert_eq!(Error::InvalidRequest.message(), b"Invalid request".to_vec());
    assert_eq!(Error::ChunkIndex.message(), b"Chunk index not in file".to_vec());
    assert_eq!(
        Error::UploadError(b"oops".to_vec()).message(),
        b"Could not upload file: oops".to_vec()
    );
}
