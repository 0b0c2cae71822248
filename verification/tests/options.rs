use zfilexfer::FileOptions;
use zfilexfer::Options;

#[test]
fn test_file_options() {
    let options = FileOptions::new(
        Some(&[Options::BackupExisting(b"_moo".to_vec()), Options::ChunkSize(123)]),
    );
    let encoded = options.encode();
    let decoded = FileOptions::decode(&encoded).unwrap();
    assert_eq!(decoded.backup_existing.unwrap(), b"_moo".to_vec());
    assert_eq!(decoded.chunk_size.unwrap(), 123);
}

#[test]
fn test_options_later_wins() {
    let options = FileOptions::new(Some(&[Options::ChunkSize(1), Options::ChunkSize(9)]));
    assert_eq!(options.chunk_size, Some(9));
    assert_eq!(options.backup_existing, None);
}

#[test]
fn test_encode_canonical() {
    let options = FileOptions::new(None);
    assert_eq!(options.encode(), b"{\"backup_existing\":null,\"chunk_size\":null}".to_vec());
    let options = FileOptions::new(Some(&[Options::BackupExisting(b".bk".to_vec())]));
    assert_eq!(
        options.encode(),
        b"{\"backup_existing\":\".bk\",\"chunk_size\":null}".to_vec()
    );
}

#[test]
fn test_encode_escapes() {
    let options = FileOptions::new(Some(&[Options::BackupExisting(b"a\"b\\c".to_vec())]));
    let encoded = options.encode();
    assert_eq!(
        encoded,
        b"{\"backup_existing\":\"a\\\"b\\\\c\",\"chunk_size\":null}".to_vec()
    );
    let decoded = FileOptions::decode(&encoded).unwrap();
    assert_eq!(decoded.backup_existing.unwrap(), b"a\"b\\c".to_vec());
}

#[test]
fn test_decode_empty_object() {
    let decoded = FileOptions::decode(b"{}").unwrap();
    assert_eq!(decoded.backup_existing, None);
    assert_eq!(decoded.chunk_size, None);
    let decoded = FileOptions::decode(b"  { }  ").unwrap();
    assert_eq!(decoded.chunk_size, None);
}

#[test]
fn test_decode_unknown_keys() {
    let blob = b"{\"extra\":[1,{\"y\":\"z\\\"q\"},false,null,-2.5e3],\"chunk_size\":7,\"more\":\"x\"}";
    let decoded = FileOptions::decode(blob).unwrap();
    assert_eq!(decoded.chunk_size, Some(7));
    assert_eq!(decoded.backup_existing, None);
}

#[test]
fn test_decode_duplicate_key() {
    let decoded = FileOptions::decode(b"{\"chunk_size\":1,\"chunk_size\":2}").unwrap();
    assert_eq!(decoded.chunk_size, Some(2));
}

#[test]
fn test_decode_escapes() {
    let decoded =
        FileOptions::decode(b"{\"backup_existing\":\"a\\t\\n\\u0041\"}").unwrap();
    assert_eq!(decoded.backup_existing.unwrap(), b"a\t\nA".to_vec());
}

#[test]
fn test_decode_rejects() {
    assert!(FileOptions::decode(b"").is_err());
    assert!(FileOptions::decode(b"null").is_err());
    assert!(FileOptions::decode(b"{").is_err());
    assert!(FileOptions::decode(b"{}x").is_err());
    assert!(FileOptions::decode(b"{\"chunk_size\":\"7\"}").is_err());
    assert!(FileOptions::decode(b"{\"chunk_size\":-1}").is_err());
    assert!(FileOptions::decode(b"{\"chunk_size\":1.5}").is_err());
    assert!(FileOptions::decode(b"{\"backup_existing\":7}").is_err());
    assert!(FileOptions::decode(b"{\"chunk_size\":18446744073709551616}").is_err());
    assert!(FileOptions::decode(b"{\"a\":1,}").is_err());
}
