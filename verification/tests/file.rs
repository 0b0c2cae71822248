use zfilexfer::arbitrator::Arbitrator;
use zfilexfer::file::staging_name;
use zfilexfer::file::File;
use zfilexfer::file::SendStep;
use zfilexfer::Options;

fn empty_crc() -> u64 {
    crc::Crc::<u64>::new(&crc::CRC_64_ECMA_182).checksum(b"")
}

#[test]
fn test_temporary_filename() {
    assert_eq!(staging_name(b"/path/to/file", 0), b"/path/to/.file0".to_vec());
    assert_eq!(staging_name(b"/path/to/file", 1), b"/path/to/.file1".to_vec());
    assert_eq!(staging_name(b"file", 0), b".file0".to_vec());
}

#[test]
fn test_create_recv() {
    let mut arbitrator = Arbitrator::new(0);
    let mut file = File::create_file(
        &mut arbitrator,
        b"abc",
        b"/tmp/.testfile0".to_vec(),
        b"/tmp/testfile".to_vec(),
        1,
        0,
        1,
        b"{}",
        0,
    )
    .unwrap()
    .0;
    assert!(file.recv(&Vec::new(), 0, &Vec::new()).is_ok());
}

#[test]
fn test_sink() {
    let mut arbitrator = Arbitrator::new(0);
    let mut file = File::create_file(
        &mut arbitrator,
        b"abc",
        b"/tmp/.testfile0".to_vec(),
        b"/tmp/testfile".to_vec(),
        1,
        0,
        1,
        b"{}",
        0,
    )
    .unwrap()
    .0;

    for _ in 0..6 {
        file.sink(&mut arbitrator, b"abc", 0, false, 0).unwrap();
    }

    assert!(file.is_error());
    assert!(file.sink(&mut arbitrator, b"abc", 0, true, 0).is_ok());
    assert!(file.is_complete());
}

#[test]
fn test_save() {
    let mut arbitrator = Arbitrator::new(0);
    let file = File::create_file(
        &mut arbitrator,
        b"abc",
        b"/tmp/.file0".to_vec(),
        b"/tmp/file".to_vec(),
        0,
        empty_crc(),
        1,
        b"{}",
        0,
    )
    .unwrap()
    .0;
    assert!(file.is_complete());
    let plan = file.save(false).unwrap();
    assert!(plan.backup.is_none());
    assert_eq!(plan.commit.0, b"/tmp/.file0".to_vec());
    assert_eq!(plan.commit.1, b"/tmp/file".to_vec());
}

#[test]
fn test_save_backup() {
    let mut arbitrator = Arbitrator::new(0);
    let file = File::create_file(
        &mut arbitrator,
        b"abc",
        b"/tmp/.file0".to_vec(),
        b"/tmp/file".to_vec(),
        0,
        empty_crc(),
        1,
        b"{\"backup_existing\":\".bk\",\"chunk_size\":null}",
        0,
    )
    .unwrap()
    .0;
    let plan = file.save(true).unwrap();
    assert_eq!(plan.backup, Some((b"/tmp/file".to_vec(), b"/tmp/file.bk".to_vec())));
    let plan = file.save(false).unwrap();
    assert!(plan.backup.is_none());
}

#[test]
fn test_open_send() {
    let content = b"abc".to_vec();
    let crc = crc::Crc::<u64>::new(&crc::CRC_64_ECMA_182).checksum(b"abc");
    let file = File::open_file(content, Some(&[Options::ChunkSize(2)])).unwrap();

    let frames = file.send_new(b"/tmp/remote_file.txt");
    assert_eq!(frames.len(), 6);
    assert_eq!(frames[0], b"NEW".to_vec());
    assert_eq!(frames[1], b"/tmp/remote_file.txt".to_vec());
    assert_eq!(frames[2], b"3".to_vec());
    assert_eq!(frames[3], crc.to_string().into_bytes());
    assert_eq!(frames[4], b"2".to_vec());
    assert_eq!(frames[5], b"{\"backup_existing\":null,\"chunk_size\":2}".to_vec());

    let pull = vec![b"CHUNK".to_vec(), b"1".to_vec()];
    match file.send_reply(&pull) {
        SendStep::SendChunk(cf) => {
            assert_eq!(cf[0], b"CHUNK".to_vec());
            assert_eq!(cf[1], b"1".to_vec());
            assert_eq!(cf[2], b"c".to_vec());
        },
        _ => panic!("expected a chunk"),
    }

    let done = vec![b"Ok".to_vec()];
    assert!(matches!(file.send_reply(&done), SendStep::Done));

    let failed = vec![b"Err".to_vec(), b"no room".to_vec()];
    match file.send_reply(&failed) {
        SendStep::Failed(m) => assert_eq!(m, b"no room".to_vec()),
        _ => panic!("expected a failure"),
    }
}

#[test]
fn test_open_file_boundaries() {
    // n == chunk_size: exactly one chunk, full length.
    let file = File::open_file(b"wxyz".to_vec(), Some(&[Options::ChunkSize(4)])).unwrap();
    assert_eq!(file.chunks.len(), 1);
    match file.send_reply(&vec![b"CHUNK".to_vec(), b"0".to_vec()]) {
        SendStep::SendChunk(cf) => assert_eq!(cf[2], b"wxyz".to_vec()),
        _ => panic!("expected a chunk"),
    }

    // n == chunk_size + 1: two chunks, the second one byte long.
    let file = File::open_file(b"wxyza".to_vec(), Some(&[Options::ChunkSize(4)])).unwrap();
    assert_eq!(file.chunks.len(), 2);
    match file.send_reply(&vec![b"CHUNK".to_vec(), b"1".to_vec()]) {
        SendStep::SendChunk(cf) => assert_eq!(cf[2], b"a".to_vec()),
        _ => panic!("expected a chunk"),
    }

    // n == 0: no chunks at all.
    let file = File::open_file(Vec::new(), None).unwrap();
    assert!(file.is_complete());
}

#[test]
fn test_send_reply_rejects() {
    let file = File::open_file(b"abc".to_vec(), Some(&[Options::ChunkSize(2)])).unwrap();

    // An unknown leading frame violates the protocol.
    match file.send_reply(&vec![b"HELLO".to_vec()]) {
        SendStep::Reject(e) => assert_eq!(e.message(), b"Invalid reply".to_vec()),
        _ => panic!("expected a rejection"),
    }
    // A pull whose index is not a number violates the protocol.
    match file.send_reply(&vec![b"CHUNK".to_vec(), b"x1".to_vec()]) {
        SendStep::Reject(e) => assert_eq!(e.message(), b"Invalid reply".to_vec()),
        _ => panic!("expected a rejection"),
    }
    // A pull for a chunk the file does not have is rejected by index.
    match file.send_reply(&vec![b"CHUNK".to_vec(), b"9".to_vec()]) {
        SendStep::Reject(e) => assert_eq!(e.message(), b"Chunk index not in file".to_vec()),
        _ => panic!("expected a rejection"),
    }
}

#[test]
fn test_sink_success_exactly_once() {
    // A second success for the same chunk index finds nothing to remove.
    let mut arbitrator = Arbitrator::new(1);
    let mut file = File::create_file(
        &mut arbitrator,
        b"abc",
        b"/tmp/.t0".to_vec(),
        b"/tmp/t".to_vec(),
        2,
        0,
        1,
        b"{}",
        0,
    )
    .unwrap()
    .0;
    assert!(file.sink(&mut arbitrator, b"abc", 0, true, 0).is_ok());
    let second = file.sink(&mut arbitrator, b"abc", 0, true, 0);
    assert!(second.is_err());
    assert!(!file.is_complete());
}
