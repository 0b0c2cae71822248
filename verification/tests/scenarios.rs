use std::collections::VecDeque;

use zfilexfer::file::staging_name;
use zfilexfer::file::File;
use zfilexfer::file::SendStep;
use zfilexfer::server::reply_ok;
use zfilexfer::server::NewDecision;
use zfilexfer::server::SinkOutcome;
use zfilexfer::wire::RouterMsg;
use zfilexfer::Error;
use zfilexfer::Options;
use zfilexfer::Server;

fn parse_dec(bytes: &[u8]) -> u64 {
    String::from_utf8(bytes.to_vec()).unwrap().parse().unwrap()
}

/// Announce the client's file to the server and return the first pulls.
fn announce(server: &mut Server, client: &File, peer: &[u8], remote: &[u8]) -> Vec<RouterMsg> {
    let frames = client.send_new(remote);
    let fields = frames[1..].to_vec();
    match server.handle_new(peer, &fields) {
        NewDecision::Stage { path, size, crc, chunk_size, options } => {
            let staging = staging_name(&path, 0);
            server
                .accept_new(peer, staging, path, size, crc, chunk_size, &options, 0)
                .unwrap()
        },
        NewDecision::Reply(_) => panic!("announcement rejected"),
    }
}

/// Pump pulls through the client and completions through the sink until the
/// wire falls silent; returns the pulled (index, payload) pairs in order and
/// whether the transfer completed.
fn exchange(
    server: &mut Server,
    client: &File,
    peer: &[u8],
    initial: Vec<RouterMsg>,
) -> (Vec<(u64, Vec<u8>)>, bool) {
    let mut queue: VecDeque<RouterMsg> = initial.into_iter().collect();
    let mut pulled = Vec::new();
    let mut complete = false;
    while let Some(msg) = queue.pop_front() {
        match client.send_reply(&msg.frames) {
            SendStep::SendChunk(cf) => {
                let idx = parse_dec(&cf[1]);
                pulled.push((idx, cf[2].clone()));
                let sink_msgs = server.handle_chunk(peer, &cf[1], &cf[2]).unwrap();
                for sm in sink_msgs {
                    let rid = sm[0].clone();
                    let i = parse_dec(&sm[1]);
                    let ok = sm[2] == b"1".to_vec();
                    match server.handle_sink(&rid, i, ok, 0).unwrap() {
                        SinkOutcome::InFlight(more) => queue.extend(more),
                        SinkOutcome::Complete(more) => {
                            queue.extend(more);
                            complete = true;
                        },
                        SinkOutcome::Failed(_, _) => panic!("unexpected terminal failure"),
                    }
                }
            },
            _ => panic!("unexpected reply step"),
        }
    }
    (pulled, complete)
}

#[test]
fn upload() {
    let test_content = b"abcdefghijklmnopqrstuvwxyz";
    let client = File::open_file(
        test_content.to_vec(),
        Some(&[Options::BackupExisting(b".bk".to_vec()), Options::ChunkSize(5)]),
    )
    .unwrap();
    let mut server = Server::new(2);

    let initial = announce(&mut server, &client, b"p1", b"/tmp/file.txt");
    assert_eq!(initial.len(), 2);

    let (pulled, complete) = exchange(&mut server, &client, b"p1", initial);
    assert!(complete);
    let indices: Vec<u64> = pulled.iter().map(|p| p.0).collect();
    assert_eq!(indices, vec![0, 1, 2, 3, 4, 5]);

    // Before the commit, the staging buffer holds exactly the content.
    assert_eq!(server.files[0].1.content, test_content.to_vec());

    let plan = server.save_file(b"p1", true).unwrap();
    assert_eq!(
        plan.backup,
        Some((b"/tmp/file.txt".to_vec(), b"/tmp/file.txt.bk".to_vec()))
    );
    assert_eq!(plan.commit.0, b"/tmp/.file.txt0".to_vec());
    assert_eq!(plan.commit.1, b"/tmp/file.txt".to_vec());
    assert!(server.files.is_empty());

    let ok = reply_ok(b"p1");
    assert!(matches!(client.send_reply(&ok.frames), SendStep::Done));
}

#[test]
fn single_byte_chunk() {
    let client = File::open_file(b"abc".to_vec(), Some(&[Options::ChunkSize(2)])).unwrap();
    let mut server = Server::new(4);

    let initial = announce(&mut server, &client, b"p1", b"/tmp/f");
    let (pulled, complete) = exchange(&mut server, &client, b"p1", initial);
    assert!(complete);
    assert_eq!(pulled, vec![(0, b"ab".to_vec()), (1, b"c".to_vec())]);

    assert!(server.save_file(b"p1", false).is_ok());
}

#[test]
fn chunk_timeout() {
    // One chunk, never answered: the timer synthesizes failures; the
    // reactor re-queues until the error counter saturates, then fails the
    // session.  Six pulls in all, never a seventh.
    let mut server = Server::new(1);
    let msgs = server
        .accept_new(b"p1", b"/tmp/.f0".to_vec(), b"/tmp/f".to_vec(), 1, 0, 1, b"{}", 0)
        .unwrap();
    let mut pull_count = msgs.len();
    assert_eq!(pull_count, 1);

    for cycle in 0..5u64 {
        let now = 60 * (cycle + 1);
        let sink_msgs = server.arbitrator.timeout_expired(now);
        assert_eq!(sink_msgs.len(), 1);
        assert_eq!(sink_msgs[0][2], b"0".to_vec());
        let rid = sink_msgs[0][0].clone();
        let idx = parse_dec(&sink_msgs[0][1]);
        match server.handle_sink(&rid, idx, false, now).unwrap() {
            SinkOutcome::InFlight(more) => {
                assert!(cycle < 4);
                pull_count += more.len();
            },
            SinkOutcome::Failed(more, reply) => {
                assert_eq!(cycle, 4);
                pull_count += more.len();
                assert_eq!(reply.frames[0], b"Err".to_vec());
                assert_eq!(reply.frames[1], b"Failed to upload file".to_vec());
            },
            SinkOutcome::Complete(_) => panic!("cannot complete"),
        }
    }

    assert_eq!(pull_count, 6);
    assert!(server.files.is_empty());
    assert!(server.arbitrator.queue.is_empty());
    assert_eq!(server.arbitrator.slots, 1);
}

#[test]
fn checksum_mismatch() {
    // The announced checksum does not match the bytes that follow: the
    // transfer completes, but the commit is refused.
    let right = crc::Crc::<u64>::new(&crc::CRC_64_ECMA_182).checksum(b"abc");
    let mut server = Server::new(1);
    let msgs = server
        .accept_new(b"p1", b"/tmp/.f0".to_vec(), b"/tmp/f".to_vec(), 3, right + 1, 3, b"{}", 0)
        .unwrap();
    assert_eq!(msgs.len(), 1);

    let sink_msgs = server.handle_chunk(b"p1", b"0", b"abc").unwrap();
    match server.handle_sink(b"p1", 0, true, 0).unwrap() {
        SinkOutcome::Complete(_) => {},
        _ => panic!("expected completion"),
    }
    match server.save_file(b"p1", false) {
        Err(e) => {
            assert_eq!(e, Error::FailChecksum);
            assert_eq!(
                e.message(),
                b"Uploaded file does not match expected CRC".to_vec()
            );
        },
        Ok(_) => panic!("expected a checksum rejection"),
    }
    assert!(server.files.is_empty());
    let _ = sink_msgs;
}
