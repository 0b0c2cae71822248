use zfilexfer::server::reply_err;
use zfilexfer::server::router_verb;
use zfilexfer::server::RouterVerb;
use zfilexfer::server::NewDecision;
use zfilexfer::server::SinkOutcome;
use zfilexfer::Error;
use zfilexfer::Server;

#[test]
fn test_new() {
    let server = Server::new(0);
    assert!(server.files.is_empty());
    assert_eq!(server.arbitrator.slots, 0);
}

#[test]
fn test_reply_err() {
    let reply = reply_err(b"moo", &Error::InvalidRequest);
    assert_eq!(reply.router_id, b"moo".to_vec());
    assert_eq!(reply.frames[0], b"Err".to_vec());
    assert_eq!(reply.frames[1], b"Invalid request".to_vec());
}

#[test]
fn test_recv_new() {
    let mut server = Server::new(0);

    // A size field that is not a number is rejected.
    let fields = vec![
        b"/path/to/file".to_vec(),
        b"abc".to_vec(),
        b"0".to_vec(),
        b"1".to_vec(),
        b"{}".to_vec(),
    ];
    match server.handle_new(b"peer", &fields) {
        NewDecision::Reply(m) => {
            assert_eq!(m.frames[0], b"Err".to_vec());
            assert_eq!(m.frames[1], b"Invalid request".to_vec());
        },
        _ => panic!("expected a rejection"),
    }
    assert_eq!(server.files.len(), 0);

    // A well-formed announcement is staged and admitted.
    let fields = vec![
        b"/tmp/testfile".to_vec(),
        b"10240".to_vec(),
        b"0".to_vec(),
        b"1024".to_vec(),
        b"{}".to_vec(),
    ];
    match server.handle_new(b"peer", &fields) {
        NewDecision::Stage { path, size, crc, chunk_size, options } => {
            assert_eq!(path, b"/tmp/testfile".to_vec());
            assert_eq!(size, 10240);
            assert_eq!(crc, 0);
            assert_eq!(chunk_size, 1024);
            let msgs = server
                .accept_new(b"peer", b"/tmp/.testfile0".to_vec(), path, size, crc, chunk_size, &options, 0)
                .unwrap();
            assert_eq!(msgs.len(), 0);  // zero slots: nothing admitted yet
        },
        _ => panic!("expected staging"),
    }
    assert_eq!(server.files.len(), 1);

    // A second announcement from the same peer is rejected.
    let fields = vec![
        b"/tmp/other".to_vec(),
        b"1".to_vec(),
        b"0".to_vec(),
        b"1".to_vec(),
        b"{}".to_vec(),
    ];
    assert!(matches!(server.handle_new(b"peer", &fields), NewDecision::Reply(_)));
}

#[test]
fn test_recv_chunk() {
    let mut server = Server::new(0);

    // A chunk from a peer with no session is rejected.
    match server.handle_chunk(b"test", b"1", b"bytes") {
        Err(e) => assert_eq!(e.message(), b"Invalid request".to_vec()),
        Ok(_) => panic!("expected a rejection"),
    }

    // With a zero-sized session, any index is outside the file.
    server
        .accept_new(b"test", b"/tmp/.testfile0".to_vec(), b"/tmp/testfile".to_vec(), 0, 0, 1, b"{}", 0)
        .unwrap();
    match server.handle_chunk(b"test", b"1", b"bytes") {
        Err(e) => assert_eq!(e.message(), b"Chunk index not in file".to_vec()),
        Ok(_) => panic!("expected a rejection"),
    }
}

#[test]
fn test_recv_sink() {
    let mut server = Server::new(0);
    server
        .accept_new(b"abc", b"/tmp/.testfile0".to_vec(), b"/tmp/testfile".to_vec(), 1, 0, 1, b"{}", 0)
        .unwrap();

    match server.handle_sink(b"abc", 0, true, 0) {
        Ok(SinkOutcome::Complete(msgs)) => assert_eq!(msgs.len(), 0),
        _ => panic!("expected completion"),
    }
}

#[test]
fn test_unknown_peer_sink() {
    // A sink frame with a router identity absent from the file table is a
    // fatal reactor error.
    let mut server = Server::new(1);
    match server.handle_sink(b"ghost", 0, true, 0) {
        Err(e) => assert_eq!(e, Error::InvalidRequest),
        Ok(_) => panic!("expected a fatal error"),
    }
}

#[test]
fn test_router_verb() {
    assert_eq!(router_verb(b"NEW"), RouterVerb::New);
    assert_eq!(router_verb(b"CHUNK"), RouterVerb::Chunk);
    assert_eq!(router_verb(b"PING"), RouterVerb::Other);
    assert_eq!(router_verb(b""), RouterVerb::Other);
    assert_eq!(router_verb(b"new"), RouterVerb::Other);
}
