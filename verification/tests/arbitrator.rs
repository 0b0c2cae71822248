use zfilexfer::arbitrator::Arbitrator;
use zfilexfer::arbitrator::TimedChunk;
use zfilexfer::arbitrator::CHUNK_TIMEOUT;
use zfilexfer::chunk::Chunk;

#[test]
fn test_arbitrator_new() {
    let arbitrator = Arbitrator::new(0);
    assert_eq!(arbitrator.slots, 0);
    assert_eq!(arbitrator.upload_slots, 0);
    assert!(arbitrator.queue.is_empty());
}

#[test]
fn test_arbitrator_queue_release() {
    let chunk = Chunk::new(0);
    let mut arbitrator = Arbitrator::new(1);
    let pulls = arbitrator.queue(&chunk, b"abc", 0);
    assert_eq!(pulls.len(), 1);
    assert_eq!(arbitrator.queue.len(), 1);
    assert_eq!(arbitrator.slots, 0);
    assert!(arbitrator.release(&chunk, b"abc", 0).is_ok());
    assert_eq!(arbitrator.queue.len(), 0);
    assert_eq!(arbitrator.slots, 1);
}

#[test]
fn test_arbitrator_request() {
    let chunks = vec![
        TimedChunk::new(b"abc", 0),
        TimedChunk::new(b"abc", 1),
        TimedChunk::new(b"abc", 2),
        TimedChunk::new(b"def", 0),
        TimedChunk::new(b"def", 1),
        TimedChunk::new(b"def", 2),
    ];

    let mut arbitrator = Arbitrator { queue: chunks, slots: 3, upload_slots: 3 };

    let pulls = arbitrator.request(0);
    assert_eq!(pulls.len(), 3);
    for (x, pull) in pulls.iter().enumerate() {
        assert_eq!(pull.router_id, b"abc".to_vec());
        assert_eq!(pull.index, x as u64);
    }

    let chunk = Chunk::new(0);
    let pulls = arbitrator.release(&chunk, b"abc", 0).unwrap();
    assert_eq!(pulls.len(), 1);
    assert_eq!(pulls[0].router_id, b"def".to_vec());
    assert_eq!(pulls[0].index, 0);
}

#[test]
fn test_chunk_is_expired() {
    let timed = TimedChunk { router_id: vec![97, 98, 99], index: 0, timestamp: Some(0) };
    assert!(timed.is_expired(CHUNK_TIMEOUT));
    assert!(!timed.is_expired(CHUNK_TIMEOUT - 1));
    let waiting = TimedChunk::new(b"abc", 0);
    assert!(!waiting.is_expired(u64::MAX));
}

#[test]
fn test_timer_run() {
    // The timer scan synthesizes a failure frame for every admitted entry
    // whose round trip is over the timeout, and removes it from the queue.
    let mut c = TimedChunk::new(b"abc", 0);
    c.start(0);
    let mut arbitrator = Arbitrator { queue: vec![c], slots: 0, upload_slots: 1 };

    let msgs = arbitrator.timeout_expired(CHUNK_TIMEOUT);
    assert_eq!(msgs.len(), 1);
    assert_eq!(msgs[0][0], b"abc".to_vec());
    assert_eq!(msgs[0][1], b"0".to_vec());
    assert_eq!(msgs[0][2], b"0".to_vec());
    assert!(arbitrator.queue.is_empty());
    assert_eq!(arbitrator.slots, 1);
}

#[test]
fn test_admission_limit() {
    // One slot, two peers with three chunks each: exactly one admitted
    // entry at a time; a release admits the next in FIFO order.
    let mut arbitrator = Arbitrator::new(1);
    let mut pulls = Vec::new();
    for i in 0..3u64 {
        pulls.extend(arbitrator.queue(&Chunk::new(i), b"abc", 0));
    }
    for i in 0..3u64 {
        pulls.extend(arbitrator.queue(&Chunk::new(i), b"def", 0));
    }
    assert_eq!(pulls.len(), 1);
    assert_eq!(pulls[0].router_id, b"abc".to_vec());
    assert_eq!(pulls[0].index, 0);
    let started = arbitrator.queue.iter().filter(|t| t.is_started()).count();
    assert_eq!(started, 1);
    assert_eq!(arbitrator.slots, 0);

    let next = arbitrator.release(&Chunk::new(0), b"abc", 1).unwrap();
    assert_eq!(next.len(), 1);
    assert_eq!(next[0].router_id, b"abc".to_vec());
    assert_eq!(next[0].index, 1);
    let started = arbitrator.queue.iter().filter(|t| t.is_started()).count();
    assert_eq!(started, 1);
}
