use zfilexfer::chunk::Chunk;

#[test]
fn test_recv() {
    let mut staging = vec![0u8; 6];
    let chunk = Chunk::new(1);
    let frames = chunk.do_recv(&mut staging, b"abc", b"abc", 3);
    assert_eq!(frames.len(), 3);
    assert_eq!(frames[0], b"abc".to_vec());
    assert_eq!(frames[1], b"1".to_vec());
    assert_eq!(frames[2], b"1".to_vec());
    assert_eq!(staging, vec![0, 0, 0, 97, 98, 99]);
}

#[test]
fn test_send() {
    let content = b"abc";
    let chunk = Chunk::new(0);
    let frames = chunk.send(content, 2, 3);
    assert_eq!(frames.len(), 3);
    assert_eq!(frames[0], b"CHUNK".to_vec());
    assert_eq!(frames[1], b"0".to_vec());
    assert_eq!(frames[2], b"ab".to_vec());
}

#[test]
fn test_send_last_chunk() {
    let content = b"abc";
    let chunk = Chunk::new(1);
    let frames = chunk.send(content, 2, 3);
    assert_eq!(frames[1], b"1".to_vec());
    assert_eq!(frames[2], b"c".to_vec());
}

#[test]
fn test_recv_extends_buffer() {
    // A payload running past the staging buffer extends it, like a
    // positioned write extends a file.
    let mut staging = vec![9u8; 2];
    let chunk = Chunk::new(0);
    let frames = chunk.recv(&mut staging, b"p", b"wxyz", 4);
    assert_eq!(frames[2], b"1".to_vec());
    assert_eq!(staging, b"wxyz".to_vec());
}
