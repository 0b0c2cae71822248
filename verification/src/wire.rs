//! The fixed byte strings of the wire protocol and the message shapes built
//! from them.  A message is a sequence of frames; a frame is a byte vector.

use vstd::prelude::*;

verus! {

/// `"NEW"`.
pub open spec fn tag_new() -> Seq<u8> {
    seq![78u8, 69u8, 87u8]
}

/// `"CHUNK"`.
pub open spec fn tag_chunk() -> Seq<u8> {
    seq![67u8, 72u8, 85u8, 78u8, 75u8]
}

/// `"Ok"`.
pub open spec fn tag_ok() -> Seq<u8> {
    seq![79u8, 107u8]
}

/// `"Err"`.
pub open spec fn tag_err() -> Seq<u8> {
    seq![69u8, 114u8, 114u8]
}

/// `"1"`: a successful chunk write.
pub open spec fn sink_success() -> Seq<u8> {
    seq![49u8]
}

/// `"0"`: a failed or timed-out chunk.
pub open spec fn sink_failure() -> Seq<u8> {
    seq![48u8]
}

pub fn mk_tag_new() -> (r: Vec<u8>)
    ensures
        r@ == tag_new(),
{
    let r: Vec<u8> = vec![78u8, 69u8, 87u8];
    proof {
        assert(r@ =~= tag_new());
    }
    r
}

pub fn mk_tag_chunk() -> (r: Vec<u8>)
    ensures
        r@ == tag_chunk(),
{
    let r: Vec<u8> = vec![67u8, 72u8, 85u8, 78u8, 75u8];
    proof {
        assert(r@ =~= tag_chunk());
    }
    r
}

pub fn mk_tag_ok() -> (r: Vec<u8>)
    ensures
        r@ == tag_ok(),
{
    let r: Vec<u8> = vec![79u8, 107u8];
    proof {
        assert(r@ =~= tag_ok());
    }
    r
}

pub fn mk_tag_err() -> (r: Vec<u8>)
    ensures
        r@ == tag_err(),
{
    let r: Vec<u8> = vec![69u8, 114u8, 114u8];
    proof {
        assert(r@ =~= tag_err());
    }
    r
}

pub fn mk_sink_success() -> (r: Vec<u8>)
    ensures
        r@ == sink_success(),
{
    let r: Vec<u8> = vec![49u8];
    proof {
        assert(r@ =~= sink_success());
    }
    r
}

pub fn mk_sink_failure() -> (r: Vec<u8>)
    ensures
        r@ == sink_failure(),
{
    let r: Vec<u8> = vec![48u8];
    proof {
        assert(r@ =~= sink_failure());
    }
    r
}

/// Byte-for-byte equality of a frame and an expected constant.
pub fn frame_is(frame: &[u8], expected: &[u8]) -> (r: bool)
    ensures
        r == (frame@ == expected@),
{
    if frame.len() != expected.len() {
        proof {
            assert(frame@.len() != expected@.len());
        }
        return false;
    }
    let mut i: usize = 0;
    while i < frame.len()
        invariant
            i <= frame@.len(),
            frame@.len() == expected@.len(),
            forall|j: int| 0 <= j < i ==> frame@[j] == expected@[j],
        decreases frame@.len() - i,
    {
        if frame[i] != expected[i] {
            return false;
        }
        i = i + 1;
    }
    proof {
        assert(frame@ =~= expected@);
    }
    true
}

/// One message addressed to a peer on the router socket.
pub struct RouterMsg {
    /// The transport identity of the addressee.
    pub router_id: Vec<u8>,
    /// The frames of the message, in order.
    pub frames: Vec<Vec<u8>>,
}

} // verus!
