//! One fixed-size byte range of a file, identified by its zero-based index.
//! The sender side slices the range out of the file content and frames it;
//! the receiver side writes an arriving payload at the range's offset in the
//! staging buffer and reports the completion for the sink channel.

use vstd::prelude::*;

use crate::text::dec_digits;
use crate::text::fmt_u64;
use crate::wire::mk_sink_success;
use crate::wire::mk_tag_chunk;
use crate::wire::sink_success;
use crate::wire::tag_chunk;

verus! {

/// How many chunks a file of `size` bytes has: `⌈size/chunk_size⌉`.
pub open spec fn num_chunks(size: nat, chunk_size: nat) -> nat {
    if chunk_size == 0 {
        0
    } else {
        ((size + chunk_size - 1) / chunk_size as int) as nat
    }
}

/// The first byte offset of chunk `index`.
pub open spec fn chunk_offset(index: nat, chunk_size: nat) -> nat {
    index * chunk_size
}

/// The byte length of chunk `index`: `chunk_size`, except for a shorter
/// final chunk.
pub open spec fn chunk_len(index: nat, chunk_size: nat, size: nat) -> nat {
    if chunk_offset(index, chunk_size) + chunk_size <= size {
        chunk_size
    } else {
        (size - chunk_offset(index, chunk_size)) as nat
    }
}

/// The chunk count brackets the size: every valid chunk starts strictly
/// inside the file and the chunks exactly cover it.
pub proof fn lemma_num_chunks(size: nat, chunk_size: nat)
    requires
        chunk_size > 0,
    ensures
        size == 0 ==> num_chunks(size, chunk_size) == 0,
        size > 0 ==> num_chunks(size, chunk_size) >= 1,
        size > 0 ==> (num_chunks(size, chunk_size) - 1) * chunk_size < size,
        size <= num_chunks(size, chunk_size) * chunk_size,
{
    let c = chunk_size as int;
    let s = size as int;
    let n = (s + c - 1) / c;
    vstd::arithmetic::div_mod::lemma_fundamental_div_mod(s + c - 1, c);
    let r = (s + c - 1) % c;
    vstd::arithmetic::div_mod::lemma_mod_bound(s + c - 1, c);
    assert(s + c - 1 == c * n + r);
    if s == 0 {
        assert((c - 1) / c == 0) by {
            vstd::arithmetic::div_mod::lemma_basic_div(c - 1, c);
        }
    } else {
        assert(n >= 1) by (nonlinear_arith)
            requires
                s + c - 1 == c * n + r,
                0 <= r < c,
                s >= 1,
                c >= 1,
        ;
        assert((n - 1) * c < s) by (nonlinear_arith)
            requires
                s + c - 1 == c * n + r,
                0 <= r < c,
        ;
        assert(s <= n * c) by (nonlinear_arith)
            requires
                s + c - 1 == c * n + r,
                0 <= r < c,
        ;
    }
}

/// A valid chunk index starts strictly inside the file and its range stays
/// inside the file.
pub proof fn lemma_chunk_in_range(index: nat, chunk_size: nat, size: nat)
    requires
        chunk_size > 0,
        index < num_chunks(size, chunk_size),
    ensures
        chunk_offset(index, chunk_size) < size,
        chunk_offset(index, chunk_size) + chunk_len(index, chunk_size, size) <= size,
        chunk_len(index, chunk_size, size) <= chunk_size,
{
    lemma_num_chunks(size, chunk_size);
    let n = num_chunks(size, chunk_size);
    assert(index * chunk_size <= (n - 1) * chunk_size) by (nonlinear_arith)
        requires
            index <= n - 1,
            chunk_size > 0,
    ;
}

/// `data` written into `buf` at byte offset `off`: bytes past the end of
/// `buf` extend it, exactly as a positioned write extends a file.
pub open spec fn write_at_spec(buf: Seq<u8>, off: nat, data: Seq<u8>) -> Seq<u8> {
    if off + data.len() <= buf.len() {
        buf.take(off as int) + data + buf.skip((off + data.len()) as int)
    } else {
        buf.take(off as int) + data
    }
}

/// Write `data` into `buf` at offset `off`, growing `buf` if the write runs
/// past its end.
pub fn write_at(buf: &mut Vec<u8>, off: usize, data: &[u8])
    requires
        off <= old(buf)@.len(),
        off + data@.len() <= usize::MAX,
    ensures
        final(buf)@ == write_at_spec(old(buf)@, off as nat, data@),
{
    proof {
        assert(write_at_spec(old(buf)@, off as nat, data@.take(0)) =~= old(buf)@);
    }
    let mut i: usize = 0;
    while i < data.len()
        invariant
            i <= data@.len(),
            off + data@.len() <= usize::MAX,
            off <= old(buf)@.len(),
            buf@ == write_at_spec(old(buf)@, off as nat, data@.take(i as int)),
        decreases data@.len() - i,
    {
        let ghost prev = buf@;
        let b = data[i];
        if off + i < buf.len() {
            let idx = off + i;
            buf[idx] = b;
        } else {
            buf.push(b);
        }
        proof {
            lemma_write_at_step(old(buf)@, off as nat, data@, i as nat, prev, buf@);
        }
        i = i + 1;
    }
    proof {
        assert(data@.take(data@.len() as int) =~= data@);
    }
}

proof fn lemma_write_at_step(orig: Seq<u8>, off: nat, data: Seq<u8>, i: nat, prev: Seq<u8>, cur: Seq<u8>)
    requires
        off <= orig.len(),
        i < data.len(),
        prev == write_at_spec(orig, off, data.take(i as int)),
        off + i < prev.len() ==> cur == prev.update((off + i) as int, data[i as int]),
        off + i >= prev.len() ==> cur == prev.push(data[i as int]),
    ensures
        cur == write_at_spec(orig, off, data.take(i + 1 as int)),
{
    assert(data.take(i + 1 as int) =~= data.take(i as int).push(data[i as int]));
    if off + i < orig.len() {
        assert(prev.len() == orig.len());
        assert(cur =~= write_at_spec(orig, off, data.take(i + 1 as int)));
    } else {
        assert(prev.len() == off + i);
        assert(cur =~= write_at_spec(orig, off, data.take(i + 1 as int)));
    }
}

/// Strictly ascending indices.
pub open spec fn ascending(s: Seq<u64>) -> bool {
    forall|a: int, b: int| 0 <= a < b < s.len() ==> s[a] < s[b]
}

/// One chunk of a transfer, named by its zero-based index.
#[derive(Clone, Copy, Debug, PartialEq, Eq, Structural)]
pub struct Chunk {
    /// The zero-based chunk index.
    pub index: u64,
}

impl Chunk {
    /// A chunk with the given index.
    pub fn new(index: u64) -> (c: Chunk)
        ensures
            c.index == index,
    {
        Chunk { index }
    }

    /// The chunk's index.
    pub fn get_index(&self) -> (i: u64)
        ensures
            i == self.index,
    {
        self.index
    }

    /// Sender side: slice this chunk's byte range out of the file content
    /// and frame it as `CHUNK | index | bytes`.
    pub fn send(&self, content: &[u8], chunk_size: u64, file_size: u64) -> (frames: Vec<Vec<u8>>)
        requires
            content@.len() == file_size,
            chunk_size > 0,
            (self.index as nat) < num_chunks(file_size as nat, chunk_size as nat),
        ensures
            frames@.len() == 3,
            frames@[0]@ == tag_chunk(),
            frames@[1]@ == dec_digits(self.index as nat),
            frames@[2]@ == content@.subrange(
                chunk_offset(self.index as nat, chunk_size as nat) as int,
                (chunk_offset(self.index as nat, chunk_size as nat) + chunk_len(
                    self.index as nat,
                    chunk_size as nat,
                    file_size as nat,
                )) as int,
            ),
    {
        proof {
            lemma_chunk_in_range(self.index as nat, chunk_size as nat, file_size as nat);
        }
        let content_len: usize = content.len();
        let start = self.index * chunk_size;
        let buf_size = if chunk_size > file_size - start {
            file_size - start
        } else {
            chunk_size
        };
        let payload = vstd::slice::slice_subrange(
            content,
            start as usize,
            (start + buf_size) as usize,
        );
        let mut frames: Vec<Vec<u8>> = Vec::new();
        frames.push(mk_tag_chunk());
        frames.push(fmt_u64(self.index));
        frames.push(vstd::slice::slice_to_vec(payload));
        frames
    }

    /// Receiver side: write the payload at this chunk's offset in the
    /// staging buffer and build the completion message for the sink channel,
    /// `router_id | index | "1"`.  An in-memory write cannot fail, so the
    /// completion always reports success; failures are synthesized only by
    /// the chunk timeout.
    pub fn do_recv(
        &self,
        staging: &mut Vec<u8>,
        router_id: &[u8],
        data: &[u8],
        chunk_size: u64,
    ) -> (frames: Vec<Vec<u8>>)
        requires
            chunk_offset(self.index as nat, chunk_size as nat) <= old(staging)@.len(),
            chunk_offset(self.index as nat, chunk_size as nat) + data@.len() <= usize::MAX,
        ensures
            final(staging)@ == write_at_spec(
                old(staging)@,
                chunk_offset(self.index as nat, chunk_size as nat),
                data@,
            ),
            frames@.len() == 3,
            frames@[0]@ == router_id@,
            frames@[1]@ == dec_digits(self.index as nat),
            frames@[2]@ == sink_success(),
    {
        let off = self.index * chunk_size;
        write_at(staging, off as usize, data);
        let mut frames: Vec<Vec<u8>> = Vec::new();
        frames.push(vstd::slice::slice_to_vec(router_id));
        frames.push(fmt_u64(self.index));
        frames.push(mk_sink_success());
        frames
    }

    /// Receiver side entry point for an arriving payload; delegates to
    /// [`Chunk::do_recv`].
    pub fn recv(
        &self,
        staging: &mut Vec<u8>,
        router_id: &[u8],
        data: &[u8],
        chunk_size: u64,
    ) -> (frames: Vec<Vec<u8>>)
        requires
            chunk_offset(self.index as nat, chunk_size as nat) <= old(staging)@.len(),
            chunk_offset(self.index as nat, chunk_size as nat) + data@.len() <= usize::MAX,
        ensures
            final(staging)@ == write_at_spec(
                old(staging)@,
                chunk_offset(self.index as nat, chunk_size as nat),
                data@,
            ),
            frames@.len() == 3,
            frames@[0]@ == router_id@,
            frames@[1]@ == dec_digits(self.index as nat),
            frames@[2]@ == sink_success(),
    {
        self.do_recv(staging, router_id, data, chunk_size)
    }
}

} // verus!
