//! One transfer session: the file content (sender) or staging buffer
//! (receiver), the pending-chunk map, the saturating error counter, and the
//! commit decision.

use vstd::prelude::*;

use crate::arbitrator::dispatch;
use crate::arbitrator::pull_views;
use crate::arbitrator::queue_view;
use crate::arbitrator::Arbitrator;
use crate::arbitrator::Pull;
use crate::checksum::crc64;
use crate::checksum::crc64_of;
use crate::chunk::chunk_len;
use crate::chunk::chunk_offset;
use crate::chunk::lemma_chunk_in_range;
use crate::chunk::lemma_num_chunks;
use crate::chunk::num_chunks;
use crate::chunk::ascending;
use crate::chunk::write_at_spec;
use crate::chunk::Chunk;
use crate::error::Error;
use crate::options::decode_spec;
use crate::options::options_view;
use crate::options::FileOptions;
use crate::options::Options;
use crate::text::dec_digits;
use crate::text::fmt_u64;
use crate::wire::mk_tag_new;
use crate::wire::tag_new;

verus! {

/// Default chunk size in bytes.
pub const CHUNK_SIZE: u64 = 1024;

/// A File whose error counter reaches this value is failed.
pub const MAX_CHUNK_ERR: u8 = 5;

/// A transfer session.  On the sender side `content` holds the file's
/// bytes; on the receiver side it is the staging buffer that arriving chunks
/// are written into, and `path`/`upload_path` hold the committed and staging
/// locations.
pub struct File {
    /// File bytes (sender) or staging buffer (receiver).
    pub content: Vec<u8>,
    /// Committed path; `None` on the sender side.
    pub path: Option<Vec<u8>>,
    /// Staging path; `None` on the sender side.
    pub upload_path: Option<Vec<u8>>,
    /// Total size in bytes.
    pub size: u64,
    /// Expected 64-bit checksum of the content.
    pub crc: u64,
    /// Still-outstanding chunks, in ascending index order.
    pub chunks: Vec<Chunk>,
    /// Saturating count of failed chunk writes.
    pub chunk_error_cnt: u8,
    /// Chunk size in bytes.
    pub chunk_size: u64,
    /// Decoded per-transfer options.
    pub options: FileOptions,
}

/// The chunk indices `0 .. n`.
pub open spec fn index_run(n: nat) -> Seq<u64> {
    Seq::new(n, |k: int| k as u64)
}

/// `n` zero bytes.
pub open spec fn zero_bytes(n: nat) -> Seq<u8> {
    Seq::new(n, |k: int| 0u8)
}

/// The index of each chunk, in map order.
pub open spec fn indices_of(chunks: Seq<Chunk>) -> Seq<u64> {
    chunks.map_values(|c: Chunk| c.index)
}

/// The pending chunk indices, in map order.
pub open spec fn pending(f: File) -> Seq<u64> {
    indices_of(f.chunks@)
}

/// How many chunks the whole transfer has.
pub open spec fn total_chunks(f: File) -> nat {
    num_chunks(f.size as nat, f.chunk_size as nat)
}

impl File {
    /// Session coherence: a sized transfer has a nonzero chunk size, the
    /// buffer covers the size, and the pending indices are strictly
    /// ascending and within range.
    pub open spec fn wf(&self) -> bool {
        &&& self.size > 0 ==> self.chunk_size > 0
        &&& self.content@.len() >= self.size
        &&& forall|a: int, b: int|
            0 <= a < b < pending(*self).len() ==> pending(*self)[a] < pending(*self)[b]
        &&& forall|k: int| 0 <= k < pending(*self).len() ==> (#[trigger] pending(*self)[k] as nat) < total_chunks(*self)
    }

    /// Additionally, on the sender side the buffer is exactly the file.
    pub open spec fn wf_sender(&self) -> bool {
        &&& self.wf()
        &&& self.content@.len() == self.size
        &&& self.chunk_size > 0
    }

    /// Is every chunk acknowledged?  A File is complete exactly when its
    /// pending map is empty.
    pub fn is_complete(&self) -> (r: bool)
        ensures
            r == (pending(*self).len() == 0),
    {
        self.chunks.len() == 0
    }

    /// Has the chunk-error counter saturated?
    pub fn is_error(&self) -> (r: bool)
        ensures
            r == (self.chunk_error_cnt >= MAX_CHUNK_ERR),
    {
        self.chunk_error_cnt >= MAX_CHUNK_ERR
    }
}

/// The position of `x` in `s`, or -1 when absent.
pub open spec fn index_pos(s: Seq<u64>, x: u64) -> int
    decreases s.len(),
{
    if s.len() == 0 {
        -1
    } else if s[0] == x {
        0
    } else {
        let r = index_pos(s.drop_first(), x);
        if r < 0 {
            -1
        } else {
            r + 1
        }
    }
}

/// What `index_pos` means: -1 is "absent", otherwise it points at the
/// earliest occurrence.
pub proof fn lemma_index_pos(s: Seq<u64>, x: u64)
    ensures
        ({
            let m = index_pos(s, x);
            &&& (m == -1 ==> forall|k: int| 0 <= k < s.len() ==> #[trigger] s[k] != x)
            &&& (m >= 0 ==> 0 <= m < s.len() && s[m] == x && forall|k: int|
                0 <= k < m ==> #[trigger] s[k] != x)
        }),
    decreases s.len(),
{
    if s.len() > 0 && s[0] != x {
        lemma_index_pos(s.drop_first(), x);
        let r = index_pos(s.drop_first(), x);
        if r == -1 {
            assert forall|k: int| 0 <= k < s.len() implies #[trigger] s[k] != x by {
                if k > 0 {
                    assert(s.drop_first()[k - 1] == s[k]);
                }
            }
        } else {
            assert(s.drop_first()[r] == s[r + 1]);
            assert forall|k: int| 0 <= k < r + 1 implies #[trigger] s[k] != x by {
                if k > 0 {
                    assert(s.drop_first()[k - 1] == s[k]);
                }
            }
        }
    }
}

/// Seeding the arbitrator with chunks `from .. total` of one peer, one
/// `queue` call per chunk: the queue, slots, and pulls that result.
pub open spec fn seed_chunks(
    qv: Seq<(Seq<u8>, u64, Option<u64>)>,
    slots: u32,
    rid: Seq<u8>,
    from: u64,
    total: u64,
    now: u64,
) -> (Seq<(Seq<u8>, u64, Option<u64>)>, u32, Seq<(Seq<u8>, u64)>)
    decreases total - from,
{
    if from >= total {
        (qv, slots, Seq::<(Seq<u8>, u64)>::empty())
    } else {
        let rec = dispatch(qv.push((rid, from, None)), slots, now);
        let rest = seed_chunks(rec.0, rec.1, rid, (from + 1) as u64, total, now);
        (rest.0, rest.1, rec.2 + rest.2)
    }
}

impl File {
    /// Wrap in-memory file content for sending: compute its checksum, pick
    /// the chunk size (the `ChunkSize` option overrides the default), and
    /// mark every chunk pending.  Rejects a zero `ChunkSize` option, which
    /// could make no progress.
    pub fn open_file(content: Vec<u8>, options: Option<&[Options]>) -> (r: Result<File, Error>)
        ensures
            ({
                let opts = match options {
                    Some(s) => crate::options::collected(s@),
                    None => (None::<Seq<u8>>, None::<u64>),
                };
                match r {
                    Ok(f) => {
                        &&& opts.1 != Some(0u64)
                        &&& f.wf_sender()
                        &&& f.content@ == content@
                        &&& f.size == content@.len()
                        &&& f.crc == crc64_of(content@)
                        &&& f.chunk_size == (match opts.1 {
                            Some(n) => n,
                            None => CHUNK_SIZE,
                        })
                        &&& options_view(f.options) == opts
                        &&& f.chunk_error_cnt == 0
                        &&& f.path is None
                        &&& f.upload_path is None
                        &&& pending(f) == index_run(total_chunks(f))
                    },
                    Err(e) => {
                        &&& e == Error::InvalidFileOpts
                        &&& opts.1 == Some(0u64)
                    },
                }
            }),
    {
        let opts = FileOptions::new(options);
        let chunk_size: u64 = match &opts.chunk_size {
            Some(n) => *n,
            None => CHUNK_SIZE,
        };
        if chunk_size == 0 {
            return Err(Error::InvalidFileOpts);
        }
        let size: u64 = content.len() as u64;
        let crc = crc64(content.as_slice());
        let total = total_of(size, chunk_size);
        let chunks = all_chunks(total);
        let f = File {
            content,
            path: None,
            upload_path: None,
            size,
            crc,
            chunks,
            chunk_error_cnt: 0,
            chunk_size,
            options: opts,
        };
        proof {
            assert(pending(f) =~= index_run(total_chunks(f)));
        }
        Ok(f)
    }
}

/// `⌈size/chunk_size⌉`, computed without overflowing.
fn total_of(size: u64, chunk_size: u64) -> (total: u64)
    requires
        chunk_size > 0,
    ensures
        total == num_chunks(size as nat, chunk_size as nat),
        total <= size,
{
    if size == 0 {
        proof {
            lemma_num_chunks(size as nat, chunk_size as nat);
        }
        0
    } else {
        let total = (size - 1) / chunk_size + 1;
        proof {
            let s = size as int;
            let c = chunk_size as int;
            vstd::arithmetic::div_mod::lemma_fundamental_div_mod(s - 1, c);
            vstd::arithmetic::div_mod::lemma_mod_bound(s - 1, c);
            let k = (s - 1) / c;
            let r = (s - 1) % c;
            assert(s + c - 1 == c * (k + 1) + r) by (nonlinear_arith)
                requires
                    s - 1 == c * k + r,
            ;
            vstd::arithmetic::div_mod::lemma_fundamental_div_mod_converse(s + c - 1, c, k + 1, r);
            lemma_num_chunks(size as nat, chunk_size as nat);
            assert(k + 1 <= s) by (nonlinear_arith)
                requires
                    s - 1 == c * k + r,
                    0 <= r < c,
                    s >= 1,
                    c >= 1,
            ;
        }
        total
    }
}

/// Appending the chunk with the next index extends `0 .. i` to `0 .. i+1`.
proof fn lemma_indices_push(chunks: Seq<Chunk>, c: Chunk, i: u64)
    requires
        indices_of(chunks) == index_run(i as nat),
        c.index == i,
    ensures
        indices_of(chunks.push(c)) == index_run((i + 1) as nat),
{
    let m0 = indices_of(chunks);
    let m1 = indices_of(chunks.push(c));
    assert(m0.len() == chunks.len());
    assert(index_run(i as nat).len() == i as nat);
    assert(chunks.len() == i as nat);
    let target = index_run((i + 1) as nat);
    assert forall|k: int| 0 <= k < i + 1 implies m1[k] == target[k] by {
        if k < i {
            assert(chunks.push(c)[k] == chunks[k]);
            assert(m1[k] == chunks[k].index);
            assert(m0[k] == chunks[k].index);
            assert(m0[k] == (k as u64));
        } else {
            assert(chunks.push(c)[k] == c);
        }
    }
    assert(m1 =~= target);
}

/// Chunks `0 .. total`, each pending.
fn all_chunks(total: u64) -> (chunks: Vec<Chunk>)
    ensures
        indices_of(chunks@) == index_run(total as nat),
{
    let mut chunks: Vec<Chunk> = Vec::new();
    proof {
        assert(indices_of(chunks@) =~= index_run(0nat));
    }
    let mut i: u64 = 0;
    while i < total
        invariant
            i <= total,
            indices_of(chunks@) == index_run(i as nat),
        decreases total - i,
    {
        let c = Chunk::new(i);
        proof {
            lemma_indices_push(chunks@, c, i);
        }
        chunks.push(c);
        i = i + 1;
    }
    chunks
}

impl File {
    /// Receiver side: build the session for an announced transfer.  The
    /// staging buffer starts zeroed at `size` bytes; every chunk is queued
    /// with the arbitrator, whose pull commands are returned.  Fails with
    /// `InvalidRequest` on an undecodable options blob, a zero chunk size
    /// for a sized transfer, or a size beyond this machine's buffers.
    pub fn create_file(
        arbitrator: &mut Arbitrator,
        router_id: &[u8],
        fh_path: Vec<u8>,
        path: Vec<u8>,
        size: u64,
        crc: u64,
        chunk_size: u64,
        options: &[u8],
        now: u64,
    ) -> (r: Result<(File, Vec<Pull>), Error>)
        requires
            old(arbitrator).wf(),
        ensures
            final(arbitrator).wf(),
            final(arbitrator).upload_slots == old(arbitrator).upload_slots,
            ({
                let ok_input = (decode_spec(options@) is Some) && (size == 0 || chunk_size > 0)
                    && size <= usize::MAX;
                match r {
                    Ok((f, pulls)) => {
                        &&& ok_input
                        &&& f.wf()
                        &&& f.content@ == zero_bytes(size as nat)
                        &&& f.path == Some(path)
                        &&& f.upload_path == Some(fh_path)
                        &&& f.size == size
                        &&& f.crc == crc
                        &&& f.chunk_size == chunk_size
                        &&& f.chunk_error_cnt == 0
                        &&& Some(options_view(f.options)) == decode_spec(options@)
                        &&& pending(f) == index_run(total_chunks(f))
                        &&& ({
                            let seeded = seed_chunks(
                                queue_view(old(arbitrator).queue@),
                                old(arbitrator).slots,
                                router_id@,
                                0,
                                num_chunks(size as nat, chunk_size as nat) as u64,
                                now,
                            );
                            &&& queue_view(final(arbitrator).queue@) == seeded.0
                            &&& final(arbitrator).slots == seeded.1
                            &&& pull_views(pulls@) == seeded.2
                        })
                    },
                    Err(e) => {
                        &&& e == Error::InvalidRequest
                        &&& !ok_input
                        &&& queue_view(final(arbitrator).queue@) == queue_view(
                            old(arbitrator).queue@,
                        )
                        &&& final(arbitrator).slots == old(arbitrator).slots
                    },
                }
            }),
    {
        let opts = match FileOptions::decode(options) {
            Ok(o) => o,
            Err(_) => {
                return Err(Error::InvalidRequest);
            },
        };
        if size > 0 && chunk_size == 0 {
            return Err(Error::InvalidRequest);
        }
        if size > usize::MAX as u64 {
            return Err(Error::InvalidRequest);
        }
        let total: u64 = if size == 0 {
            0
        } else {
            total_of(size, chunk_size)
        };
        proof {
            if chunk_size > 0 {
                lemma_num_chunks(size as nat, chunk_size as nat);
            }
        }
        let content = zeroed(size as usize);
        let ghost qv0 = queue_view(arbitrator.queue@);
        let ghost s0 = arbitrator.slots;
        let mut chunks: Vec<Chunk> = Vec::new();
        let mut pulls: Vec<Pull> = Vec::new();
        proof {
            assert(indices_of(chunks@) =~= index_run(0nat));
            assert(pull_views(pulls@) =~= Seq::<(Seq<u8>, u64)>::empty());
            assert(pull_views(pulls@) + seed_chunks(qv0, s0, router_id@, 0, total, now).2
                =~= seed_chunks(qv0, s0, router_id@, 0, total, now).2);
        }
        let mut i: u64 = 0;
        while i < total
            invariant
                old(arbitrator).wf(),
                qv0 == queue_view(old(arbitrator).queue@),
                s0 == old(arbitrator).slots,
                arbitrator.wf(),
                arbitrator.upload_slots == old(arbitrator).upload_slots,
                i <= total,
                indices_of(chunks@) == index_run(i as nat),
                ({
                    let whole = seed_chunks(qv0, s0, router_id@, 0, total, now);
                    let rest = seed_chunks(
                        queue_view(arbitrator.queue@),
                        arbitrator.slots,
                        router_id@,
                        i,
                        total,
                        now,
                    );
                    &&& whole.0 == rest.0
                    &&& whole.1 == rest.1
                    &&& whole.2 == pull_views(pulls@) + rest.2
                }),
            decreases total - i,
        {
            let ghost qv_pre = queue_view(arbitrator.queue@);
            let ghost s_pre = arbitrator.slots;
            let chunk = Chunk::new(i);
            let mut step = arbitrator.queue(&chunk, router_id, now);
            proof {
                let rec = dispatch(qv_pre.push((router_id@, i, None)), s_pre, now);
                let rest_new = seed_chunks(
                    queue_view(arbitrator.queue@),
                    arbitrator.slots,
                    router_id@,
                    (i + 1) as u64,
                    total,
                    now,
                );
                assert(seed_chunks(qv_pre, s_pre, router_id@, i, total, now) == (
                    rest_new.0,
                    rest_new.1,
                    rec.2 + rest_new.2,
                ));
                assert(pull_views(pulls@ + step@) =~= pull_views(pulls@) + pull_views(step@));
                assert(pull_views(pulls@) + (rec.2 + rest_new.2) =~= (pull_views(pulls@) + rec.2)
                    + rest_new.2);
            }
            pulls.append(&mut step);
            proof {
                lemma_indices_push(chunks@, chunk, i);
            }
            chunks.push(chunk);
            i = i + 1;
        }
        proof {
            let rest = seed_chunks(
                queue_view(arbitrator.queue@),
                arbitrator.slots,
                router_id@,
                total,
                total,
                now,
            );
            assert(rest.2 =~= Seq::<(Seq<u8>, u64)>::empty());
            assert(pull_views(pulls@) + rest.2 =~= pull_views(pulls@));
        }
        let f = File {
            content,
            path: Some(path),
            upload_path: Some(fh_path),
            size,
            crc,
            chunks,
            chunk_error_cnt: 0,
            chunk_size,
            options: opts,
        };
        proof {
            assert(indices_of(f.chunks@) == index_run(total as nat));
            assert(total as nat == total_chunks(f));
            assert(pending(f) =~= index_run(total_chunks(f)));
        }
        Ok((f, pulls))
    }
}

/// A zeroed buffer of `n` bytes.
fn zeroed(n: usize) -> (v: Vec<u8>)
    ensures
        v@ == zero_bytes(n as nat),
{
    let mut v: Vec<u8> = Vec::new();
    while v.len() < n
        invariant
            v@.len() <= n,
            v@ == zero_bytes(v@.len()),
        decreases n - v@.len(),
    {
        v.push(0);
        proof {
            assert(v@ =~= zero_bytes(v@.len()));
        }
    }
    proof {
        assert(v@ =~= zero_bytes(n as nat));
    }
    v
}


/// Removing an element keeps the remaining indices ascending and in place.
proof fn lemma_remove_keeps_order(s: Seq<u64>, m: int)
    requires
        ascending(s),
        0 <= m < s.len(),
    ensures
        ascending(s.remove(m)),
        forall|k: int|
            0 <= k < s.remove(m).len() ==> #[trigger] s.remove(m)[k] == (if k < m {
                s[k]
            } else {
                s[k + 1]
            }),
{
    assert forall|a: int, b: int| 0 <= a < b < s.remove(m).len() implies s.remove(m)[a] < s.remove(
        m,
    )[b] by {
        if b < m {
            assert(s.remove(m)[a] == s[a] && s.remove(m)[b] == s[b]);
        } else if a < m {
            assert(s.remove(m)[a] == s[a] && s.remove(m)[b] == s[b + 1]);
        } else {
            assert(s.remove(m)[a] == s[a + 1] && s.remove(m)[b] == s[b + 1]);
        }
    }
}

/// Removing one chunk removes its index from the pending view.
proof fn lemma_indices_remove(chunks: Seq<Chunk>, m: int)
    requires
        0 <= m < chunks.len(),
    ensures
        indices_of(chunks.remove(m)) == indices_of(chunks).remove(m),
{
    assert(indices_of(chunks.remove(m)) =~= indices_of(chunks).remove(m));
}

impl File {
    /// Receiver side: route an arriving payload to its pending chunk, which
    /// writes it into the staging buffer at the chunk's offset, and build
    /// the completion message for the sink channel.  An index with no
    /// pending chunk is rejected; a payload that cannot fit in this
    /// machine's buffers is a failed chunk write.
    pub fn recv(&mut self, router_id: &[u8], index: u64, data: &[u8]) -> (r: Result<
        Vec<Vec<u8>>,
        Error,
    >)
        requires
            old(self).wf(),
        ensures
            final(self).wf(),
            final(self).chunks@ == old(self).chunks@,
            final(self).size == old(self).size,
            final(self).crc == old(self).crc,
            final(self).chunk_size == old(self).chunk_size,
            final(self).chunk_error_cnt == old(self).chunk_error_cnt,
            final(self).path == old(self).path,
            final(self).upload_path == old(self).upload_path,
            final(self).options == old(self).options,
            ({
                let m = index_pos(pending(*old(self)), index);
                let off = chunk_offset(index as nat, old(self).chunk_size as nat);
                match r {
                    Ok(frames) => {
                        &&& m >= 0
                        &&& off + data@.len() <= usize::MAX
                        &&& final(self).content@ == write_at_spec(old(self).content@, off, data@)
                        &&& frames@.len() == 3
                        &&& frames@[0]@ == router_id@
                        &&& frames@[1]@ == dec_digits(index as nat)
                        &&& frames@[2]@ == crate::wire::sink_success()
                    },
                    Err(e) => {
                        &&& final(self).content@ == old(self).content@
                        &&& (e == Error::ChunkIndex || e == Error::ChunkFail)
                        &&& ((e == Error::ChunkIndex) <==> m == -1)
                        &&& (e == Error::ChunkFail ==> off + data@.len() > usize::MAX)
                    },
                }
            }),
    {
        let ghost pend = pending(*old(self));
        let n = self.chunks.len();
        let mut k: usize = 0;
        while k < n
            invariant
                self == old(self),
                pend == pending(*self),
                old(self).wf(),
                n == self.chunks@.len(),
                k <= n,
                forall|j: int| 0 <= j < k ==> #[trigger] pend[j] != index,
            decreases n - k,
        {
            if self.chunks[k].index == index {
                proof {
                    lemma_index_pos(pend, index);
                    assert(pend[k as int] == self.chunks@[k as int].index);
                    assert(pend[k as int] == index);
                    assert(index_pos(pend, index) == k);
                    assert((pend[k as int] as nat) < total_chunks(*self));
                    if self.chunk_size == 0 {
                        assert(num_chunks(self.size as nat, 0) == 0);
                    }
                    lemma_chunk_in_range(index as nat, self.chunk_size as nat, self.size as nat);
                }
                let chunk = self.chunks[k];
                let content_len: usize = self.content.len();
                let off = chunk.index * self.chunk_size;
                if data.len() > usize::MAX - (off as usize) {
                    return Err(Error::ChunkFail);
                }
                let frames = chunk.recv(&mut self.content, router_id, data, self.chunk_size);
                return Ok(frames);
            }
            proof {
                assert(pend[k as int] == self.chunks@[k as int].index);
            }
            k = k + 1;
        }
        proof {
            lemma_index_pos(pend, index);
            let m = index_pos(pend, index);
            if m >= 0 {
                assert(pend[m] == index);
            }
        }
        Err(Error::ChunkIndex)
    }

    /// Receiver side: account one completion from the sink channel.  On
    /// success, release the chunk's slot and drop it from the pending map;
    /// on failure, re-queue the chunk and count the error — once the counter
    /// saturates at [`MAX_CHUNK_ERR`], further failures change nothing and
    /// the session is failed.
    pub fn sink(
        &mut self,
        arbitrator: &mut Arbitrator,
        router_id: &[u8],
        index: u64,
        success: bool,
        now: u64,
    ) -> (r: Result<Vec<Pull>, Error>)
        requires
            old(self).wf(),
            old(arbitrator).wf(),
        ensures
            final(self).wf(),
            final(arbitrator).wf(),
            final(arbitrator).upload_slots == old(arbitrator).upload_slots,
            final(self).content@ == old(self).content@,
            final(self).size == old(self).size,
            final(self).crc == old(self).crc,
            final(self).chunk_size == old(self).chunk_size,
            final(self).path == old(self).path,
            final(self).upload_path == old(self).upload_path,
            final(self).options == old(self).options,
            ({
                let m = index_pos(pending(*old(self)), index);
                let qv0 = queue_view(old(arbitrator).queue@);
                let s_0 = old(arbitrator).slots;
                match r {
                    Ok(pulls) => {
                        if success {
                            &&& m >= 0
                            &&& pending(*final(self)) == pending(*old(self)).remove(m)
                            &&& final(self).chunk_error_cnt == old(self).chunk_error_cnt
                            &&& ({
                                let am = crate::arbitrator::first_match(qv0, router_id@, index);
                                let freed: u32 = if qv0[am].2 is Some {
                                    1u32
                                } else {
                                    0u32
                                };
                                let rec = dispatch(qv0.remove(am), (s_0 + freed) as u32, now);
                                &&& am >= 0
                                &&& queue_view(final(arbitrator).queue@) == rec.0
                                &&& final(arbitrator).slots == rec.1
                                &&& pull_views(pulls@) == rec.2
                            })
                        } else if old(self).chunk_error_cnt < MAX_CHUNK_ERR {
                            &&& m >= 0
                            &&& final(self).chunks@ == old(self).chunks@
                            &&& final(self).chunk_error_cnt == old(self).chunk_error_cnt + 1
                            &&& ({
                                let rec = dispatch(qv0.push((router_id@, index, None)), s_0, now);
                                &&& queue_view(final(arbitrator).queue@) == rec.0
                                &&& final(arbitrator).slots == rec.1
                                &&& pull_views(pulls@) == rec.2
                            })
                        } else {
                            &&& final(self).chunks@ == old(self).chunks@
                            &&& final(self).chunk_error_cnt == old(self).chunk_error_cnt
                            &&& queue_view(final(arbitrator).queue@) == qv0
                            &&& final(arbitrator).slots == s_0
                            &&& pulls@.len() == 0
                        }
                    },
                    Err(e) => {
                        &&& e == Error::ChunkIndex
                        &&& (success || old(self).chunk_error_cnt < MAX_CHUNK_ERR)
                        &&& final(self).chunks@ == old(self).chunks@
                        &&& final(self).chunk_error_cnt == old(self).chunk_error_cnt
                        &&& queue_view(final(arbitrator).queue@) == qv0
                        &&& final(arbitrator).slots == s_0
                        &&& (m == -1 || (success && crate::arbitrator::first_match(
                            qv0,
                            router_id@,
                            index,
                        ) == -1))
                    },
                }
            }),
    {
        let ghost pend = pending(*old(self));
        if !success && self.chunk_error_cnt >= MAX_CHUNK_ERR {
            return Ok(Vec::new());
        }
        let n = self.chunks.len();
        let mut k: usize = 0;
        while k < n
            invariant
                self == old(self),
                arbitrator == old(arbitrator),
                pend == pending(*self),
                old(self).wf(),
                old(arbitrator).wf(),
                success || self.chunk_error_cnt < MAX_CHUNK_ERR,
                n == self.chunks@.len(),
                k <= n,
                forall|j: int| 0 <= j < k ==> #[trigger] pend[j] != index,
            decreases n - k,
        {
            if self.chunks[k].index == index {
                proof {
                    lemma_index_pos(pend, index);
                    assert(pend[k as int] == self.chunks@[k as int].index);
                    assert(pend[k as int] == index);
                    assert(index_pos(pend, index) == k);
                }
                let chunk = self.chunks[k];
                if success {
                    match arbitrator.release(&chunk, router_id, now) {
                        Ok(pulls) => {
                            proof {
                                lemma_remove_keeps_order(pend, k as int);
                                lemma_indices_remove(self.chunks@, k as int);
                            }
                            self.chunks.remove(k);
                            return Ok(pulls);
                        },
                        Err(e) => {
                            return Err(e);
                        },
                    }
                } else {
                    let pulls = arbitrator.queue(&chunk, router_id, now);
                    self.chunk_error_cnt = self.chunk_error_cnt + 1;
                    return Ok(pulls);
                }
            }
            proof {
                assert(pend[k as int] == self.chunks@[k as int].index);
            }
            k = k + 1;
        }
        proof {
            lemma_index_pos(pend, index);
            let m = index_pos(pend, index);
            if m >= 0 {
                assert(pend[m] == index);
            }
        }
        Err(Error::ChunkIndex)
    }
}

/// The renames that commit a finished transfer: an optional backup of the
/// pre-existing committed file, then the staging file onto the committed
/// path.
pub struct SavePlan {
    /// Rename the existing committed file from the first path to the
    /// second, before the commit.
    pub backup: Option<(Vec<u8>, Vec<u8>)>,
    /// Rename the staging file (first) onto the committed path (second);
    /// this rename must be atomic.
    pub commit: (Vec<u8>, Vec<u8>),
}

impl File {
    /// Decide the commit: recompute the staging buffer's checksum, compare
    /// it against the expected one, and produce the renames to perform.
    /// The backup rename happens only when the transfer asked for one and
    /// the committed path exists.
    pub fn save(&self, target_exists: bool) -> (r: Result<SavePlan, Error>)
        requires
            self.path is Some,
            self.upload_path is Some,
        ensures
            ({
                match r {
                    Ok(plan) => {
                        &&& crc64_of(self.content@) == self.crc
                        &&& plan.commit.0@ == self.upload_path->0@
                        &&& plan.commit.1@ == self.path->0@
                        &&& (match (options_view(self.options).0, target_exists) {
                            (Some(sfx), true) => {
                                &&& plan.backup is Some
                                &&& ({
                                    let bp = plan.backup->0;
                                    &&& bp.0@ == self.path->0@
                                    &&& bp.1@ == self.path->0@ + sfx
                                })
                            },
                            _ => plan.backup is None,
                        })
                    },
                    Err(e) => {
                        &&& e == Error::FailChecksum
                        &&& crc64_of(self.content@) != self.crc
                    },
                }
            }),
    {
        let actual = crc64(self.content.as_slice());
        if actual != self.crc {
            return Err(Error::FailChecksum);
        }
        let path: &Vec<u8> = match &self.path {
            Some(p) => p,
            None => vstd::pervasive::unreached(),
        };
        let upload_path: &Vec<u8> = match &self.upload_path {
            Some(p) => p,
            None => vstd::pervasive::unreached(),
        };
        let backup = match &self.options.backup_existing {
            Some(sfx) => {
                if target_exists {
                    let mut to = vstd::slice::slice_to_vec(path.as_slice());
                    to.extend_from_slice(sfx.as_slice());
                    Some((vstd::slice::slice_to_vec(path.as_slice()), to))
                } else {
                    None
                }
            },
            None => None,
        };
        Ok(
            SavePlan {
                backup,
                commit: (
                    vstd::slice::slice_to_vec(upload_path.as_slice()),
                    vstd::slice::slice_to_vec(path.as_slice()),
                ),
            },
        )
    }

    /// Sender side: the announcement of a transfer,
    /// `NEW | path | size | crc | chunk_size | options`.
    pub fn send_new(&self, remote_path: &[u8]) -> (frames: Vec<Vec<u8>>)
        ensures
            frames@.len() == 6,
            frames@[0]@ == tag_new(),
            frames@[1]@ == remote_path@,
            frames@[2]@ == dec_digits(self.size as nat),
            frames@[3]@ == dec_digits(self.crc as nat),
            frames@[4]@ == dec_digits(self.chunk_size as nat),
            frames@[5]@ == crate::options::encoded_options(
                options_view(self.options).0,
                options_view(self.options).1,
            ),
    {
        let mut frames: Vec<Vec<u8>> = Vec::new();
        frames.push(mk_tag_new());
        frames.push(vstd::slice::slice_to_vec(remote_path));
        frames.push(fmt_u64(self.size));
        frames.push(fmt_u64(self.crc));
        frames.push(fmt_u64(self.chunk_size));
        frames.push(self.options.encode());
        frames
    }
}

/// What the sender does with one reply message.
pub enum SendStep {
    /// The receiver confirmed the transfer; the sender is done.
    Done,
    /// The receiver reported a terminal failure with this message.
    Failed(Vec<u8>),
    /// The receiver pulled a chunk: send these frames.
    SendChunk(Vec<Vec<u8>>),
    /// The reply violates the protocol, or pulls an unknown chunk.
    Reject(Error),
}

impl File {
    /// Sender side: interpret one reply message from the receiver.  `Ok`
    /// ends the transfer, `Err | message` fails it with the message,
    /// `CHUNK | index` asks for that pending chunk's frames, and anything
    /// else is an invalid reply.
    pub fn send_reply(&self, frames: &Vec<Vec<u8>>) -> (step: SendStep)
        requires
            self.wf_sender(),
        ensures
            ({
                if frames@.len() == 0 {
                    step == SendStep::Reject(Error::InvalidReply)
                } else if frames@[0]@ == crate::wire::tag_ok() {
                    step == SendStep::Done
                } else if frames@[0]@ == crate::wire::tag_err() {
                    if frames@.len() >= 2 {
                        step matches SendStep::Failed(m) && m@ == frames@[1]@
                    } else {
                        step == SendStep::Reject(Error::InvalidReply)
                    }
                } else if frames@[0]@ == crate::wire::tag_chunk() {
                    if frames@.len() != 2 {
                        step == SendStep::Reject(Error::InvalidReply)
                    } else if !(frames@[1]@.len() > 0 && crate::text::all_digits(frames@[1]@)
                        && crate::text::dec_val(frames@[1]@) <= u64::MAX) {
                        step == SendStep::Reject(Error::InvalidReply)
                    } else {
                        let idx = crate::text::dec_val(frames@[1]@) as u64;
                        if index_pos(pending(*self), idx) >= 0 {
                            step matches SendStep::SendChunk(cf) && cf@.len() == 3 && cf@[0]@
                                == crate::wire::tag_chunk() && cf@[1]@ == dec_digits(idx as nat)
                                && cf@[2]@ == self.content@.subrange(
                                chunk_offset(idx as nat, self.chunk_size as nat) as int,
                                (chunk_offset(idx as nat, self.chunk_size as nat) + chunk_len(
                                    idx as nat,
                                    self.chunk_size as nat,
                                    self.size as nat,
                                )) as int,
                            )
                        } else {
                            step == SendStep::Reject(Error::ChunkIndex)
                        }
                    }
                } else {
                    step == SendStep::Reject(Error::InvalidReply)
                }
            }),
    {
        if frames.len() == 0 {
            return SendStep::Reject(Error::InvalidReply);
        }
        let t_ok = crate::wire::mk_tag_ok();
        let t_err = crate::wire::mk_tag_err();
        let t_chunk = crate::wire::mk_tag_chunk();
        if crate::wire::frame_is(frames[0].as_slice(), t_ok.as_slice()) {
            return SendStep::Done;
        }
        if crate::wire::frame_is(frames[0].as_slice(), t_err.as_slice()) {
            if frames.len() >= 2 {
                return SendStep::Failed(vstd::slice::slice_to_vec(frames[1].as_slice()));
            } else {
                return SendStep::Reject(Error::InvalidReply);
            }
        }
        if crate::wire::frame_is(frames[0].as_slice(), t_chunk.as_slice()) {
            if frames.len() != 2 {
                return SendStep::Reject(Error::InvalidReply);
            }
            let idx = match crate::text::parse_u64(frames[1].as_slice()) {
                Some(n) => n,
                None => {
                    return SendStep::Reject(Error::InvalidReply);
                },
            };
            let ghost pend = pending(*self);
            let n = self.chunks.len();
            let mut k: usize = 0;
            while k < n
                invariant
                    pend == pending(*self),
                    self.wf_sender(),
                    frames@.len() == 2,
                    frames@[0]@ == crate::wire::tag_chunk(),
                    frames@[1]@.len() > 0,
                    crate::text::all_digits(frames@[1]@),
                    idx == crate::text::dec_val(frames@[1]@),
                    n == self.chunks@.len(),
                    k <= n,
                    forall|j: int| 0 <= j < k ==> #[trigger] pend[j] != idx,
                decreases n - k,
            {
                if self.chunks[k].index == idx {
                    proof {
                        lemma_index_pos(pend, idx);
                        assert(pend[k as int] == self.chunks@[k as int].index);
                        assert(pend[k as int] == idx);
                        assert(index_pos(pend, idx) == k);
                        assert((pend[k as int] as nat) < total_chunks(*self));
                    }
                    let chunk = self.chunks[k];
                    let cf = chunk.send(self.content.as_slice(), self.chunk_size, self.size);
                    return SendStep::SendChunk(cf);
                }
                proof {
                    assert(pend[k as int] == self.chunks@[k as int].index);
                }
                k = k + 1;
            }
            proof {
                lemma_index_pos(pend, idx);
                let m = index_pos(pend, idx);
                if m >= 0 {
                    assert(pend[m] == idx);
                }
            }
            return SendStep::Reject(Error::ChunkIndex);
        }
        SendStep::Reject(Error::InvalidReply)
    }
}


/// All chunk indices of a transfer with `n` chunks, as a set.
pub open spec fn all_set(n: nat) -> Set<u64> {
    index_run(n).to_set()
}

/// The pending chunk indices, as a set.
pub open spec fn pending_set(f: File) -> Set<u64> {
    pending(f).to_set()
}

/// The chunk indices that have been written and acknowledged exactly once:
/// all indices except the pending ones.
pub open spec fn completed_set(f: File) -> Set<u64> {
    all_set(total_chunks(f)).difference(pending_set(f))
}

/// `index_run(n)` holds exactly the indices below `n`, once each.
proof fn lemma_index_run_facts(n: nat)
    requires
        n <= u64::MAX,
    ensures
        index_run(n).no_duplicates(),
        forall|x: u64| index_run(n).to_set().contains(x) <==> (x as nat) < n,
        all_set(n).finite(),
        all_set(n).len() == n,
{
    broadcast use vstd::seq_lib::group_seq_properties;

    let s = index_run(n);
    assert forall|x: u64| s.to_set().contains(x) <==> (x as nat) < n by {
        if (x as nat) < n {
            assert(s[x as int] == x);
            assert(s.contains(x));
        }
        if s.to_set().contains(x) {
            let k = choose|k: int| 0 <= k < s.len() && s[k] == x;
            assert((x as nat) < n);
        }
    }
    s.unique_seq_to_set();
}

/// A finite set splits exactly into a subset and its complement within.
proof fn lemma_len_split(a: Set<u64>, b: Set<u64>)
    requires
        a.finite(),
        b.subset_of(a),
    ensures
        b.finite(),
        a.difference(b).finite(),
        a.len() == b.len() + a.difference(b).len(),
    decreases a.len(),
{
    vstd::set_lib::lemma_len_subset(b, a);
    if b.is_empty() {
        assert(a.difference(b) =~= a);
    } else {
        let x = b.choose();
        assert(b.contains(x));
        assert(a.contains(x));
        let a2 = a.remove(x);
        let b2 = b.remove(x);
        assert(b2.subset_of(a2));
        assert(a2.len() == a.len() - 1);
        lemma_len_split(a2, b2);
        assert(a2.difference(b2) =~= a.difference(b));
        assert(b2.len() == b.len() - 1);
    }
}

/// Strictly ascending indices never repeat.
proof fn lemma_ascending_no_duplicates(s: Seq<u64>)
    requires
        ascending(s),
    ensures
        s.no_duplicates(),
{
    assert forall|i: int, j: int| 0 <= i < s.len() && 0 <= j < s.len() && i != j implies s[i]
        != s[j] by {
        if i < j {
            assert(s[i] < s[j]);
        } else {
            assert(s[j] < s[i]);
        }
    }
}

/// The pending and completed chunks of a coherent session partition its
/// chunk indices: `|pending| + |completed|` is the total chunk count.
pub proof fn lemma_chunk_partition(f: File)
    requires
        f.wf(),
    ensures
        pending(f).len() + completed_set(f).len() == total_chunks(f),
{
    let total = total_chunks(f);
    assert(total <= u64::MAX) by {
        if f.chunk_size > 0 {
            lemma_num_chunks(f.size as nat, f.chunk_size as nat);
            if total > 0 {
                assert((total - 1) * f.chunk_size < f.size);
                assert(total - 1 <= (total - 1) * f.chunk_size) by (nonlinear_arith)
                    requires
                        f.chunk_size >= 1,
                        total >= 1,
                ;
            }
        }
    }
    lemma_index_run_facts(total);
    broadcast use vstd::seq_lib::group_seq_properties;

    lemma_ascending_no_duplicates(pending(f));
    pending(f).unique_seq_to_set();
    assert(pending_set(f).subset_of(all_set(total))) by {
        assert forall|x: u64| pending_set(f).contains(x) implies all_set(total).contains(x) by {
            let k = choose|k: int| 0 <= k < pending(f).len() && pending(f)[k] == x;
            assert((pending(f)[k] as nat) < total);
        }
    }
    lemma_len_split(all_set(total), pending_set(f));
}

/// A session is complete exactly when every chunk index received its one
/// successful completion: the completed set covers all chunk indices.
pub proof fn lemma_complete_iff_all(f: File)
    requires
        f.wf(),
    ensures
        (pending(f).len() == 0) <==> (completed_set(f) == all_set(total_chunks(f))),
{
    let total = total_chunks(f);
    assert(total <= u64::MAX) by {
        if f.chunk_size > 0 {
            lemma_num_chunks(f.size as nat, f.chunk_size as nat);
            if total > 0 {
                assert((total - 1) * f.chunk_size < f.size);
                assert(total - 1 <= (total - 1) * f.chunk_size) by (nonlinear_arith)
                    requires
                        f.chunk_size >= 1,
                        total >= 1,
                ;
            }
        }
    }
    lemma_index_run_facts(total);
    broadcast use vstd::seq_lib::group_seq_properties;

    if pending(f).len() == 0 {
        assert forall|x: u64| !pending_set(f).contains(x) by {
            if pending_set(f).contains(x) {
                let k = choose|k: int| 0 <= k < pending(f).len() && pending(f)[k] == x;
            }
        }
        assert(completed_set(f) =~= all_set(total));
    }
    if pending(f).len() > 0 {
        let x = pending(f)[0];
        assert(pending(f).contains(x));
        assert(pending_set(f).contains(x));
        assert((pending(f)[0] as nat) < total);
        assert(all_set(total).contains(x));
        assert(!completed_set(f).contains(x));
        assert(completed_set(f) != all_set(total));
    }
}

/// Writing one chunk's exact payload fills that chunk's byte range and
/// leaves every other chunk's range untouched.
pub proof fn lemma_write_chunk(buf: Seq<u8>, chunk_size: nat, i: nat, data: Seq<u8>)
    requires
        chunk_size > 0,
        i < num_chunks(buf.len(), chunk_size),
        data.len() == chunk_len(i, chunk_size, buf.len()),
    ensures
        ({
            let buf2 = write_at_spec(buf, chunk_offset(i, chunk_size), data);
            &&& buf2.len() == buf.len()
            &&& buf2.subrange(
                chunk_offset(i, chunk_size) as int,
                (chunk_offset(i, chunk_size) + chunk_len(i, chunk_size, buf.len())) as int,
            ) == data
            &&& forall|j: nat|
                j < num_chunks(buf.len(), chunk_size) && j != i ==> buf2.subrange(
                    chunk_offset(j, chunk_size) as int,
                    (chunk_offset(j, chunk_size) + chunk_len(j, chunk_size, buf.len())) as int,
                ) == buf.subrange(
                    chunk_offset(j, chunk_size) as int,
                    (chunk_offset(j, chunk_size) + chunk_len(j, chunk_size, buf.len())) as int,
                )
        }),
{
    let size = buf.len();
    let off = chunk_offset(i, chunk_size);
    let len = chunk_len(i, chunk_size, size);
    lemma_chunk_in_range(i, chunk_size, size);
    let buf2 = write_at_spec(buf, off, data);
    assert(buf2.len() == buf.len());
    assert(buf2.subrange(off as int, (off + len) as int) =~= data);
    assert forall|j: nat|
        j < num_chunks(size, chunk_size) && j != i implies buf2.subrange(
        chunk_offset(j, chunk_size) as int,
        (chunk_offset(j, chunk_size) + chunk_len(j, chunk_size, size)) as int,
    ) == buf.subrange(
        chunk_offset(j, chunk_size) as int,
        (chunk_offset(j, chunk_size) + chunk_len(j, chunk_size, size)) as int,
    ) by {
        lemma_chunk_in_range(j, chunk_size, size);
        let offj = chunk_offset(j, chunk_size);
        let lenj = chunk_len(j, chunk_size, size);
        if j < i {
            assert(offj + lenj <= offj + chunk_size);
            assert((j + 1) * chunk_size <= i * chunk_size) by (nonlinear_arith)
                requires
                    j + 1 <= i,
                    chunk_size > 0,
            ;
            assert((j + 1) * chunk_size == j * chunk_size + chunk_size) by (nonlinear_arith);
        } else {
            assert((i + 1) * chunk_size <= j * chunk_size) by (nonlinear_arith)
                requires
                    i + 1 <= j,
                    chunk_size > 0,
            ;
            assert((i + 1) * chunk_size == i * chunk_size + chunk_size) by (nonlinear_arith);
        }
        assert(buf2.subrange(offj as int, (offj + lenj) as int) =~= buf.subrange(
            offj as int,
            (offj + lenj) as int,
        ));
    }
}

/// The round-trip law's core: when the staging buffer has the transfer's
/// size and every chunk's byte range holds the sender's bytes for that
/// chunk, the staging buffer is byte-for-byte the sender's content — and so
/// carries the sender's checksum.
pub proof fn lemma_round_trip(staging: Seq<u8>, content: Seq<u8>, chunk_size: nat)
    requires
        chunk_size > 0,
        staging.len() == content.len(),
        forall|i: nat|
            i < num_chunks(content.len(), chunk_size) ==> #[trigger] staging.subrange(
                chunk_offset(i, chunk_size) as int,
                (chunk_offset(i, chunk_size) + chunk_len(i, chunk_size, content.len())) as int,
            ) == content.subrange(
                chunk_offset(i, chunk_size) as int,
                (chunk_offset(i, chunk_size) + chunk_len(i, chunk_size, content.len())) as int,
            ),
    ensures
        staging == content,
        crc64_of(staging) == crc64_of(content),
{
    let size = content.len();
    let total = num_chunks(size, chunk_size);
    lemma_num_chunks(size, chunk_size);
    assert forall|k: int| 0 <= k < size implies staging[k] == content[k] by {
        let c = chunk_size as int;
        let i = k / c;
        vstd::arithmetic::div_mod::lemma_fundamental_div_mod(k, c);
        vstd::arithmetic::div_mod::lemma_mod_bound(k, c);
        assert(i >= 0) by (nonlinear_arith)
            requires
                k == c * i + k % c,
                0 <= k % c < c,
                k >= 0,
                c > 0,
        ;
        assert((i as nat) < total) by {
            if i >= total {
                assert(i * c >= total * c) by (nonlinear_arith)
                    requires
                        i >= total,
                        c > 0,
                ;
                assert(k >= i * c) by (nonlinear_arith)
                    requires
                        k == c * i + k % c,
                        k % c >= 0,
                ;
            }
        }
        let off = chunk_offset(i as nat, chunk_size);
        let len = chunk_len(i as nat, chunk_size, size);
        assert((i as nat) == i);
        assert(off == i * c);
        assert(off <= k < off + c) by (nonlinear_arith)
            requires
                k == c * i + k % c,
                0 <= k % c < c,
                off == i * c,
        ;
        assert(k < off + len);
        assert(staging.subrange(off as int, (off + len) as int)[k - off] == staging[k]);
        assert(content.subrange(off as int, (off + len) as int)[k - off] == content[k]);
        assert(staging.subrange(off as int, (off + len) as int) == content.subrange(
            off as int,
            (off + len) as int,
        ));
    }
    assert(staging =~= content);
}


/// The length of the directory prefix of a path, up to and including the
/// last `/`; 0 when the path has no directory part.
pub open spec fn dir_len(s: Seq<u8>) -> int
    decreases s.len(),
{
    if s.len() == 0 {
        0
    } else if s.last() == 47 {
        s.len() as int
    } else {
        dir_len(s.drop_last())
    }
}

/// The candidate staging filename for a committed path: the final path
/// component prefixed with `.` and suffixed with the collision counter, in
/// the same directory.  The caller probes the filesystem and counts up
/// until the name is free.
pub fn staging_name(path: &[u8], counter: u64) -> (r: Vec<u8>)
    ensures
        r@ == path@.take(dir_len(path@)) + seq![46u8] + path@.skip(dir_len(path@)) + dec_digits(
            counter as nat,
        ),
{
    let n = path.len();
    let mut j: usize = n;
    let mut d: usize = 0;
    let mut found = false;
    proof {
        assert(path@.take(n as int) =~= path@);
    }
    while j > 0 && !found
        invariant
            j <= n,
            n == path@.len(),
            found ==> d == dir_len(path@) && d <= n,
            !found ==> d == 0 && dir_len(path@) == dir_len(path@.take(j as int)),
        decreases j, (if found { 0int } else { 1int }),
    {
        proof {
            assert(path@.take(j as int).last() == path@[j - 1]);
            assert(path@.take(j as int).drop_last() =~= path@.take(j - 1 as int));
        }
        if path[j - 1] == 47 {
            d = j;
            found = true;
        } else {
            j = j - 1;
        }
    }
    proof {
        if !found {
            assert(path@.take(0).len() == 0);
        }
        assert(d == dir_len(path@));
    }
    let mut r: Vec<u8> = Vec::new();
    r.extend_from_slice(vstd::slice::slice_subrange(path, 0, d));
    r.push(46);  // .
    r.extend_from_slice(vstd::slice::slice_subrange(path, d, n));
    let mut digits = fmt_u64(counter);
    r.append(&mut digits);
    proof {
        assert(r@ =~= path@.take(dir_len(path@)) + seq![46u8] + path@.skip(dir_len(path@))
            + dec_digits(counter as nat));
    }
    r
}

} // verus!
