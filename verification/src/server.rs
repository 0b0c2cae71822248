//! The protocol reactor's state and decisions: the per-peer file table, the
//! arbitrator, and what each incoming frame does to them.  The reactor's
//! sockets live outside this crate; every decision returns the messages to
//! send.

use vstd::prelude::*;

use crate::arbitrator::dispatch;
use crate::arbitrator::first_match;
use crate::arbitrator::peer_split;
use crate::arbitrator::pull_views;
use crate::arbitrator::queue_view;
use crate::arbitrator::started_count;
use crate::arbitrator::Arbitrator;
use crate::arbitrator::Pull;
use crate::checksum::crc64_of;
use crate::chunk::chunk_offset;
use crate::chunk::write_at_spec;
use crate::error::Error;
use crate::file::index_pos;
use crate::file::pending;
use crate::file::File;
use crate::file::SavePlan;
use crate::file::MAX_CHUNK_ERR;
use crate::options::decode_spec;
use crate::text::all_digits;
use crate::text::dec_digits;
use crate::text::dec_val;
use crate::text::fmt_u64;
use crate::text::parse_u64;
use crate::wire::frame_is;
use crate::wire::mk_tag_chunk;
use crate::wire::mk_tag_err;
use crate::wire::mk_tag_new;
use crate::wire::mk_tag_ok;
use crate::wire::sink_success;
use crate::wire::tag_chunk;
use crate::wire::tag_err;
use crate::wire::tag_new;
use crate::wire::tag_ok;
use crate::wire::RouterMsg;

verus! {

/// Is `s` the decimal text of a `u64`?
pub open spec fn valid_u64_text(s: Seq<u8>) -> bool {
    s.len() > 0 && all_digits(s) && dec_val(s) <= u64::MAX
}

/// The keys of the file table, as byte strings.
pub open spec fn table_keys(t: Seq<(Vec<u8>, File)>) -> Seq<Seq<u8>> {
    t.map_values(|e: (Vec<u8>, File)| e.0@)
}

/// The position of this peer's entry in the table, or -1.
pub open spec fn find_peer(t: Seq<(Vec<u8>, File)>, rid: Seq<u8>) -> int
    decreases t.len(),
{
    if t.len() == 0 {
        -1
    } else if t[0].0@ == rid {
        0
    } else {
        let r = find_peer(t.drop_first(), rid);
        if r < 0 {
            -1
        } else {
            r + 1
        }
    }
}

/// What `find_peer` means: -1 is "absent", otherwise it points at the
/// earliest entry for the peer.
pub proof fn lemma_find_peer(t: Seq<(Vec<u8>, File)>, rid: Seq<u8>)
    ensures
        ({
            let m = find_peer(t, rid);
            &&& (m == -1 ==> forall|k: int| 0 <= k < t.len() ==> (#[trigger] t[k]).0@ != rid)
            &&& (m >= 0 ==> 0 <= m < t.len() && t[m].0@ == rid && forall|k: int|
                0 <= k < m ==> (#[trigger] t[k]).0@ != rid)
        }),
    decreases t.len(),
{
    if t.len() > 0 && t[0].0@ != rid {
        lemma_find_peer(t.drop_first(), rid);
        let r = find_peer(t.drop_first(), rid);
        if r == -1 {
            assert forall|k: int| 0 <= k < t.len() implies (#[trigger] t[k]).0@ != rid by {
                if k > 0 {
                    assert(t.drop_first()[k - 1] == t[k]);
                }
            }
        } else {
            assert(t.drop_first()[r] == t[r + 1]);
            assert forall|k: int| 0 <= k < r + 1 implies (#[trigger] t[k]).0@ != rid by {
                if k > 0 {
                    assert(t.drop_first()[k - 1] == t[k]);
                }
            }
        }
    }
}

/// Is `m` the `Err | message` reply for this peer and error?
pub open spec fn is_err_reply(m: RouterMsg, rid: Seq<u8>, e: Error) -> bool {
    &&& m.router_id@ == rid
    &&& m.frames@.len() == 2
    &&& m.frames@[0]@ == tag_err()
    &&& m.frames@[1]@ == e.spec_message()
}

/// Is `m` the terminal `Ok` reply for this peer?
pub open spec fn is_ok_reply(m: RouterMsg, rid: Seq<u8>) -> bool {
    &&& m.router_id@ == rid
    &&& m.frames@.len() == 1
    &&& m.frames@[0]@ == tag_ok()
}

/// Are `msgs` exactly the pull commands `views`, each framed as
/// `CHUNK | index` to its peer?
pub open spec fn are_pull_msgs(msgs: Seq<RouterMsg>, views: Seq<(Seq<u8>, u64)>) -> bool {
    &&& msgs.len() == views.len()
    &&& forall|k: int|
        0 <= k < msgs.len() ==> {
            let m = #[trigger] msgs[k];
            &&& m.router_id@ == views[k].0
            &&& m.frames@.len() == 2
            &&& m.frames@[0]@ == tag_chunk()
            &&& m.frames@[1]@ == dec_digits(views[k].1 as nat)
        }
}

/// All fields equal at the view level.
pub open spec fn same_file(a: File, b: File) -> bool {
    &&& a.content@ == b.content@
    &&& a.path == b.path
    &&& a.upload_path == b.upload_path
    &&& a.size == b.size
    &&& a.crc == b.crc
    &&& a.chunks@ == b.chunks@
    &&& a.chunk_error_cnt == b.chunk_error_cnt
    &&& a.chunk_size == b.chunk_size
    &&& a.options == b.options
}

/// Build the `Err | message` reply for a peer.
pub fn reply_err(router_id: &[u8], err: &Error) -> (msg: RouterMsg)
    ensures
        is_err_reply(msg, router_id@, *err),
{
    let mut frames: Vec<Vec<u8>> = Vec::new();
    frames.push(mk_tag_err());
    frames.push(err.message());
    RouterMsg { router_id: vstd::slice::slice_to_vec(router_id), frames }
}

/// Build the terminal `Ok` reply for a peer.
pub fn reply_ok(router_id: &[u8]) -> (msg: RouterMsg)
    ensures
        is_ok_reply(msg, router_id@),
{
    let mut frames: Vec<Vec<u8>> = Vec::new();
    frames.push(mk_tag_ok());
    RouterMsg { router_id: vstd::slice::slice_to_vec(router_id), frames }
}

/// Frame each pull command as a `CHUNK | index` message to its peer.
pub fn pull_msgs(pulls: &Vec<Pull>) -> (msgs: Vec<RouterMsg>)
    ensures
        are_pull_msgs(msgs@, pull_views(pulls@)),
{
    let mut msgs: Vec<RouterMsg> = Vec::new();
    let mut i: usize = 0;
    while i < pulls.len()
        invariant
            i <= pulls@.len(),
            msgs@.len() == i,
            forall|k: int|
                0 <= k < i ==> {
                    let m = #[trigger] msgs@[k];
                    &&& m.router_id@ == pull_views(pulls@)[k].0
                    &&& m.frames@.len() == 2
                    &&& m.frames@[0]@ == tag_chunk()
                    &&& m.frames@[1]@ == dec_digits(pull_views(pulls@)[k].1 as nat)
                },
        decreases pulls@.len() - i,
    {
        let mut frames: Vec<Vec<u8>> = Vec::new();
        frames.push(mk_tag_chunk());
        frames.push(fmt_u64(pulls[i].index));
        let rid = vstd::slice::slice_to_vec(pulls[i].router_id.as_slice());
        msgs.push(RouterMsg { router_id: rid, frames });
        i = i + 1;
    }
    msgs
}

/// What the reactor does with a `NEW` announcement before any disk work: a
/// rejection to send back, or the transfer to stage.
pub enum NewDecision {
    /// Send this rejection.
    Reply(RouterMsg),
    /// Create the staging file for this announced transfer, then call
    /// [`Server::accept_new`].
    Stage {
        /// The committed path the peer asked for.
        path: Vec<u8>,
        /// Announced size in bytes.
        size: u64,
        /// Announced checksum.
        crc: u64,
        /// Announced chunk size in bytes.
        chunk_size: u64,
        /// The options blob, still encoded.
        options: Vec<u8>,
    },
}

/// What the reactor does after a completion is accounted.
pub enum SinkOutcome {
    /// Chunks are still outstanding; send these pull commands.
    InFlight(Vec<RouterMsg>),
    /// The session failed terminally: send the pulls (already emitted by
    /// the failure path) and the rejection; the session is dropped.
    Failed(Vec<RouterMsg>, RouterMsg),
    /// Every chunk is acknowledged: send the pulls, then commit via
    /// [`Server::save_file`].
    Complete(Vec<RouterMsg>),
}

/// The reactor's state: the per-peer transfer table and the admission
/// scheduler.
pub struct Server {
    /// At most one active transfer per peer.
    pub files: Vec<(Vec<u8>, File)>,
    /// The admission scheduler.
    pub arbitrator: Arbitrator,
}

impl Server {
    /// Table keys are unique and every session in the table is a coherent
    /// receiver session.
    pub open spec fn wf(&self) -> bool {
        &&& self.arbitrator.wf()
        &&& forall|i: int, j: int|
            0 <= i < j < self.files@.len() ==> table_keys(self.files@)[i] != table_keys(
                self.files@,
            )[j]
        &&& forall|i: int| 0 <= i < self.files@.len() ==> (#[trigger] self.files@[i].1).wf()
        &&& forall|i: int|
            0 <= i < self.files@.len() ==> (#[trigger] self.files@[i].1).path is Some
                && self.files@[i].1.upload_path is Some
        &&& forall|i: int|
            0 <= i < self.files@.len() ==> (#[trigger] self.files@[i].1).chunk_error_cnt
                < MAX_CHUNK_ERR
    }

    /// A fresh reactor with the given upload-slot budget and no sessions.
    pub fn new(upload_slots: u32) -> (s: Server)
        ensures
            s.wf(),
            s.files@.len() == 0,
            s.arbitrator.queue@.len() == 0,
            s.arbitrator.slots == upload_slots,
            s.arbitrator.upload_slots == upload_slots,
    {
        Server { files: Vec::new(), arbitrator: Arbitrator::new(upload_slots) }
    }

    /// Decide a `NEW` announcement: its five fields are path, size,
    /// checksum, chunk size and options.  Malformed numbers are rejected,
    /// and so is a second transfer from a peer whose session is still
    /// active.
    pub fn handle_new(&self, router_id: &[u8], fields: &Vec<Vec<u8>>) -> (d: NewDecision)
        ensures
            ({
                if fields@.len() != 5 || !valid_u64_text(fields@[1]@) || !valid_u64_text(
                    fields@[2]@,
                ) || !valid_u64_text(fields@[3]@) || find_peer(self.files@, router_id@) >= 0 {
                    d matches NewDecision::Reply(m) && is_err_reply(
                        m,
                        router_id@,
                        Error::InvalidRequest,
                    )
                } else {
                    d matches NewDecision::Stage { path, size, crc, chunk_size, options } && {
                        &&& path@ == fields@[0]@
                        &&& size == dec_val(fields@[1]@)
                        &&& crc == dec_val(fields@[2]@)
                        &&& chunk_size == dec_val(fields@[3]@)
                        &&& options@ == fields@[4]@
                    }
                }
            }),
    {
        if fields.len() != 5 {
            return NewDecision::Reply(reply_err(router_id, &Error::InvalidRequest));
        }
        let size = match parse_u64(fields[1].as_slice()) {
            Some(n) => n,
            None => {
                return NewDecision::Reply(reply_err(router_id, &Error::InvalidRequest));
            },
        };
        let crc = match parse_u64(fields[2].as_slice()) {
            Some(n) => n,
            None => {
                return NewDecision::Reply(reply_err(router_id, &Error::InvalidRequest));
            },
        };
        let chunk_size = match parse_u64(fields[3].as_slice()) {
            Some(n) => n,
            None => {
                return NewDecision::Reply(reply_err(router_id, &Error::InvalidRequest));
            },
        };
        if self.find(router_id).is_some() {
            return NewDecision::Reply(reply_err(router_id, &Error::InvalidRequest));
        }
        NewDecision::Stage {
            path: vstd::slice::slice_to_vec(fields[0].as_slice()),
            size,
            crc,
            chunk_size,
            options: vstd::slice::slice_to_vec(fields[4].as_slice()),
        }
    }

    /// The position of this peer's session in the table.
    fn find(&self, router_id: &[u8]) -> (r: Option<usize>)
        ensures
            match r {
                Some(p) => p == find_peer(self.files@, router_id@),
                None => find_peer(self.files@, router_id@) == -1,
            },
    {
        let n = self.files.len();
        let mut k: usize = 0;
        while k < n
            invariant
                n == self.files@.len(),
                k <= n,
                forall|j: int| 0 <= j < k ==> (#[trigger] self.files@[j]).0@ != router_id@,
            decreases n - k,
        {
            if frame_is(self.files[k].0.as_slice(), router_id) {
                proof {
                    lemma_find_peer(self.files@, router_id@);
                    let m = find_peer(self.files@, router_id@);
                    if m < k {
                        assert(self.files@[m].0@ == router_id@);
                    }
                    if m > k {
                        assert(self.files@[k as int].0@ != router_id@);
                    }
                }
                return Some(k);
            }
            k = k + 1;
        }
        proof {
            lemma_find_peer(self.files@, router_id@);
            let m = find_peer(self.files@, router_id@);
            if m >= 0 {
                assert(self.files@[m].0@ == router_id@);
            }
        }
        None
    }
}


impl Server {
    /// Admit an announced transfer whose staging file exists: build the
    /// session, queue every chunk, and return the pull commands to send.
    /// Rejects a peer with an active session, an undecodable options blob,
    /// a zero chunk size for a sized transfer, or an oversized transfer.
    pub fn accept_new(
        &mut self,
        router_id: &[u8],
        staging_path: Vec<u8>,
        path: Vec<u8>,
        size: u64,
        crc: u64,
        chunk_size: u64,
        options: &[u8],
        now: u64,
    ) -> (r: Result<Vec<RouterMsg>, Error>)
        requires
            old(self).wf(),
        ensures
            final(self).wf(),
            final(self).arbitrator.upload_slots == old(self).arbitrator.upload_slots,
            ({
                let p = find_peer(old(self).files@, router_id@);
                let ok_input = (decode_spec(options@) is Some) && (size == 0 || chunk_size > 0)
                    && size <= usize::MAX;
                match r {
                    Ok(msgs) => {
                        &&& p == -1
                        &&& ok_input
                        &&& final(self).files@.len() == old(self).files@.len() + 1
                        &&& forall|k: int|
                            0 <= k < old(self).files@.len() ==> #[trigger] final(self).files@[k]
                                == old(self).files@[k]
                        &&& final(self).files@.last().0@ == router_id@
                        &&& ({
                            let f = final(self).files@.last().1;
                            &&& f.path == Some(path)
                            &&& f.upload_path == Some(staging_path)
                            &&& f.size == size
                            &&& f.crc == crc
                            &&& f.chunk_size == chunk_size
                            &&& f.chunk_error_cnt == 0
                            &&& f.content@ == crate::file::zero_bytes(size as nat)
                            &&& Some(crate::options::options_view(f.options)) == decode_spec(
                                options@,
                            )
                            &&& pending(f) == crate::file::index_run(crate::file::total_chunks(f))
                        })
                        &&& ({
                            let seeded = crate::file::seed_chunks(
                                queue_view(old(self).arbitrator.queue@),
                                old(self).arbitrator.slots,
                                router_id@,
                                0,
                                crate::chunk::num_chunks(size as nat, chunk_size as nat) as u64,
                                now,
                            );
                            &&& queue_view(final(self).arbitrator.queue@) == seeded.0
                            &&& final(self).arbitrator.slots == seeded.1
                            &&& are_pull_msgs(msgs@, seeded.2)
                        })
                    },
                    Err(e) => {
                        &&& e == Error::InvalidRequest
                        &&& (p >= 0 || !ok_input)
                        &&& final(self).files@ == old(self).files@
                        &&& queue_view(final(self).arbitrator.queue@) == queue_view(
                            old(self).arbitrator.queue@,
                        )
                        &&& final(self).arbitrator.slots == old(self).arbitrator.slots
                    },
                }
            }),
    {
        if self.find(router_id).is_some() {
            return Err(Error::InvalidRequest);
        }
        proof {
            lemma_find_peer(self.files@, router_id@);
        }
        match File::create_file(
            &mut self.arbitrator,
            router_id,
            staging_path,
            path,
            size,
            crc,
            chunk_size,
            options,
            now,
        ) {
            Ok((f, pulls)) => {
                let key = vstd::slice::slice_to_vec(router_id);
                let msgs = pull_msgs(&pulls);
                self.files.push((key, f));
                proof {
                    let t = self.files@;
                    let t0 = old(self).files@;
                    assert forall|i: int, j: int| 0 <= i < j < t.len() implies table_keys(t)[i]
                        != table_keys(t)[j] by {
                        if j < t0.len() {
                            assert(t[i] == t0[i] && t[j] == t0[j]);
                            assert(table_keys(t0)[i] == t0[i].0@ && table_keys(t0)[j] == t0[j].0@);
                        } else {
                            assert(t[i] == t0[i]);
                            assert(t0[i].0@ != router_id@);
                        }
                    }
                }
                Ok(msgs)
            },
            Err(e) => Err(e),
        }
    }

    /// Route an arriving chunk payload to its peer's session: the payload is
    /// written into the staging buffer and the completion message for the
    /// sink channel is returned.  A peer with no session and a malformed
    /// index are rejected.
    pub fn handle_chunk(&mut self, router_id: &[u8], index_field: &[u8], payload: &[u8]) -> (r:
        Result<Vec<Vec<Vec<u8>>>, Error>)
        requires
            old(self).wf(),
        ensures
            final(self).wf(),
            queue_view(final(self).arbitrator.queue@) == queue_view(old(self).arbitrator.queue@),
            final(self).arbitrator.slots == old(self).arbitrator.slots,
            final(self).arbitrator.upload_slots == old(self).arbitrator.upload_slots,
            final(self).files@.len() == old(self).files@.len(),
            forall|k: int|
                0 <= k < old(self).files@.len() ==> (#[trigger] final(self).files@[k]).0 == old(
                    self).files@[k].0,
            ({
                let p = find_peer(old(self).files@, router_id@);
                match r {
                    Ok(sink_msgs) => {
                        &&& p >= 0
                        &&& valid_u64_text(index_field@)
                        &&& ({
                            let idx = dec_val(index_field@) as u64;
                            let f0 = old(self).files@[p].1;
                            let off = chunk_offset(idx as nat, f0.chunk_size as nat);
                            let f1 = final(self).files@[p].1;
                            &&& index_pos(pending(f0), idx) >= 0
                            &&& off + payload@.len() <= usize::MAX
                            &&& f1.content@ == write_at_spec(f0.content@, off, payload@)
                            &&& f1.chunks@ == f0.chunks@
                            &&& f1.size == f0.size
                            &&& f1.crc == f0.crc
                            &&& f1.chunk_size == f0.chunk_size
                            &&& f1.chunk_error_cnt == f0.chunk_error_cnt
                            &&& f1.path == f0.path
                            &&& f1.upload_path == f0.upload_path
                            &&& f1.options == f0.options
                            &&& forall|k: int|
                                0 <= k < old(self).files@.len() && k != p
                                    ==> #[trigger] final(self).files@[k] == old(self).files@[k]
                            &&& sink_msgs@.len() == 1
                            &&& sink_msgs@[0]@.len() == 3
                            &&& sink_msgs@[0]@[0]@ == router_id@
                            &&& sink_msgs@[0]@[1]@ == dec_digits(idx as nat)
                            &&& sink_msgs@[0]@[2]@ == sink_success()
                        })
                    },
                    Err(e) => {
                        &&& forall|k: int|
                            0 <= k < old(self).files@.len() ==> same_file(
                                (#[trigger] final(self).files@[k]).1,
                                old(self).files@[k].1,
                            )
                        &&& (p == -1 ==> e == Error::InvalidRequest)
                        &&& (p >= 0 && !valid_u64_text(index_field@) ==> e == Error::InvalidRequest)
                        &&& (p >= 0 && valid_u64_text(index_field@) ==> ({
                            let idx = dec_val(index_field@) as u64;
                            &&& (e == Error::ChunkIndex || e == Error::ChunkFail)
                            &&& ((e == Error::ChunkIndex) <==> index_pos(
                                pending(old(self).files@[p].1),
                                idx,
                            ) == -1)
                            &&& (e == Error::ChunkFail ==> chunk_offset(
                                idx as nat,
                                old(self).files@[p].1.chunk_size as nat,
                            ) + payload@.len() > usize::MAX)
                        }))
                    },
                }
            }),
    {
        let p = match self.find(router_id) {
            Some(p) => p,
            None => {
                return Err(Error::InvalidRequest);
            },
        };
        let idx = match parse_u64(index_field) {
            Some(n) => n,
            None => {
                return Err(Error::InvalidRequest);
            },
        };
        let ghost t0 = self.files@;
        proof {
            lemma_find_peer(self.files@, router_id@);
            assert(self.files@[p as int].1.wf());
        }
        let entry = &mut self.files[p];
        let res = entry.1.recv(router_id, idx, payload);
        proof {
            assert(self.files@ =~= t0.update(p as int, (t0[p as int].0, self.files@[p as int].1)));
            let t1 = self.files@;
            assert forall|i: int, j: int| 0 <= i < j < t1.len() implies table_keys(t1)[i]
                != table_keys(t1)[j] by {
                assert(t1[i].0 == t0[i].0 && t1[j].0 == t0[j].0);
                assert(table_keys(t0)[i] == t0[i].0@ && table_keys(t0)[j] == t0[j].0@);
                assert(table_keys(t1)[i] == t1[i].0@ && table_keys(t1)[j] == t1[j].0@);
            }
        }
        match res {
            Ok(frames) => {
                let mut v: Vec<Vec<Vec<u8>>> = Vec::new();
                v.push(frames);
                Ok(v)
            },
            Err(e) => Err(e),
        }
    }
}


impl Server {
    /// Account one completion frame from the sink channel (a worker's write
    /// result or the timer's synthetic failure).  A router identity with no
    /// session is a protocol violation and a fatal reactor error, as is an
    /// accounting mismatch from the session itself.
    pub fn handle_sink(&mut self, router_id: &[u8], index: u64, success: bool, now: u64) -> (r:
        Result<SinkOutcome, Error>)
        requires
            old(self).wf(),
        ensures
            final(self).wf(),
            final(self).arbitrator.upload_slots == old(self).arbitrator.upload_slots,
            ({
                let p = find_peer(old(self).files@, router_id@);
                let qv0 = queue_view(old(self).arbitrator.queue@);
                let s0 = old(self).arbitrator.slots;
                match r {
                    Ok(outcome) => {
                        &&& p >= 0
                        &&& ({
                            let f0 = old(self).files@[p].1;
                            let m = index_pos(pending(f0), index);
                            &&& m >= 0
                            &&& if success {
                                let am = first_match(qv0, router_id@, index);
                                let freed: u32 = if qv0[am].2 is Some {
                                    1u32
                                } else {
                                    0u32
                                };
                                let rec = dispatch(qv0.remove(am), (s0 + freed) as u32, now);
                                &&& am >= 0
                                &&& queue_view(final(self).arbitrator.queue@) == rec.0
                                &&& final(self).arbitrator.slots == rec.1
                                &&& if pending(f0).remove(m).len() == 0 {
                                    outcome matches SinkOutcome::Complete(msgs) && are_pull_msgs(
                                        msgs@,
                                        rec.2,
                                    ) && final(self).files@.len() == old(self).files@.len() && (
                                    forall|k: int|
                                        0 <= k < old(self).files@.len() && k != p
                                            ==> #[trigger] final(self).files@[k] == old(
                                            self,
                                        ).files@[k]) && final(self).files@[p].0 == old(
                                        self,
                                    ).files@[p].0 && ({
                                        let f1 = final(self).files@[p].1;
                                        &&& pending(f1).len() == 0
                                        &&& f1.content@ == f0.content@
                                        &&& f1.size == f0.size
                                        &&& f1.crc == f0.crc
                                        &&& f1.chunk_size == f0.chunk_size
                                        &&& f1.chunk_error_cnt == f0.chunk_error_cnt
                                        &&& f1.path == f0.path
                                        &&& f1.upload_path == f0.upload_path
                                        &&& f1.options == f0.options
                                    })
                                } else {
                                    outcome matches SinkOutcome::InFlight(msgs) && are_pull_msgs(
                                        msgs@,
                                        rec.2,
                                    ) && final(self).files@.len() == old(self).files@.len() && (
                                    forall|k: int|
                                        0 <= k < old(self).files@.len() && k != p
                                            ==> #[trigger] final(self).files@[k] == old(
                                            self,
                                        ).files@[k]) && final(self).files@[p].0 == old(
                                        self,
                                    ).files@[p].0 && ({
                                        let f1 = final(self).files@[p].1;
                                        &&& pending(f1) == pending(f0).remove(m)
                                        &&& f1.content@ == f0.content@
                                        &&& f1.chunk_error_cnt == f0.chunk_error_cnt
                                    })
                                }
                            } else {
                                let rec = dispatch(qv0.push((router_id@, index, None)), s0, now);
                                &&& if f0.chunk_error_cnt + 1 < MAX_CHUNK_ERR {
                                    &&& queue_view(final(self).arbitrator.queue@) == rec.0
                                    &&& final(self).arbitrator.slots == rec.1
                                    &&& outcome matches SinkOutcome::InFlight(msgs)
                                        && are_pull_msgs(msgs@, rec.2)
                                    &&& final(self).files@.len() == old(self).files@.len()
                                    &&& (forall|k: int|
                                        0 <= k < old(self).files@.len() && k != p
                                            ==> #[trigger] final(self).files@[k] == old(
                                            self,
                                        ).files@[k])
                                    &&& ({
                                        let f1 = final(self).files@[p].1;
                                        &&& f1.chunks@ == f0.chunks@
                                        &&& f1.content@ == f0.content@
                                        &&& f1.chunk_error_cnt == f0.chunk_error_cnt + 1
                                    })
                                } else {
                                    let split = peer_split(rec.0, router_id@);
                                    &&& queue_view(final(self).arbitrator.queue@) == split.0
                                    &&& final(self).arbitrator.slots == rec.1 + started_count(
                                        split.1,
                                    )
                                    &&& outcome matches SinkOutcome::Failed(msgs, reply)
                                        && are_pull_msgs(msgs@, rec.2) && is_err_reply(
                                        reply,
                                        router_id@,
                                        Error::FileFail,
                                    )
                                    &&& final(self).files@ == old(self).files@.remove(p)
                                }
                            }
                        })
                    },
                    Err(e) => {
                        &&& (p == -1 ==> e == Error::InvalidRequest)
                        &&& (p >= 0 ==> e == Error::ChunkIndex && ({
                            let m = index_pos(pending(old(self).files@[p].1), index);
                            m == -1 || (success && first_match(qv0, router_id@, index) == -1)
                        }))
                        &&& queue_view(final(self).arbitrator.queue@) == qv0
                        &&& final(self).arbitrator.slots == s0
                        &&& final(self).files@.len() == old(self).files@.len()
                        &&& forall|k: int|
                            0 <= k < old(self).files@.len() ==> same_file(
                                (#[trigger] final(self).files@[k]).1,
                                old(self).files@[k].1,
                            ) && final(self).files@[k].0 == old(self).files@[k].0
                    },
                }
            }),
    {
        let p = match self.find(router_id) {
            Some(p) => p,
            None => {
                return Err(Error::InvalidRequest);
            },
        };
        let ghost t0 = self.files@;
        proof {
            lemma_find_peer(self.files@, router_id@);
            assert(self.files@[p as int].1.wf());
        }
        let entry = &mut self.files[p];
        let res = entry.1.sink(&mut self.arbitrator, router_id, index, success, now);
        let is_err = entry.1.is_error();
        let is_done = entry.1.is_complete();
        proof {
            assert(self.files@ =~= t0.update(p as int, (t0[p as int].0, self.files@[p as int].1)));
            let t1 = self.files@;
            assert forall|i: int, j: int| 0 <= i < j < t1.len() implies table_keys(t1)[i]
                != table_keys(t1)[j] by {
                assert(t1[i].0 == t0[i].0 && t1[j].0 == t0[j].0);
                assert(table_keys(t0)[i] == t0[i].0@ && table_keys(t0)[j] == t0[j].0@);
                assert(table_keys(t1)[i] == t1[i].0@ && table_keys(t1)[j] == t1[j].0@);
            }
        }
        match res {
            Err(e) => Err(e),
            Ok(pulls) => {
                let msgs = pull_msgs(&pulls);
                if is_err {
                    let _ = self.files.remove(p);
                    proof {
                        let t2 = self.files@;
                        let ghost t1 = t0.update(p as int, (t0[p as int].0, t0[p as int].1));
                        assert(t2 =~= t0.remove(p as int));
                        assert forall|i: int, j: int| 0 <= i < j < t2.len() implies table_keys(
                            t2,
                        )[i] != table_keys(t2)[j] by {
                            let i0: int = if i < p {
                                i
                            } else {
                                i + 1
                            };
                            let j0: int = if j < p {
                                j
                            } else {
                                j + 1
                            };
                            assert(t2[i] == t0[i0] && t2[j] == t0[j0]);
                            assert(table_keys(t0)[i0] == t0[i0].0@ && table_keys(t0)[j0]
                                == t0[j0].0@);
                            assert(table_keys(t2)[i] == t2[i].0@ && table_keys(t2)[j] == t2[j].0@);
                        }
                    }
                    self.arbitrator.drop_peer(router_id);
                    Ok(SinkOutcome::Failed(msgs, reply_err(router_id, &Error::FileFail)))
                } else if is_done {
                    Ok(SinkOutcome::Complete(msgs))
                } else {
                    Ok(SinkOutcome::InFlight(msgs))
                }
            },
        }
    }

    /// Commit a completed session: check the staging buffer against the
    /// expected checksum and hand back the renames to perform; either way
    /// the session is over and its table entry and queue entries are torn
    /// down.  The caller reports the outcome to the peer: `Ok` after the
    /// renames succeed, the checksum rejection, or its own I/O failure.
    pub fn save_file(&mut self, router_id: &[u8], target_exists: bool) -> (r: Result<
        SavePlan,
        Error,
    >)
        requires
            old(self).wf(),
        ensures
            final(self).wf(),
            final(self).arbitrator.upload_slots == old(self).arbitrator.upload_slots,
            ({
                let p = find_peer(old(self).files@, router_id@);
                let qv0 = queue_view(old(self).arbitrator.queue@);
                let s0 = old(self).arbitrator.slots;
                if p == -1 {
                    &&& r matches Err(e) && e == Error::InvalidRequest
                    &&& final(self).files@ == old(self).files@
                    &&& queue_view(final(self).arbitrator.queue@) == qv0
                    &&& final(self).arbitrator.slots == s0
                } else {
                    let f0 = old(self).files@[p].1;
                    let split = peer_split(qv0, router_id@);
                    &&& final(self).files@ == old(self).files@.remove(p)
                    &&& queue_view(final(self).arbitrator.queue@) == split.0
                    &&& final(self).arbitrator.slots == s0 + started_count(split.1)
                    &&& match r {
                        Ok(plan) => {
                            &&& crc64_of(f0.content@) == f0.crc
                            &&& plan.commit.0@ == f0.upload_path->0@
                            &&& plan.commit.1@ == f0.path->0@
                            &&& (match (crate::options::options_view(f0.options).0, target_exists) {
                                (Some(sfx), true) => {
                                    &&& plan.backup is Some
                                    &&& ({
                                        let bp = plan.backup->0;
                                        &&& bp.0@ == f0.path->0@
                                        &&& bp.1@ == f0.path->0@ + sfx
                                    })
                                },
                                _ => plan.backup is None,
                            })
                        },
                        Err(e) => {
                            &&& e == Error::FailChecksum
                            &&& crc64_of(f0.content@) != f0.crc
                        },
                    }
                }
            }),
    {
        let p = match self.find(router_id) {
            Some(p) => p,
            None => {
                return Err(Error::InvalidRequest);
            },
        };
        let ghost t0 = self.files@;
        proof {
            lemma_find_peer(self.files@, router_id@);
        }
        let result = self.files[p].1.save(target_exists);
        let _ = self.files.remove(p);
        proof {
            let t2 = self.files@;
            assert forall|i: int, j: int| 0 <= i < j < t2.len() implies table_keys(t2)[i]
                != table_keys(t2)[j] by {
                let i0: int = if i < p {
                    i
                } else {
                    i + 1
                };
                let j0: int = if j < p {
                    j
                } else {
                    j + 1
                };
                assert(t2[i] == t0[i0] && t2[j] == t0[j0]);
                assert(table_keys(t0)[i0] == t0[i0].0@ && table_keys(t0)[j0] == t0[j0].0@);
                assert(table_keys(t2)[i] == t2[i].0@ && table_keys(t2)[j] == t2[j].0@);
            }
        }
        self.arbitrator.drop_peer(router_id);
        result
    }
}


/// Which action the leading frame of a router message selects.
#[derive(Debug, PartialEq, Eq, Structural)]
pub enum RouterVerb {
    /// `NEW`: a transfer announcement follows.
    New,
    /// `CHUNK`: a chunk payload follows.
    Chunk,
    /// Anything else: a protocol violation, answered with a rejection.
    Other,
}

/// Classify the leading frame of a router message: `NEW` and `CHUNK` select
/// their actions, and anything else is answered with `Err | Invalid
/// request`.
pub fn router_verb(action: &[u8]) -> (v: RouterVerb)
    ensures
        v == (if action@ == tag_new() {
            RouterVerb::New
        } else if action@ == tag_chunk() {
            RouterVerb::Chunk
        } else {
            RouterVerb::Other
        }),
{
    let tn = mk_tag_new();
    if frame_is(action, tn.as_slice()) {
        return RouterVerb::New;
    }
    let tc = mk_tag_chunk();
    if frame_is(action, tc.as_slice()) {
        return RouterVerb::Chunk;
    }
    RouterVerb::Other
}

} // verus!
