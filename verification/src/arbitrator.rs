//! Admission control for chunk uploads: a FIFO queue of chunk requests
//! across all peers, a bounded budget of upload slots, pull commands for
//! admitted chunks, and synthetic failures for chunks whose round trip
//! exceeds the timeout.

use vstd::prelude::*;

use crate::chunk::Chunk;
use crate::error::Error;
use crate::text::dec_digits;
use crate::text::fmt_u64;
use crate::wire::mk_sink_failure;
use crate::wire::sink_failure;

verus! {

/// Wall-clock ceiling, in seconds, on an admitted chunk's round trip.
pub const CHUNK_TIMEOUT: u64 = 60;

/// One queued chunk request: the peer it came from, the chunk index, and
/// the second at which it was admitted into a slot (`None` until admission).
pub struct TimedChunk {
    /// The transport identity of the peer uploading the chunk.
    pub router_id: Vec<u8>,
    /// The zero-based chunk index.
    pub index: u64,
    /// When the chunk was admitted, in seconds of a monotonic clock;
    /// `None` while it waits in the queue.
    pub timestamp: Option<u64>,
}

impl TimedChunk {
    /// A queue entry that has not been admitted yet.
    pub fn new(router_id: &[u8], index: u64) -> (t: TimedChunk)
        ensures
            t.router_id@ == router_id@,
            t.index == index,
            t.timestamp is None,
    {
        TimedChunk {
            router_id: vstd::slice::slice_to_vec(router_id),
            index,
            timestamp: None,
        }
    }

    /// Admit the entry: stamp it with the current time.
    pub fn start(&mut self, now: u64)
        ensures
            final(self).router_id@ == old(self).router_id@,
            final(self).index == old(self).index,
            final(self).timestamp == Some(now),
    {
        self.timestamp = Some(now);
    }

    /// Has the entry been admitted?
    pub fn is_started(&self) -> (r: bool)
        ensures
            r == (self.timestamp is Some),
    {
        self.timestamp.is_some()
    }

    /// An entry is expired when it was admitted and at least
    /// [`CHUNK_TIMEOUT`] seconds have passed since.
    pub open spec fn spec_expired(&self, now: u64) -> bool {
        match self.timestamp {
            Some(t) => t <= now && now - t >= CHUNK_TIMEOUT,
            None => false,
        }
    }

    /// Is the admitted round trip over its time budget at `now`?
    pub fn is_expired(&self, now: u64) -> (r: bool)
        ensures
            r == self.spec_expired(now),
    {
        match &self.timestamp {
            Some(t) => *t <= now && now - *t >= CHUNK_TIMEOUT,
            None => false,
        }
    }
}

/// The plain-data view of a queue entry: peer bytes, chunk index, admission
/// time.
pub open spec fn entry_view(t: TimedChunk) -> (Seq<u8>, u64, Option<u64>) {
    (t.router_id@, t.index, t.timestamp)
}

/// The queue as plain data.
pub open spec fn queue_view(q: Seq<TimedChunk>) -> Seq<(Seq<u8>, u64, Option<u64>)> {
    q.map_values(|t: TimedChunk| entry_view(t))
}

/// How many entries of the queue are admitted (started).
pub open spec fn started_count(q: Seq<(Seq<u8>, u64, Option<u64>)>) -> nat
    decreases q.len(),
{
    if q.len() == 0 {
        0
    } else {
        (if q[0].2 is Some {
            1nat
        } else {
            0nat
        }) + started_count(q.drop_first())
    }
}

/// The plain-data view of the expiry test.
pub open spec fn view_expired(e: (Seq<u8>, u64, Option<u64>), now: u64) -> bool {
    match e.2 {
        Some(t) => t <= now && now - t >= CHUNK_TIMEOUT,
        None => false,
    }
}

/// One pull command: ask this peer for this chunk index.
pub struct Pull {
    /// The peer to address.
    pub router_id: Vec<u8>,
    /// The chunk index to request.
    pub index: u64,
}

/// Pulls as plain data.
pub open spec fn pull_views(p: Seq<Pull>) -> Seq<(Seq<u8>, u64)> {
    p.map_values(|x: Pull| (x.router_id@, x.index))
}

/// The admission rule, walking the queue in insertion order: each
/// not-yet-started entry is started and pulled while slots remain.  Returns
/// the queue afterwards, the remaining slots, and the pulls in the order
/// they are emitted.
pub open spec fn dispatch(q: Seq<(Seq<u8>, u64, Option<u64>)>, slots: u32, now: u64) -> (
    Seq<(Seq<u8>, u64, Option<u64>)>,
    u32,
    Seq<(Seq<u8>, u64)>,
)
    decreases q.len(),
{
    if q.len() == 0 || slots == 0 {
        (q, slots, Seq::<(Seq<u8>, u64)>::empty())
    } else if q[0].2 is None {
        let rec = dispatch(q.drop_first(), (slots - 1) as u32, now);
        (
            seq![(q[0].0, q[0].1, Some(now))] + rec.0,
            rec.1,
            seq![(q[0].0, q[0].1)] + rec.2,
        )
    } else {
        let rec = dispatch(q.drop_first(), slots, now);
        (seq![q[0]] + rec.0, rec.1, rec.2)
    }
}

/// Shape facts about admission: it keeps the length and the per-entry
/// identity, starts exactly as many entries as it takes slots, and emits one
/// pull per started entry.
pub proof fn lemma_dispatch_props(q: Seq<(Seq<u8>, u64, Option<u64>)>, slots: u32, now: u64)
    ensures
        ({
            let rec = dispatch(q, slots, now);
            &&& rec.0.len() == q.len()
            &&& rec.1 <= slots
            &&& rec.2.len() == slots - rec.1
            &&& started_count(rec.0) == started_count(q) + (slots - rec.1)
            &&& forall|k: int|
                0 <= k < q.len() ==> (#[trigger] rec.0[k]).0 == q[k].0 && rec.0[k].1 == q[k].1
            &&& forall|k: int| 0 <= k < q.len() ==> (q[k].2 is Some ==> #[trigger] rec.0[k] == q[k])
            &&& forall|k: int|
                0 <= k < q.len() ==> ((#[trigger] rec.0[k]).2 is None ==> rec.0[k] == q[k])
        }),
    decreases q.len(),
{
    let rec = dispatch(q, slots, now);
    if q.len() == 0 || slots == 0 {
    } else if q[0].2 is None {
        lemma_dispatch_props(q.drop_first(), (slots - 1) as u32, now);
        let sub = dispatch(q.drop_first(), (slots - 1) as u32, now);
        assert(rec.0.drop_first() =~= sub.0);
        assert(started_count(rec.0) == 1 + started_count(sub.0));
        assert forall|k: int| 0 <= k < q.len() implies (#[trigger] rec.0[k]).0 == q[k].0
            && rec.0[k].1 == q[k].1 by {
            if k > 0 {
                assert(rec.0[k] == sub.0[k - 1]);
                assert(q.drop_first()[k - 1] == q[k]);
            }
        }
        assert forall|k: int| 0 <= k < q.len() && q[k].2 is Some implies #[trigger] rec.0[k]
            == q[k] by {
            if k > 0 {
                assert(rec.0[k] == sub.0[k - 1]);
                assert(q.drop_first()[k - 1] == q[k]);
            }
        }
        assert forall|k: int| 0 <= k < q.len() && (#[trigger] rec.0[k]).2 is None implies rec.0[k]
            == q[k] by {
            if k > 0 {
                assert(rec.0[k] == sub.0[k - 1]);
                assert(q.drop_first()[k - 1] == q[k]);
            }
        }
    } else {
        lemma_dispatch_props(q.drop_first(), slots, now);
        let sub = dispatch(q.drop_first(), slots, now);
        assert(rec.0.drop_first() =~= sub.0);
        assert(started_count(rec.0) == 1 + started_count(sub.0));
        assert(started_count(q) == 1 + started_count(q.drop_first()));
        assert forall|k: int| 0 <= k < q.len() implies (#[trigger] rec.0[k]).0 == q[k].0
            && rec.0[k].1 == q[k].1 by {
            if k > 0 {
                assert(rec.0[k] == sub.0[k - 1]);
                assert(q.drop_first()[k - 1] == q[k]);
            }
        }
        assert forall|k: int| 0 <= k < q.len() && q[k].2 is Some implies #[trigger] rec.0[k]
            == q[k] by {
            if k > 0 {
                assert(rec.0[k] == sub.0[k - 1]);
                assert(q.drop_first()[k - 1] == q[k]);
            }
        }
        assert forall|k: int| 0 <= k < q.len() && (#[trigger] rec.0[k]).2 is None implies rec.0[k]
            == q[k] by {
            if k > 0 {
                assert(rec.0[k] == sub.0[k - 1]);
                assert(q.drop_first()[k - 1] == q[k]);
            }
        }
    }
}

/// The admission scheduler: the queue of pending chunk requests and the
/// slot budget.  Pull commands are returned to the caller, who owns the
/// router socket.
pub struct Arbitrator {
    /// Queue of chunk requests, in insertion order.
    pub queue: Vec<TimedChunk>,
    /// Slots still available.
    pub slots: u32,
    /// The configured budget.
    pub upload_slots: u32,
}

impl Arbitrator {
    /// The slot accounting is coherent: available slots never exceed the
    /// budget and every missing slot is held by exactly one started entry.
    pub open spec fn wf(&self) -> bool {
        &&& self.slots <= self.upload_slots
        &&& started_count(queue_view(self.queue@)) + self.slots == self.upload_slots
    }

    /// A fresh arbitrator with the given slot budget and an empty queue.
    pub fn new(upload_slots: u32) -> (a: Arbitrator)
        ensures
            a.wf(),
            a.queue@.len() == 0,
            a.slots == upload_slots,
            a.upload_slots == upload_slots,
    {
        let a = Arbitrator { queue: Vec::new(), slots: upload_slots, upload_slots };
        proof {
            assert(queue_view(a.queue@) =~= Seq::<(Seq<u8>, u64, Option<u64>)>::empty());
        }
        a
    }

    /// Walk the queue in insertion order and, while slots remain, dispatch
    /// each not-yet-started entry: take a slot, stamp it with `now`, and
    /// emit a pull for it.  This is the admission rule: FIFO across all
    /// peers, bounded concurrency.
    pub fn request(&mut self, now: u64) -> (pulls: Vec<Pull>)
        requires
            old(self).wf(),
        ensures
            final(self).wf(),
            final(self).upload_slots == old(self).upload_slots,
            ({
                let rec = dispatch(queue_view(old(self).queue@), old(self).slots, now);
                &&& queue_view(final(self).queue@) == rec.0
                &&& final(self).slots == rec.1
                &&& pull_views(pulls@) == rec.2
            }),
    {
        let ghost q0 = queue_view(old(self).queue@);
        let ghost s0 = old(self).slots;
        let mut pulls: Vec<Pull> = Vec::new();
        proof {
            assert(pull_views(pulls@) =~= Seq::<(Seq<u8>, u64)>::empty());
            assert(queue_view(self.queue@).take(0) =~= Seq::<(Seq<u8>, u64, Option<u64>)>::empty());
            assert(queue_view(self.queue@).skip(0) =~= q0);
            assert(Seq::<(Seq<u8>, u64, Option<u64>)>::empty() + dispatch(q0, s0, now).0 =~= dispatch(
                q0,
                s0,
                now,
            ).0);
            assert(Seq::<(Seq<u8>, u64)>::empty() + dispatch(q0, s0, now).2 =~= dispatch(q0, s0, now).2);
        }
        let mut i: usize = 0;
        while i < self.queue.len() && self.slots > 0
            invariant
                q0 == queue_view(old(self).queue@),
                s0 == old(self).slots,
                i <= self.queue@.len(),
                self.queue@.len() == old(self).queue@.len(),
                self.upload_slots == old(self).upload_slots,
                queue_view(self.queue@).skip(i as int) == q0.skip(i as int),
                ({
                    let rec = dispatch(q0.skip(i as int), self.slots, now);
                    &&& dispatch(q0, s0, now).0 == queue_view(self.queue@).take(i as int) + rec.0
                    &&& dispatch(q0, s0, now).1 == rec.1
                    &&& dispatch(q0, s0, now).2 == pull_views(pulls@) + rec.2
                }),
            decreases self.queue@.len() - i,
        {
            let ghost qv_pre = queue_view(self.queue@);
            let ghost rest = q0.skip(i as int);
            proof {
                assert(rest[0] == qv_pre[i as int]);
                assert(rest.drop_first() =~= q0.skip(i + 1 as int));
            }
            let started = self.queue[i].timestamp.is_some();
            if !started {
                self.slots = self.slots - 1;
                let rid = vstd::slice::slice_to_vec(self.queue[i].router_id.as_slice());
                let idx = self.queue[i].index;
                pulls.push(Pull { router_id: rid, index: idx });
                self.queue[i].timestamp = Some(now);
                proof {
                    let qv_post = queue_view(self.queue@);
                    assert(qv_post =~= qv_pre.update(
                        i as int,
                        (qv_pre[i as int].0, qv_pre[i as int].1, Some(now)),
                    ));
                    assert(qv_post.skip(i + 1 as int) =~= q0.skip(i + 1 as int));
                    assert(qv_post.take(i + 1 as int) =~= qv_pre.take(i as int).push(
                        (rest[0].0, rest[0].1, Some(now)),
                    ));
                    let rec_new = dispatch(q0.skip(i + 1 as int), self.slots, now);
                    assert(dispatch(rest, (self.slots + 1) as u32, now).0 == seq![
                        (rest[0].0, rest[0].1, Some(now)),
                    ] + rec_new.0);
                    assert(qv_pre.take(i as int).push((rest[0].0, rest[0].1, Some(now))) + rec_new.0
                        =~= qv_pre.take(i as int) + (seq![(rest[0].0, rest[0].1, Some(now))]
                        + rec_new.0));
                    assert(pull_views(pulls@) =~= pull_views(pulls@.drop_last()).push(
                        (rest[0].0, rest[0].1),
                    ));
                    assert(pull_views(pulls@.drop_last()) + (seq![(rest[0].0, rest[0].1)]
                        + rec_new.2) =~= pull_views(pulls@) + rec_new.2);
                }
            } else {
                proof {
                    let rec_new = dispatch(q0.skip(i + 1 as int), self.slots, now);
                    assert(dispatch(rest, self.slots, now).0 == seq![rest[0]] + rec_new.0);
                    assert(qv_pre.take(i + 1 as int) =~= qv_pre.take(i as int).push(rest[0]));
                    assert(qv_pre.take(i as int).push(rest[0]) + rec_new.0 =~= qv_pre.take(i as int)
                        + (seq![rest[0]] + rec_new.0));
                }
            }
            i = i + 1;
        }
        proof {
            let rec_tail = dispatch(q0.skip(i as int), self.slots, now);
            if self.slots == 0 {
                assert(rec_tail == (q0.skip(i as int), self.slots, Seq::<(Seq<u8>, u64)>::empty()));
            } else {
                assert(i == self.queue@.len());
                assert(q0.skip(i as int) =~= Seq::<(Seq<u8>, u64, Option<u64>)>::empty());
            }
            assert(queue_view(self.queue@).take(i as int) + queue_view(self.queue@).skip(i as int)
                =~= queue_view(self.queue@));
            assert(pull_views(pulls@) + Seq::<(Seq<u8>, u64)>::empty() =~= pull_views(pulls@));
            lemma_dispatch_props(q0, s0, now);
        }
        pulls
    }
}


/// Pushing an entry adds its started indicator to the count.
pub proof fn lemma_started_count_push(q: Seq<(Seq<u8>, u64, Option<u64>)>, e: (Seq<u8>, u64, Option<u64>))
    ensures
        started_count(q.push(e)) == started_count(q) + (if e.2 is Some {
            1nat
        } else {
            0nat
        }),
    decreases q.len(),
{
    if q.len() == 0 {
        assert(q.push(e).drop_first() =~= Seq::<(Seq<u8>, u64, Option<u64>)>::empty());
        assert(q.push(e)[0] == e);
        assert(started_count(Seq::<(Seq<u8>, u64, Option<u64>)>::empty()) == 0);
    } else {
        assert(q.push(e).drop_first() =~= q.drop_first().push(e));
        assert(q.push(e)[0] == q[0]);
        lemma_started_count_push(q.drop_first(), e);
    }
}

/// Removing an entry subtracts its started indicator from the count.
pub proof fn lemma_started_count_remove(q: Seq<(Seq<u8>, u64, Option<u64>)>, j: int)
    requires
        0 <= j < q.len(),
    ensures
        started_count(q) == started_count(q.remove(j)) + (if q[j].2 is Some {
            1nat
        } else {
            0nat
        }),
    decreases j,
{
    if j == 0 {
        assert(q.remove(0) =~= q.drop_first());
    } else {
        assert(q.remove(j).drop_first() =~= q.drop_first().remove(j - 1));
        assert(q.remove(j)[0] == q[0]);
        lemma_started_count_remove(q.drop_first(), j - 1);
        assert(q.drop_first()[j - 1] == q[j]);
    }
}

/// Does the entry belong to this peer and chunk index?
pub open spec fn entry_matches(e: (Seq<u8>, u64, Option<u64>), rid: Seq<u8>, index: u64) -> bool {
    e.0 == rid && e.1 == index
}

/// The position of the first entry for `(rid, index)`, or -1 when none
/// matches.
pub open spec fn first_match(q: Seq<(Seq<u8>, u64, Option<u64>)>, rid: Seq<u8>, index: u64) -> int
    decreases q.len(),
{
    if q.len() == 0 {
        -1
    } else if entry_matches(q[0], rid, index) {
        0
    } else {
        let r = first_match(q.drop_first(), rid, index);
        if r < 0 {
            -1
        } else {
            r + 1
        }
    }
}

/// What `first_match` means: -1 is "no match", otherwise it points at the
/// earliest matching entry.
pub proof fn lemma_first_match(q: Seq<(Seq<u8>, u64, Option<u64>)>, rid: Seq<u8>, index: u64)
    ensures
        ({
            let m = first_match(q, rid, index);
            &&& (m == -1 ==> forall|k: int|
                0 <= k < q.len() ==> !entry_matches(#[trigger] q[k], rid, index))
            &&& (m >= 0 ==> 0 <= m < q.len() && entry_matches(q[m], rid, index) && forall|k: int|
                0 <= k < m ==> !entry_matches(#[trigger] q[k], rid, index))
        }),
    decreases q.len(),
{
    if q.len() > 0 && !entry_matches(q[0], rid, index) {
        lemma_first_match(q.drop_first(), rid, index);
        let m = first_match(q, rid, index);
        let r = first_match(q.drop_first(), rid, index);
        if r == -1 {
            assert forall|k: int| 0 <= k < q.len() implies !entry_matches(
                #[trigger] q[k],
                rid,
                index,
            ) by {
                if k > 0 {
                    assert(q.drop_first()[k - 1] == q[k]);
                }
            }
        } else {
            assert(q.drop_first()[r] == q[r + 1]);
            assert forall|k: int| 0 <= k < m implies !entry_matches(#[trigger] q[k], rid, index) by {
                if k > 0 {
                    assert(q.drop_first()[k - 1] == q[k]);
                }
            }
        }
    }
}

/// Split the queue at `now`: the entries that stay, and the expired entries
/// in queue order.
pub open spec fn expire_split(q: Seq<(Seq<u8>, u64, Option<u64>)>, now: u64) -> (
    Seq<(Seq<u8>, u64, Option<u64>)>,
    Seq<(Seq<u8>, u64, Option<u64>)>,
)
    decreases q.len(),
{
    if q.len() == 0 {
        (q, q)
    } else {
        let rec = expire_split(q.drop_first(), now);
        if view_expired(q[0], now) {
            (rec.0, seq![q[0]] + rec.1)
        } else {
            (seq![q[0]] + rec.0, rec.1)
        }
    }
}

/// The split covers the queue, expired entries were all started, and the
/// two halves answer the expiry test.
pub proof fn lemma_expire_split_props(q: Seq<(Seq<u8>, u64, Option<u64>)>, now: u64)
    ensures
        ({
            let (kept, ex) = expire_split(q, now);
            &&& kept.len() + ex.len() == q.len()
            &&& started_count(kept) + ex.len() == started_count(q)
            &&& forall|k: int| 0 <= k < ex.len() ==> view_expired(#[trigger] ex[k], now)
            &&& forall|k: int| 0 <= k < kept.len() ==> !view_expired(#[trigger] kept[k], now)
        }),
    decreases q.len(),
{
    if q.len() > 0 {
        lemma_expire_split_props(q.drop_first(), now);
        let rec = expire_split(q.drop_first(), now);
        if view_expired(q[0], now) {
            let ex = seq![q[0]] + rec.1;
            assert(ex.drop_first() =~= rec.1);
            assert forall|k: int| 0 <= k < ex.len() implies view_expired(#[trigger] ex[k], now) by {
                if k > 0 {
                    assert(ex[k] == rec.1[k - 1]);
                }
            }
        } else {
            let kept = seq![q[0]] + rec.0;
            assert(kept.drop_first() =~= rec.0);
            assert(started_count(kept) == (if q[0].2 is Some {
                1nat
            } else {
                0nat
            }) + started_count(rec.0));
            assert forall|k: int| 0 <= k < kept.len() implies !view_expired(
                #[trigger] kept[k],
                now,
            ) by {
                if k > 0 {
                    assert(kept[k] == rec.0[k - 1]);
                }
            }
        }
    }
}

impl Arbitrator {
    /// Append a fresh, not-yet-started entry for this peer and chunk, then
    /// run the admission rule.
    pub fn queue(&mut self, chunk: &Chunk, router_id: &[u8], now: u64) -> (pulls: Vec<Pull>)
        requires
            old(self).wf(),
        ensures
            final(self).wf(),
            final(self).upload_slots == old(self).upload_slots,
            ({
                let q1 = queue_view(old(self).queue@).push((router_id@, chunk.index, None));
                let rec = dispatch(q1, old(self).slots, now);
                &&& queue_view(final(self).queue@) == rec.0
                &&& final(self).slots == rec.1
                &&& pull_views(pulls@) == rec.2
            }),
    {
        let t = TimedChunk::new(router_id, chunk.index);
        self.queue.push(t);
        proof {
            assert(queue_view(self.queue@) =~= queue_view(old(self).queue@).push(
                (router_id@, chunk.index, None::<u64>),
            ));
            lemma_started_count_push(queue_view(old(self).queue@), (router_id@, chunk.index, None));
        }
        self.request(now)
    }

    /// Remove the first queue entry for this peer and chunk index.  The
    /// slot comes back only if the entry had been admitted; an entry that
    /// was still waiting held no slot.  Then run the admission rule.  Fails
    /// with `ChunkIndex` when no entry matches, leaving the state unchanged.
    pub fn release(&mut self, chunk: &Chunk, router_id: &[u8], now: u64) -> (r: Result<
        Vec<Pull>,
        Error,
    >)
        requires
            old(self).wf(),
        ensures
            final(self).wf(),
            final(self).upload_slots == old(self).upload_slots,
            ({
                let q0 = queue_view(old(self).queue@);
                let m = first_match(q0, router_id@, chunk.index);
                match r {
                    Ok(pulls) => {
                        &&& m >= 0
                        &&& ({
                            let freed: u32 = if q0[m].2 is Some {
                                1u32
                            } else {
                                0u32
                            };
                            let rec = dispatch(
                                q0.remove(m),
                                (old(self).slots + freed) as u32,
                                now,
                            );
                            &&& queue_view(final(self).queue@) == rec.0
                            &&& final(self).slots == rec.1
                            &&& pull_views(pulls@) == rec.2
                        })
                    },
                    Err(e) => {
                        &&& e == Error::ChunkIndex
                        &&& m == -1
                        &&& queue_view(final(self).queue@) == q0
                        &&& final(self).slots == old(self).slots
                    },
                }
            }),
    {
        let ghost q0 = queue_view(self.queue@);
        let n = self.queue.len();
        let mut j: usize = 0;
        while j < n
            invariant
                q0 == queue_view(old(self).queue@),
                self.queue@ == old(self).queue@,
                self.slots == old(self).slots,
                self.upload_slots == old(self).upload_slots,
                old(self).wf(),
                n == self.queue@.len(),
                j <= n,
                forall|k: int|
                    0 <= k < j ==> !entry_matches(#[trigger] q0[k], router_id@, chunk.index),
            decreases n - j,
        {
            let matches_here = crate::wire::frame_is(self.queue[j].router_id.as_slice(), router_id)
                && self.queue[j].index == chunk.index;
            if matches_here {
                proof {
                    lemma_first_match(q0, router_id@, chunk.index);
                    let m = first_match(q0, router_id@, chunk.index);
                    assert(entry_matches(q0[j as int], router_id@, chunk.index));
                    if m < j {
                        assert(entry_matches(q0[m], router_id@, chunk.index));
                    }
                    if m > j {
                        assert(!entry_matches(q0[j as int], router_id@, chunk.index));
                    }
                    assert(m == j);
                }
                let freed = self.queue[j].timestamp.is_some();
                proof {
                    lemma_started_count_remove(q0, j as int);
                }
                let _removed = self.queue.remove(j);
                if freed {
                    self.slots = self.slots + 1;
                }
                proof {
                    assert(queue_view(self.queue@) =~= q0.remove(j as int));
                }
                let pulls = self.request(now);
                proof {
                    lemma_dispatch_props(
                        q0.remove(j as int),
                        (old(self).slots + (if q0[j as int].2 is Some {
                            1u32
                        } else {
                            0u32
                        })) as u32,
                        now,
                    );
                }
                return Ok(pulls);
            }
            proof {
                assert(q0[j as int] == entry_view(self.queue@[j as int]));
            }
            j = j + 1;
        }
        proof {
            lemma_first_match(q0, router_id@, chunk.index);
            let m = first_match(q0, router_id@, chunk.index);
            if m >= 0 {
                assert(entry_matches(q0[m], router_id@, chunk.index));
            }
        }
        Err(Error::ChunkIndex)
    }

    /// Scan for admitted entries whose round trip has exceeded
    /// [`CHUNK_TIMEOUT`] at `now`: remove each (so that the later re-queue
    /// does not leave a duplicate behind), return its slot, and build one
    /// synthetic failure message per expired chunk for the sink channel,
    /// `router_id | index | "0"`.  Re-queueing or abandoning the chunk is
    /// the caller's ordinary failure path.
    pub fn timeout_expired(&mut self, now: u64) -> (msgs: Vec<Vec<Vec<u8>>>)
        requires
            old(self).wf(),
        ensures
            final(self).wf(),
            final(self).upload_slots == old(self).upload_slots,
            ({
                let split = expire_split(queue_view(old(self).queue@), now);
                &&& queue_view(final(self).queue@) == split.0
                &&& final(self).slots == old(self).slots + split.1.len()
                &&& msgs@.len() == split.1.len()
                &&& forall|k: int|
                    0 <= k < split.1.len() ==> {
                        &&& (#[trigger] msgs@[k])@.len() == 3
                        &&& msgs@[k]@[0]@ == split.1[k].0
                        &&& msgs@[k]@[1]@ == dec_digits(split.1[k].1 as nat)
                        &&& msgs@[k]@[2]@ == sink_failure()
                    }
            }),
    {
        let ghost q0 = queue_view(old(self).queue@);
        let mut kept: Vec<TimedChunk> = Vec::new();
        let mut msgs: Vec<Vec<Vec<u8>>> = Vec::new();
        let ghost mut exs: Seq<(Seq<u8>, u64, Option<u64>)> = Seq::empty();
        let ghost mut c: int = 0;
        proof {
            assert(queue_view(self.queue@).skip(0) =~= q0);
            assert(queue_view(kept@) =~= Seq::<(Seq<u8>, u64, Option<u64>)>::empty());
            assert(queue_view(kept@) + expire_split(q0.skip(0), now).0 =~= expire_split(
                q0,
                now,
            ).0);
            assert(exs + expire_split(q0.skip(0), now).1 =~= expire_split(q0, now).1);
        }
        while self.queue.len() > 0
            invariant
                q0 == queue_view(old(self).queue@),
                0 <= c <= q0.len(),
                queue_view(self.queue@) == q0.skip(c),
                self.upload_slots == old(self).upload_slots,
                expire_split(q0, now).0 == queue_view(kept@) + expire_split(q0.skip(c), now).0,
                expire_split(q0, now).1 == exs + expire_split(q0.skip(c), now).1,
                msgs@.len() == exs.len(),
                forall|k: int|
                    0 <= k < exs.len() ==> {
                        &&& (#[trigger] msgs@[k])@.len() == 3
                        &&& msgs@[k]@[0]@ == exs[k].0
                        &&& msgs@[k]@[1]@ == dec_digits(exs[k].1 as nat)
                        &&& msgs@[k]@[2]@ == sink_failure()
                    },
                self.slots == old(self).slots + exs.len(),
                started_count(queue_view(kept@)) + started_count(q0.skip(c)) + self.slots
                    == self.upload_slots,
                self.slots <= self.upload_slots,
            decreases self.queue@.len(),
        {
            let ghost head = q0.skip(c)[0];
            proof {
                assert(queue_view(self.queue@)[0] == entry_view(self.queue@[0]));
                assert(q0.skip(c).drop_first() =~= q0.skip(c + 1));
            }
            let expired = self.queue[0].is_expired(now);
            let t = self.queue.remove(0);
            proof {
                assert(queue_view(self.queue@) =~= q0.skip(c + 1));
            }
            if expired {
                let mut frames: Vec<Vec<u8>> = Vec::new();
                let idx = t.index;
                frames.push(t.router_id);
                frames.push(fmt_u64(idx));
                frames.push(mk_sink_failure());
                msgs.push(frames);
                self.slots = self.slots + 1;
                proof {
                    exs = exs.push(head);
                    assert(exs + (seq![head] + expire_split(q0.skip(c + 1), now).1) =~= exs.push(
                        head,
                    ) + expire_split(q0.skip(c + 1), now).1);
                    assert(exs.drop_last() =~= exs.remove(exs.len() - 1));
                }
            } else {
                proof {
                    assert(queue_view(kept@.push(t)) =~= queue_view(kept@).push(head));
                    lemma_started_count_push(queue_view(kept@), head);
                    assert(queue_view(kept@).push(head) + expire_split(q0.skip(c + 1), now).0
                        =~= queue_view(kept@) + (seq![head] + expire_split(q0.skip(c + 1), now).0));
                }
                kept.push(t);
            }
            proof {
                c = c + 1;
            }
        }
        proof {
            assert(q0.skip(c).len() == 0);
            assert(c == q0.len());
            assert(q0.skip(c) =~= Seq::<(Seq<u8>, u64, Option<u64>)>::empty());
            assert(queue_view(kept@) + expire_split(q0.skip(c), now).0 =~= queue_view(kept@));
            assert(exs + expire_split(q0.skip(c), now).1 =~= exs);
            lemma_expire_split_props(q0, now);
        }
        self.queue = kept;
        msgs
    }
}


/// Split the queue by peer: entries of other peers (kept, in order) and the
/// peer's own entries (dropped, in order).
pub open spec fn peer_split(q: Seq<(Seq<u8>, u64, Option<u64>)>, rid: Seq<u8>) -> (
    Seq<(Seq<u8>, u64, Option<u64>)>,
    Seq<(Seq<u8>, u64, Option<u64>)>,
)
    decreases q.len(),
{
    if q.len() == 0 {
        (q, q)
    } else {
        let rec = peer_split(q.drop_first(), rid);
        if q[0].0 == rid {
            (rec.0, seq![q[0]] + rec.1)
        } else {
            (seq![q[0]] + rec.0, rec.1)
        }
    }
}

/// The split covers the queue and the started entries of both halves
/// account for all started entries.
pub proof fn lemma_peer_split_props(q: Seq<(Seq<u8>, u64, Option<u64>)>, rid: Seq<u8>)
    ensures
        ({
            let (kept, dropped) = peer_split(q, rid);
            &&& kept.len() + dropped.len() == q.len()
            &&& started_count(kept) + started_count(dropped) == started_count(q)
            &&& forall|k: int| 0 <= k < dropped.len() ==> (#[trigger] dropped[k]).0 == rid
            &&& forall|k: int| 0 <= k < kept.len() ==> (#[trigger] kept[k]).0 != rid
        }),
    decreases q.len(),
{
    if q.len() > 0 {
        lemma_peer_split_props(q.drop_first(), rid);
        let rec = peer_split(q.drop_first(), rid);
        if q[0].0 == rid {
            let dropped = seq![q[0]] + rec.1;
            assert(dropped.drop_first() =~= rec.1);
            assert(started_count(dropped) == (if q[0].2 is Some {
                1nat
            } else {
                0nat
            }) + started_count(rec.1));
            assert forall|k: int| 0 <= k < dropped.len() implies (#[trigger] dropped[k]).0
                == rid by {
                if k > 0 {
                    assert(dropped[k] == rec.1[k - 1]);
                }
            }
        } else {
            let kept = seq![q[0]] + rec.0;
            assert(kept.drop_first() =~= rec.0);
            assert(started_count(kept) == (if q[0].2 is Some {
                1nat
            } else {
                0nat
            }) + started_count(rec.0));
            assert forall|k: int| 0 <= k < kept.len() implies (#[trigger] kept[k]).0 != rid by {
                if k > 0 {
                    assert(kept[k] == rec.0[k - 1]);
                }
            }
        }
    }
}

/// Available slots stay within `[0, configured]`, and always equal the
/// budget minus the number of started entries.
pub proof fn lemma_slot_bounds(a: &Arbitrator)
    requires
        a.wf(),
    ensures
        a.slots <= a.upload_slots,
        a.slots == a.upload_slots - started_count(queue_view(a.queue@)),
{
}

impl Arbitrator {
    /// Tear down a peer: remove all of its queue entries, returning the
    /// slots its started entries held.  Called when the peer's transfer
    /// ends, so that no stale entry survives its File.
    pub fn drop_peer(&mut self, router_id: &[u8])
        requires
            old(self).wf(),
        ensures
            final(self).wf(),
            final(self).upload_slots == old(self).upload_slots,
            ({
                let split = peer_split(queue_view(old(self).queue@), router_id@);
                &&& queue_view(final(self).queue@) == split.0
                &&& final(self).slots == old(self).slots + started_count(split.1)
            }),
    {
        let ghost q0 = queue_view(old(self).queue@);
        let mut kept: Vec<TimedChunk> = Vec::new();
        let ghost mut dropped: Seq<(Seq<u8>, u64, Option<u64>)> = Seq::empty();
        let ghost mut c: int = 0;
        proof {
            assert(queue_view(self.queue@).skip(0) =~= q0);
            assert(queue_view(kept@) =~= Seq::<(Seq<u8>, u64, Option<u64>)>::empty());
            assert(queue_view(kept@) + peer_split(q0.skip(0), router_id@).0 =~= peer_split(
                q0,
                router_id@,
            ).0);
            assert(dropped + peer_split(q0.skip(0), router_id@).1 =~= peer_split(
                q0,
                router_id@,
            ).1);
        }
        while self.queue.len() > 0
            invariant
                q0 == queue_view(old(self).queue@),
                0 <= c <= q0.len(),
                queue_view(self.queue@) == q0.skip(c),
                self.upload_slots == old(self).upload_slots,
                peer_split(q0, router_id@).0 == queue_view(kept@) + peer_split(
                    q0.skip(c),
                    router_id@,
                ).0,
                peer_split(q0, router_id@).1 == dropped + peer_split(q0.skip(c), router_id@).1,
                self.slots == old(self).slots + started_count(dropped),
                started_count(queue_view(kept@)) + started_count(q0.skip(c)) + self.slots
                    == self.upload_slots,
                self.slots <= self.upload_slots,
            decreases self.queue@.len(),
        {
            let ghost head = q0.skip(c)[0];
            proof {
                assert(queue_view(self.queue@)[0] == entry_view(self.queue@[0]));
                assert(q0.skip(c).drop_first() =~= q0.skip(c + 1));
            }
            let is_peer = crate::wire::frame_is(self.queue[0].router_id.as_slice(), router_id);
            let t = self.queue.remove(0);
            proof {
                assert(queue_view(self.queue@) =~= q0.skip(c + 1));
            }
            if is_peer {
                if t.timestamp.is_some() {
                    self.slots = self.slots + 1;
                }
                proof {
                    lemma_started_count_push(dropped, head);
                    assert(dropped + (seq![head] + peer_split(q0.skip(c + 1), router_id@).1)
                        =~= dropped.push(head) + peer_split(q0.skip(c + 1), router_id@).1);
                    dropped = dropped.push(head);
                }
            } else {
                proof {
                    assert(queue_view(kept@.push(t)) =~= queue_view(kept@).push(head));
                    lemma_started_count_push(queue_view(kept@), head);
                    assert(queue_view(kept@).push(head) + peer_split(q0.skip(c + 1), router_id@).0
                        =~= queue_view(kept@) + (seq![head] + peer_split(
                        q0.skip(c + 1),
                        router_id@,
                    ).0));
                }
                kept.push(t);
            }
            proof {
                c = c + 1;
            }
        }
        proof {
            assert(q0.skip(c).len() == 0);
            assert(q0.skip(c) =~= Seq::<(Seq<u8>, u64, Option<u64>)>::empty());
            assert(queue_view(kept@) + peer_split(q0.skip(c), router_id@).0 =~= queue_view(kept@));
            assert(dropped + peer_split(q0.skip(c), router_id@).1 =~= dropped);
            lemma_peer_split_props(q0, router_id@);
        }
        self.queue = kept;
    }
}


/// The chunk indices of a peer's not-yet-started entries, in queue order.
pub open spec fn peer_unstarted(q: Seq<(Seq<u8>, u64, Option<u64>)>, p: Seq<u8>) -> Seq<u64>
    decreases q.len(),
{
    if q.len() == 0 {
        Seq::<u64>::empty()
    } else {
        let rest = peer_unstarted(q.drop_first(), p);
        if q[0].0 == p && q[0].2 is None {
            seq![q[0].1] + rest
        } else {
            rest
        }
    }
}

/// The chunk indices of a peer's pulls, in emission order.
pub open spec fn peer_pulls(ps: Seq<(Seq<u8>, u64)>, p: Seq<u8>) -> Seq<u64>
    decreases ps.len(),
{
    if ps.len() == 0 {
        Seq::<u64>::empty()
    } else {
        let rest = peer_pulls(ps.drop_first(), p);
        if ps[0].0 == p {
            seq![ps[0].1] + rest
        } else {
            rest
        }
    }
}

/// FIFO admission per peer: the pulls the admission rule emits to one peer
/// are a prefix of that peer's waiting chunk indices, in queue order.
pub proof fn lemma_dispatch_fifo(
    q: Seq<(Seq<u8>, u64, Option<u64>)>,
    slots: u32,
    now: u64,
    p: Seq<u8>,
)
    ensures
        exists|m: int|
            0 <= m <= peer_unstarted(q, p).len() && peer_pulls(dispatch(q, slots, now).2, p)
                == peer_unstarted(q, p).take(m),
    decreases q.len(),
{
    let pulls = dispatch(q, slots, now).2;
    let waiting = peer_unstarted(q, p);
    if q.len() == 0 || slots == 0 {
        assert(peer_pulls(pulls, p) =~= waiting.take(0));
        assert(0 <= 0 <= waiting.len() && peer_pulls(dispatch(q, slots, now).2, p)
            == peer_unstarted(q, p).take(0));
    } else if q[0].2 is None {
        lemma_dispatch_fifo(q.drop_first(), (slots - 1) as u32, now, p);
        let rec2 = dispatch(q.drop_first(), (slots - 1) as u32, now).2;
        let m2 = choose|m2: int|
            0 <= m2 <= peer_unstarted(q.drop_first(), p).len() && peer_pulls(rec2, p)
                == peer_unstarted(q.drop_first(), p).take(m2);
        assert(pulls == seq![(q[0].0, q[0].1)] + rec2);
        assert(pulls[0] == (q[0].0, q[0].1));
        assert(pulls.drop_first() =~= rec2);
        if q[0].0 == p {
            assert(peer_pulls(pulls, p) == seq![q[0].1] + peer_pulls(rec2, p));
            assert(waiting == seq![q[0].1] + peer_unstarted(q.drop_first(), p));
            assert(waiting.take(m2 + 1) =~= seq![q[0].1] + peer_unstarted(
                q.drop_first(),
                p,
            ).take(m2));
            assert(0 <= m2 + 1 <= waiting.len() && peer_pulls(dispatch(q, slots, now).2, p)
                == peer_unstarted(q, p).take(m2 + 1));
        } else {
            assert(peer_pulls(pulls, p) == peer_pulls(rec2, p));
            assert(waiting == peer_unstarted(q.drop_first(), p));
            assert(0 <= m2 <= waiting.len() && peer_pulls(dispatch(q, slots, now).2, p)
                == peer_unstarted(q, p).take(m2));
        }
    } else {
        lemma_dispatch_fifo(q.drop_first(), slots, now, p);
        let rec2 = dispatch(q.drop_first(), slots, now).2;
        let m2 = choose|m2: int|
            0 <= m2 <= peer_unstarted(q.drop_first(), p).len() && peer_pulls(rec2, p)
                == peer_unstarted(q.drop_first(), p).take(m2);
        assert(pulls == rec2);
        assert(waiting == peer_unstarted(q.drop_first(), p));
        assert(0 <= m2 <= waiting.len() && peer_pulls(dispatch(q, slots, now).2, p)
            == peer_unstarted(q, p).take(m2));
    }
}

/// Pull commands emitted to one peer carry strictly increasing chunk
/// indices, whenever that peer's waiting chunks stand in increasing order
/// in the queue — as they do when a transfer seeds them `0, 1, 2, …`.  A
/// retried chunk re-enters the queue as one fresh waiting entry and so is
/// pulled again exactly once.
pub proof fn lemma_pulls_ascending(
    q: Seq<(Seq<u8>, u64, Option<u64>)>,
    slots: u32,
    now: u64,
    p: Seq<u8>,
)
    requires
        crate::chunk::ascending(peer_unstarted(q, p)),
    ensures
        crate::chunk::ascending(peer_pulls(dispatch(q, slots, now).2, p)),
{
    lemma_dispatch_fifo(q, slots, now, p);
    let waiting = peer_unstarted(q, p);
    let got = peer_pulls(dispatch(q, slots, now).2, p);
    let m = choose|m: int| 0 <= m <= waiting.len() && got == waiting.take(m);
    assert forall|a: int, b: int| 0 <= a < b < got.len() implies got[a] < got[b] by {
        assert(got[a] == waiting[a] && got[b] == waiting[b]);
    }
}

} // verus!
