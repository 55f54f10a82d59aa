//! The requests that a peer made of us: which are taken, in which order they are
//! served, and how much may be under way.
//!
//! Times are nanoseconds on one monotonic clock.
use crate::arith::{at_most, capped_product};
use crate::session::params::{BlockRequest, BLOCK_SIZE};
use vstd::prelude::*;

verus! {

/// Usual number of requests that can wait or be under way.
pub const DEFAULT_UNREAD_QUEUE_CAP: usize = 128;

/// Least bytes that may wait to be sent.
pub const WATERMARK_MIN_BYTES: u32 = 131_072;

/// Most bytes that may wait to be sent.
pub const WATERMARK_MAX_BYTES: u32 = 4_194_304;

/// Bytes may wait that are sent within this time: half a second, in
/// milliseconds.
pub const WATERMARK_HORIZON: u64 = 500;

/// For this long after we choke a peer its requests are still taken: two
/// seconds.
pub const POST_CHOKE_GRACE: u64 = 2_000_000_000;

/// How often, in blocks per piece, a choked peer may ask for pieces that it may
/// have all the same.
pub const FAST_SET_ABUSE_MULTIPLIER: u32 = 3;

/// What becomes of a request.
#[derive(Debug, Clone, Copy, PartialEq, Eq, Structural)]
pub enum AcceptOutcome {
    /// It waits to be served.
    Queued,
    /// There is no room, and it is dropped.
    DroppedNewest,
    /// The peer is choked, and may not have the piece.
    RejectedChoked,
    /// The peer is choked, and asked too often.
    FastSetAbuse,
    /// It was made already.
    Duplicate,
}

/// A peer's requests, by value.
#[verifier::ext_equal]
pub struct UploadModel {
    /// The requests that wait, the oldest first.
    pub queue: Seq<BlockRequest>,
    /// The requests that are under way.
    pub in_flight: Seq<BlockRequest>,
    /// The pieces that the peer may have while it is choked.
    pub allowed_fast: Seq<u32>,
    /// How often it asked for them while it was choked.
    pub fast_set_uses: u32,
    /// When we choked it, if we did.
    pub choked_at: Option<u64>,
    /// Bytes that wait to be sent.
    pub ready_bytes: u32,
    /// Bytes per second that it takes.
    pub upload_rate_bps: u64,
    /// Blocks per piece.
    pub blocks_per_piece: u32,
    /// Most requests that can wait or be under way.
    pub cap: usize,
}

/// The requests without one of them.
pub open spec fn requests_without(s: Seq<BlockRequest>, req: BlockRequest) -> Seq<BlockRequest>
    decreases s.len(),
{
    if s.len() == 0 {
        s
    } else if s.last() == req {
        requests_without(s.drop_last(), req)
    } else {
        requests_without(s.drop_last(), req).push(s.last())
    }
}

/// The requests for pieces out of `pieces`.
pub open spec fn requests_among(s: Seq<BlockRequest>, pieces: Seq<u32>) -> Seq<BlockRequest>
    decreases s.len(),
{
    if s.len() == 0 {
        s
    } else if pieces.contains(s.last().piece) {
        requests_among(s.drop_last(), pieces).push(s.last())
    } else {
        requests_among(s.drop_last(), pieces)
    }
}

/// No request stands twice.
pub open spec fn no_repeats(s: Seq<BlockRequest>) -> bool {
    forall|i: int, j: int| 0 <= i < j < s.len() ==> #[trigger] s[i] != #[trigger] s[j]
}

impl UploadModel {
    /// No request was taken twice, and no more than there is room for.
    pub open spec fn wf(self) -> bool {
        &&& self.queue.len() + self.in_flight.len() <= self.cap
        &&& no_repeats(self.queue)
        &&& no_repeats(self.in_flight)
        &&& forall|i: int, j: int|
            0 <= i < self.queue.len() && 0 <= j < self.in_flight.len()
                ==> #[trigger] self.queue[i] != #[trigger] self.in_flight[j]
        &&& self.blocks_per_piece >= 1
    }

    /// The request was made already.
    pub open spec fn has(self, req: BlockRequest) -> bool {
        self.queue.contains(req) || self.in_flight.contains(req)
    }

    /// The peer is choked, and not just since.
    pub open spec fn shut(self, now: u64) -> bool {
        match self.choked_at {
            Some(at) => now >= at + POST_CHOKE_GRACE,
            None => false,
        }
    }

    /// How often the peer may ask while it is choked.
    pub open spec fn fast_limit(self) -> int {
        at_most(self.blocks_per_piece * FAST_SET_ABUSE_MULTIPLIER, u32::MAX as int)
    }

    /// What becomes of a request.
    pub open spec fn outcome(self, req: BlockRequest, now: u64) -> AcceptOutcome {
        if self.has(req) {
            AcceptOutcome::Duplicate
        } else if self.shut(now) && !self.allowed_fast.contains(req.piece) {
            AcceptOutcome::RejectedChoked
        } else if self.shut(now) && self.fast_set_uses >= self.fast_limit() {
            AcceptOutcome::FastSetAbuse
        } else if self.queue.len() + self.in_flight.len() >= self.cap {
            AcceptOutcome::DroppedNewest
        } else {
            AcceptOutcome::Queued
        }
    }

    /// After a request. One for a piece that a choked peer may have counts even
    /// where there is no room for it.
    pub open spec fn asked(self, req: BlockRequest, now: u64) -> UploadModel {
        let outcome = self.outcome(req, now);
        let taken = outcome is Queued || outcome is DroppedNewest;
        UploadModel {
            queue: if outcome is Queued {
                self.queue.push(req)
            } else {
                self.queue
            },
            fast_set_uses: if taken && self.shut(now) {
                (self.fast_set_uses + 1) as u32
            } else {
                self.fast_set_uses
            },
            ..self
        }
    }

    /// After the oldest request was begun.
    pub open spec fn dispatched(self) -> UploadModel {
        if self.queue.len() == 0 {
            self
        } else {
            UploadModel {
                queue: self.queue.skip(1),
                in_flight: self.in_flight.push(self.queue[0]),
                ..self
            }
        }
    }

    /// After a request was served or given up.
    pub open spec fn released(self, req: BlockRequest) -> UploadModel {
        UploadModel { in_flight: requests_without(self.in_flight, req), ..self }
    }

    /// After the peer took a request back.
    pub open spec fn cancelled(self, req: BlockRequest) -> UploadModel {
        UploadModel {
            queue: requests_without(self.queue, req),
            in_flight: requests_without(self.in_flight, req),
            ..self
        }
    }

    /// After we choked the peer.
    pub open spec fn choked(self, use_fast_ext: bool, now: u64) -> UploadModel {
        let kept = if use_fast_ext {
            self.allowed_fast
        } else {
            Seq::empty()
        };
        UploadModel {
            queue: requests_among(self.queue, kept),
            in_flight: requests_among(self.in_flight, kept),
            choked_at: Some(now),
            ..self
        }
    }

    /// Bytes that may wait to be sent.
    pub open spec fn watermark(self) -> int {
        let target = at_most(
            self.upload_rate_bps * WATERMARK_HORIZON,
            u64::MAX as int,
        ) / 1000;
        if target < WATERMARK_MIN_BYTES {
            WATERMARK_MIN_BYTES as int
        } else if target > WATERMARK_MAX_BYTES {
            WATERMARK_MAX_BYTES as int
        } else {
            target
        }
    }
}

proof fn lemma_without(s: Seq<BlockRequest>, req: BlockRequest)
    ensures
        requests_without(s, req).len() <= s.len(),
        no_repeats(s) ==> no_repeats(requests_without(s, req)),
        forall|r: BlockRequest| #[trigger]
            requests_without(s, req).contains(r) <==> s.contains(r) && r != req,
    decreases s.len(),
{
    let out = requests_without(s, req);
    if s.len() > 0 {
        let front = s.drop_last();
        let last = s.last();
        let rest = requests_without(front, req);
        lemma_without(front, req);
        assert(s[s.len() - 1] == last);
        if no_repeats(s) {
            assert forall|i: int, j: int| 0 <= i < j < front.len() implies #[trigger] front[i]
                != #[trigger] front[j] by {
                assert(s[i] != s[j]);
            }
            assert forall|i: int, j: int| 0 <= i < j < out.len() implies #[trigger] out[i]
                != #[trigger] out[j] by {
                assert(out[i] == rest[i]);
                assert(rest.contains(rest[i]));
                if j < rest.len() {
                    assert(out[j] == rest[j]);
                } else {
                    let k = choose|k: int| 0 <= k < front.len() && front[k] == rest[i];
                    assert(s[k] != s[s.len() - 1]);
                }
            }
        }
        assert forall|r: BlockRequest| #[trigger] out.contains(r) <==> s.contains(r) && r
            != req by {
            if out.contains(r) {
                let i = choose|i: int| 0 <= i < out.len() && out[i] == r;
                if i < rest.len() {
                    assert(rest[i] == r);
                    assert(rest.contains(r));
                    let k = choose|k: int| 0 <= k < front.len() && front[k] == r;
                    assert(s[k] == r);
                }
            }
            if s.contains(r) && r != req {
                let i = choose|i: int| 0 <= i < s.len() && s[i] == r;
                if i < front.len() {
                    assert(front[i] == r);
                    assert(rest.contains(r));
                    let k = choose|k: int| 0 <= k < rest.len() && rest[k] == r;
                    assert(out[k] == r);
                } else {
                    assert(out[rest.len() as int] == r);
                }
            }
        }
    }
}

proof fn lemma_among(s: Seq<BlockRequest>, pieces: Seq<u32>)
    ensures
        requests_among(s, pieces).len() <= s.len(),
        no_repeats(s) ==> no_repeats(requests_among(s, pieces)),
        forall|r: BlockRequest| #[trigger]
            requests_among(s, pieces).contains(r) <==> s.contains(r) && pieces.contains(r.piece),
    decreases s.len(),
{
    let out = requests_among(s, pieces);
    if s.len() > 0 {
        let front = s.drop_last();
        let last = s.last();
        let rest = requests_among(front, pieces);
        lemma_among(front, pieces);
        assert(s[s.len() - 1] == last);
        if no_repeats(s) {
            assert forall|i: int, j: int| 0 <= i < j < front.len() implies #[trigger] front[i]
                != #[trigger] front[j] by {
                assert(s[i] != s[j]);
            }
            assert forall|i: int, j: int| 0 <= i < j < out.len() implies #[trigger] out[i]
                != #[trigger] out[j] by {
                assert(out[i] == rest[i]);
                assert(rest.contains(rest[i]));
                if j < rest.len() {
                    assert(out[j] == rest[j]);
                } else {
                    let k = choose|k: int| 0 <= k < front.len() && front[k] == rest[i];
                    assert(s[k] != s[s.len() - 1]);
                }
            }
        }
        assert forall|r: BlockRequest| #[trigger] out.contains(r) <==> s.contains(r)
            && pieces.contains(r.piece) by {
            if out.contains(r) {
                let i = choose|i: int| 0 <= i < out.len() && out[i] == r;
                if i < rest.len() {
                    assert(rest[i] == r);
                    assert(rest.contains(r));
                    let k = choose|k: int| 0 <= k < front.len() && front[k] == r;
                    assert(s[k] == r);
                }
            }
            if s.contains(r) && pieces.contains(r.piece) {
                let i = choose|i: int| 0 <= i < s.len() && s[i] == r;
                if i < front.len() {
                    assert(front[i] == r);
                    assert(rest.contains(r));
                    let k = choose|k: int| 0 <= k < rest.len() && rest[k] == r;
                    assert(out[k] == r);
                } else {
                    assert(out[rest.len() as int] == r);
                }
            }
        }
    }
}

/// A part of the requests under way or waiting is sound too.
proof fn lemma_fewer_keep(m: UploadModel, queue: Seq<BlockRequest>, in_flight: Seq<BlockRequest>)
    requires
        m.wf(),
        queue.len() <= m.queue.len(),
        in_flight.len() <= m.in_flight.len(),
        no_repeats(queue),
        no_repeats(in_flight),
        forall|r: BlockRequest| #[trigger] queue.contains(r) ==> m.queue.contains(r),
        forall|r: BlockRequest| #[trigger] in_flight.contains(r) ==> m.in_flight.contains(r),
    ensures
        (UploadModel { queue, in_flight, ..m }).wf(),
{
    assert forall|i: int, j: int|
        0 <= i < queue.len() && 0 <= j < in_flight.len() implies #[trigger] queue[i]
        != #[trigger] in_flight[j] by {
        assert(queue.contains(queue[i]));
        assert(in_flight.contains(in_flight[j]));
        let a = choose|a: int| 0 <= a < m.queue.len() && m.queue[a] == queue[i];
        let b = choose|b: int| 0 <= b < m.in_flight.len() && m.in_flight[b] == in_flight[j];
        assert(m.queue[a] != m.in_flight[b]);
    }
}

/// Whatever is asked, no request is taken twice and no more than there is room
/// for.
pub proof fn law_requests_stay_bounded(m: UploadModel, req: BlockRequest, now: u64, fast: bool)
    requires
        m.wf(),
    ensures
        m.asked(req, now).wf(),
        m.dispatched().wf(),
        m.released(req).wf(),
        m.cancelled(req).wf(),
        m.choked(fast, now).wf(),
{
    let a = m.asked(req, now);
    if m.outcome(req, now) is Queued {
        assert forall|i: int, j: int| 0 <= i < j < a.queue.len() implies #[trigger] a.queue[i]
            != #[trigger] a.queue[j] by {
            assert(a.queue[i] == m.queue[i]);
            assert(m.queue.contains(m.queue[i]));
        }
        assert forall|i: int, j: int|
            0 <= i < a.queue.len() && 0 <= j < a.in_flight.len() implies #[trigger] a.queue[i]
            != #[trigger] a.in_flight[j] by {
            assert(m.in_flight.contains(m.in_flight[j]));
            if i < m.queue.len() {
                assert(a.queue[i] == m.queue[i]);
            }
        }
    }
    if m.queue.len() > 0 {
        let d = m.dispatched();
        assert forall|i: int, j: int| 0 <= i < j < d.queue.len() implies #[trigger] d.queue[i]
            != #[trigger] d.queue[j] by {
            assert(m.queue[i + 1] != m.queue[j + 1]);
        }
        assert forall|i: int, j: int|
            0 <= i < j < d.in_flight.len() implies #[trigger] d.in_flight[i]
            != #[trigger] d.in_flight[j] by {
            if j < m.in_flight.len() {
                assert(m.in_flight[i] != m.in_flight[j]);
            } else {
                assert(m.queue[0] != m.in_flight[i]);
            }
        }
        assert forall|i: int, j: int|
            0 <= i < d.queue.len() && 0 <= j < d.in_flight.len() implies #[trigger] d.queue[i]
            != #[trigger] d.in_flight[j] by {
            if j < m.in_flight.len() {
                assert(m.queue[i + 1] != m.in_flight[j]);
            } else {
                assert(m.queue[0] != m.queue[i + 1]);
            }
        }
    }
    lemma_without(m.queue, req);
    lemma_without(m.in_flight, req);
    lemma_fewer_keep(m, m.queue, requests_without(m.in_flight, req));
    lemma_fewer_keep(m, requests_without(m.queue, req), requests_without(m.in_flight, req));
    let kept = if fast {
        m.allowed_fast
    } else {
        Seq::empty()
    };
    lemma_among(m.queue, kept);
    lemma_among(m.in_flight, kept);
    lemma_fewer_keep(m, requests_among(m.queue, kept), requests_among(m.in_flight, kept));
}

/// A peer's requests.
#[derive(Debug)]
pub struct PeerUploadQueue {
    queue: Vec<BlockRequest>,
    in_flight: Vec<BlockRequest>,
    allowed_fast: Vec<u32>,
    fast_set_uses: u32,
    choked_at: Option<u64>,
    ready_bytes: u32,
    upload_rate_bps: u64,
    blocks_per_piece: u32,
    cap: usize,
}

/// Whether a request stands in the list.
fn holds(s: &Vec<BlockRequest>, req: &BlockRequest) -> (r: bool)
    ensures
        r == s@.contains(*req),
{
    let mut i: usize = 0;
    while i < s.len()
        invariant
            i <= s@.len(),
            forall|j: int| 0 <= j < i ==> s@[j] != *req,
        decreases s@.len() - i,
    {
        if s[i] == *req {
            assert(s@[i as int] == *req);
            return true;
        }
        i = i + 1;
    }
    false
}

/// Whether a piece stands in the list.
fn lists(s: &Vec<u32>, piece: u32) -> (r: bool)
    ensures
        r == s@.contains(piece),
{
    let mut i: usize = 0;
    while i < s.len()
        invariant
            i <= s@.len(),
            forall|j: int| 0 <= j < i ==> s@[j] != piece,
        decreases s@.len() - i,
    {
        if s[i] == piece {
            assert(s@[i as int] == piece);
            return true;
        }
        i = i + 1;
    }
    false
}

/// The requests without one of them.
fn drop_request(s: &Vec<BlockRequest>, req: &BlockRequest) -> (r: Vec<BlockRequest>)
    ensures
        r@ == requests_without(s@, *req),
{
    let mut out: Vec<BlockRequest> = Vec::new();
    let mut i: usize = 0;
    assert(s@.take(0) =~= Seq::<BlockRequest>::empty());
    while i < s.len()
        invariant
            i <= s@.len(),
            out@ == requests_without(s@.take(i as int), *req),
        decreases s@.len() - i,
    {
        assert(s@.take(i + 1).drop_last() =~= s@.take(i as int));
        if s[i] != *req {
            out.push(s[i]);
        }
        i = i + 1;
    }
    assert(s@.take(i as int) =~= s@);
    out
}

/// The requests for pieces out of `pieces`.
fn keep_requests(s: &Vec<BlockRequest>, pieces: &Vec<u32>) -> (r: Vec<BlockRequest>)
    ensures
        r@ == requests_among(s@, pieces@),
{
    let mut out: Vec<BlockRequest> = Vec::new();
    let mut i: usize = 0;
    assert(s@.take(0) =~= Seq::<BlockRequest>::empty());
    while i < s.len()
        invariant
            i <= s@.len(),
            out@ == requests_among(s@.take(i as int), pieces@),
        decreases s@.len() - i,
    {
        assert(s@.take(i + 1).drop_last() =~= s@.take(i as int));
        if lists(pieces, s[i].piece) {
            out.push(s[i]);
        }
        i = i + 1;
    }
    assert(s@.take(i as int) =~= s@);
    out
}

impl PeerUploadQueue {
    /// The requests by value.
    pub closed spec fn view(&self) -> UploadModel {
        UploadModel {
            queue: self.queue@,
            in_flight: self.in_flight@,
            allowed_fast: self.allowed_fast@,
            fast_set_uses: self.fast_set_uses,
            choked_at: self.choked_at,
            ready_bytes: self.ready_bytes,
            upload_rate_bps: self.upload_rate_bps,
            blocks_per_piece: self.blocks_per_piece,
            cap: self.cap,
        }
    }

    /// No request was taken twice, and no more than there is room for.
    pub open spec fn wf(&self) -> bool {
        self@.wf()
    }

    /// No requests, with the usual room.
    pub fn new(blocks_per_piece: u32) -> (r: PeerUploadQueue)
        ensures
            r.wf(),
            r@ == empty_queue(blocks_per_piece, DEFAULT_UNREAD_QUEUE_CAP),
    {
        PeerUploadQueue::with_cap(blocks_per_piece, DEFAULT_UNREAD_QUEUE_CAP)
    }

    /// No requests, with room for `cap`.
    pub fn with_cap(blocks_per_piece: u32, cap: usize) -> (r: PeerUploadQueue)
        ensures
            r.wf(),
            r@ == empty_queue(blocks_per_piece, cap),
    {
        PeerUploadQueue {
            queue: Vec::new(),
            in_flight: Vec::new(),
            allowed_fast: Vec::new(),
            fast_set_uses: 0,
            choked_at: None,
            ready_bytes: 0,
            upload_rate_bps: 0,
            blocks_per_piece: if blocks_per_piece == 0 {
                1
            } else {
                blocks_per_piece
            },
            cap,
        }
    }

    /// Takes a request, or says why not.
    pub fn accept_request(&mut self, req: BlockRequest, now: u64) -> (r: AcceptOutcome)
        requires
            old(self).wf(),
        ensures
            final(self).wf(),
            r == old(self)@.outcome(req, now),
            final(self)@ == old(self)@.asked(req, now),
    {
        proof {
            law_requests_stay_bounded(self@, req, now, false);
        }
        if holds(&self.in_flight, &req) || holds(&self.queue, &req) {
            return AcceptOutcome::Duplicate;
        }
        if let Some(at) = self.choked_at {
            if now >= at && now - at >= POST_CHOKE_GRACE {
                if !lists(&self.allowed_fast, req.piece) {
                    return AcceptOutcome::RejectedChoked;
                }
                let whole: u64 = self.blocks_per_piece as u64 * FAST_SET_ABUSE_MULTIPLIER as u64;
                let limit: u32 = if whole > u32::MAX as u64 {
                    u32::MAX
                } else {
                    whole as u32
                };
                if self.fast_set_uses >= limit {
                    return AcceptOutcome::FastSetAbuse;
                }
                self.fast_set_uses = self.fast_set_uses + 1;
            }
        }
        if self.queue.len() + self.in_flight.len() >= self.cap {
            return AcceptOutcome::DroppedNewest;
        }
        self.queue.push(req);
        AcceptOutcome::Queued
    }

    /// Begins the oldest request.
    pub fn dispatch_next(&mut self) -> (r: Option<BlockRequest>)
        requires
            old(self).wf(),
        ensures
            final(self).wf(),
            final(self)@ == old(self)@.dispatched(),
            r == (if old(self)@.queue.len() == 0 {
                None
            } else {
                Some(old(self)@.queue[0])
            }),
    {
        proof {
            law_requests_stay_bounded(
                self@,
                BlockRequest { piece: 0, offset: 0, length: 0 },
                0,
                false,
            );
        }
        if self.queue.len() == 0 {
            return None;
        }
        let ghost before = self@;
        let req = self.queue.remove(0);
        assert(self.queue@ =~= before.queue.skip(1));
        self.in_flight.push(req);
        Some(req)
    }

    /// Takes note that a request was served or given up.
    pub fn release(&mut self, req: &BlockRequest)
        requires
            old(self).wf(),
        ensures
            final(self).wf(),
            final(self)@ == old(self)@.released(*req),
    {
        proof {
            law_requests_stay_bounded(self@, *req, 0, false);
        }
        self.in_flight = drop_request(&self.in_flight, req);
    }

    /// Takes note that the peer took a request back.
    pub fn cancel(&mut self, req: &BlockRequest)
        requires
            old(self).wf(),
        ensures
            final(self).wf(),
            final(self)@ == old(self)@.cancelled(*req),
    {
        proof {
            law_requests_stay_bounded(self@, *req, 0, false);
        }
        self.queue = drop_request(&self.queue, req);
        self.in_flight = drop_request(&self.in_flight, req);
    }

    /// Takes note that we choked the peer. Its requests are dropped, but where
    /// the Fast extension is in use, those for pieces that it may have all the
    /// same are kept.
    pub fn on_self_choke(&mut self, use_fast_ext: bool, now: u64)
        requires
            old(self).wf(),
        ensures
            final(self).wf(),
            final(self)@ == old(self)@.choked(use_fast_ext, now),
    {
        proof {
            law_requests_stay_bounded(
                self@,
                BlockRequest { piece: 0, offset: 0, length: 0 },
                now,
                use_fast_ext,
            );
        }
        self.choked_at = Some(now);
        let none: Vec<u32> = Vec::new();
        let kept = if use_fast_ext {
            &self.allowed_fast
        } else {
            &none
        };
        let queue = keep_requests(&self.queue, kept);
        let in_flight = keep_requests(&self.in_flight, kept);
        self.queue = queue;
        self.in_flight = in_flight;
    }

    /// Takes note that we no longer choke the peer.
    pub fn on_self_unchoke(&mut self)
        ensures
            final(self)@ == (UploadModel { choked_at: None, fast_set_uses: 0, ..old(self)@ }),
            old(self).wf() ==> final(self).wf(),
    {
        self.choked_at = None;
        self.fast_set_uses = 0;
    }

    /// Sets the bytes per second that the peer takes.
    pub fn set_upload_rate(&mut self, bps: u64)
        ensures
            final(self)@ == (UploadModel { upload_rate_bps: bps, ..old(self)@ }),
            old(self).wf() ==> final(self).wf(),
    {
        self.upload_rate_bps = bps;
    }

    /// Lets the peer have a piece while it is choked.
    pub fn add_allowed_fast(&mut self, piece: u32)
        ensures
            final(self)@ == (UploadModel {
                allowed_fast: if old(self)@.allowed_fast.contains(piece) {
                    old(self)@.allowed_fast
                } else {
                    old(self)@.allowed_fast.push(piece)
                },
                ..old(self)@
            }),
            old(self).wf() ==> final(self).wf(),
    {
        if !lists(&self.allowed_fast, piece) {
            self.allowed_fast.push(piece);
        }
    }

    /// Bytes that may wait to be sent: what the peer takes in half a second,
    /// within bounds.
    pub fn watermark_bytes(&self) -> (r: u32)
        ensures
            r == self@.watermark(),
    {
        let scaled: u64 = capped_product(self.upload_rate_bps, WATERMARK_HORIZON);
        let target: u64 = scaled / 1000;
        if target < WATERMARK_MIN_BYTES as u64 {
            WATERMARK_MIN_BYTES
        } else if target > WATERMARK_MAX_BYTES as u64 {
            WATERMARK_MAX_BYTES
        } else {
            target as u32
        }
    }

    /// Whether a block of this size may be read for the peer.
    pub fn can_submit_read(&self, block_bytes: u32) -> (r: bool)
        ensures
            r == (self@.ready_bytes + block_bytes <= self@.watermark()),
    {
        self.ready_bytes.saturating_add(block_bytes) <= self.watermark_bytes()
    }

    /// Counts bytes that wait to be sent.
    pub fn add_ready(&mut self, bytes: u32)
        ensures
            final(self)@ == (UploadModel {
                ready_bytes: at_most(old(self)@.ready_bytes + bytes, u32::MAX as int) as u32,
                ..old(self)@
            }),
            old(self).wf() ==> final(self).wf(),
    {
        self.ready_bytes = self.ready_bytes.saturating_add(bytes);
    }

    /// Counts bytes that were sent.
    pub fn remove_ready(&mut self, bytes: u32)
        ensures
            final(self)@ == (UploadModel {
                ready_bytes: if old(self)@.ready_bytes > bytes {
                    (old(self)@.ready_bytes - bytes) as u32
                } else {
                    0
                },
                ..old(self)@
            }),
            old(self).wf() ==> final(self).wf(),
    {
        self.ready_bytes = self.ready_bytes.saturating_sub(bytes);
    }

    /// The number of requests that wait.
    pub fn queued(&self) -> (r: usize)
        ensures
            r == self@.queue.len(),
    {
        self.queue.len()
    }

    /// The number of requests that are under way.
    pub fn in_flight_len(&self) -> (r: usize)
        ensures
            r == self@.in_flight.len(),
    {
        self.in_flight.len()
    }

    /// The number of requests that wait or are under way.
    pub fn depth(&self) -> (r: usize)
        requires
            self.wf(),
        ensures
            r == self@.queue.len() + self@.in_flight.len(),
            r <= self@.cap,
    {
        self.queue.len() + self.in_flight.len()
    }
}

/// No requests, with room for `cap`.
pub open spec fn empty_queue(blocks_per_piece: u32, cap: usize) -> UploadModel {
    UploadModel {
        queue: Seq::empty(),
        in_flight: Seq::empty(),
        allowed_fast: Seq::empty(),
        fast_set_uses: 0,
        choked_at: None,
        ready_bytes: 0,
        upload_rate_bps: 0,
        blocks_per_piece: if blocks_per_piece == 0 {
            1
        } else {
            blocks_per_piece
        },
        cap,
    }
}

/// The number of blocks in a piece, the last one counted whole.
pub fn default_blocks_per_piece(piece_length: u32) -> (r: u32)
    ensures
        r == (piece_length + BLOCK_SIZE - 1) / BLOCK_SIZE as int,
{
    if piece_length % BLOCK_SIZE == 0 {
        piece_length / BLOCK_SIZE
    } else {
        piece_length / BLOCK_SIZE + 1
    }
}

/// A choke without the Fast extension leaves no request; with it, those for
/// pieces that the peer may have stay, and no others.
pub proof fn law_choke_drops_requests(m: UploadModel, now: u64, req: BlockRequest)
    ensures
        !m.choked(false, now).has(req),
        m.choked(false, now).queue.len() == 0,
        m.choked(false, now).in_flight.len() == 0,
        m.choked(true, now).has(req) <==> m.has(req) && m.allowed_fast.contains(req.piece),
{
    let none = Seq::<u32>::empty();
    lemma_among(m.queue, none);
    lemma_among(m.in_flight, none);
    lemma_among(m.queue, m.allowed_fast);
    lemma_among(m.in_flight, m.allowed_fast);
    let q = requests_among(m.queue, none);
    let f = requests_among(m.in_flight, none);
    if q.len() > 0 {
        assert(q.contains(q[0]));
    }
    if f.len() > 0 {
        assert(f.contains(f[0]));
    }
}

/// A request that was taken back is gone, wherever it stood, and every other one
/// is as before.
pub proof fn law_cancelled_request_is_gone(m: UploadModel, req: BlockRequest, other: BlockRequest)
    ensures
        !m.cancelled(req).has(req),
        other != req ==> (m.cancelled(req).has(other) <==> m.has(other)),
{
    lemma_without(m.queue, req);
    lemma_without(m.in_flight, req);
}

/// A request that was taken is not taken again before it was served or taken
/// back.
pub proof fn law_no_request_twice(m: UploadModel, req: BlockRequest, now: u64, later: u64)
    requires
        m.outcome(req, now) is Queued,
    ensures
        m.asked(req, now).outcome(req, later) is Duplicate,
        m.asked(req, now).dispatched().outcome(req, later) is Duplicate,
{
    let a = m.asked(req, now);
    assert(a.queue[m.queue.len() as int] == req);
    let d = a.dispatched();
    if m.queue.len() == 0 {
        assert(d.in_flight[a.in_flight.len() as int] == req);
    } else {
        assert(d.queue[m.queue.len() - 1] == req);
    }
}

/// Requests are begun in the order in which they were taken.
pub proof fn law_oldest_request_first(m: UploadModel, req: BlockRequest, now: u64)
    requires
        m.queue.len() > 0,
        m.outcome(req, now) is Queued,
    ensures
        m.asked(req, now).queue[0] == m.queue[0],
        m.asked(req, now).dispatched().queue.last() == req,
{
}

/// What may wait to be sent is never outside its bounds, and grows with the
/// rate.
pub proof fn law_watermark_is_bounded(a: UploadModel, b: UploadModel)
    requires
        a.upload_rate_bps <= b.upload_rate_bps,
    ensures
        WATERMARK_MIN_BYTES <= a.watermark() <= WATERMARK_MAX_BYTES,
        a.watermark() <= b.watermark(),
{
}

/// A request is taken, and waits behind all others, unless it was made already,
/// there is no room, or the peer is choked for two seconds or more and either may
/// not have the piece or asked three times per block of a piece already. In each
/// of these cases nothing waits that did not. What is asked while choked counts.
pub proof fn law_which_requests_are_taken(m: UploadModel, req: BlockRequest, now: u64)
    requires
        m.wf(),
    ensures
        ({
            let n = m.asked(req, now);
            let made = (exists|i: int| 0 <= i < m.queue.len() && #[trigger] m.queue[i] == req)
                || (exists|i: int| 0 <= i < m.in_flight.len() && #[trigger] m.in_flight[i] == req);
            let choked = m.choked_at is Some && now >= m.choked_at->0 + 2_000_000_000;
            let fast = exists|i: int|
                0 <= i < m.allowed_fast.len() && #[trigger] m.allowed_fast[i] == req.piece;
            let often = m.fast_set_uses >= 3 * m.blocks_per_piece || m.fast_set_uses == u32::MAX;
            let full = m.queue.len() + m.in_flight.len() >= m.cap;
            let outcome = m.outcome(req, now);
            &&& outcome is Duplicate <==> made
            &&& outcome is RejectedChoked <==> !made && choked && !fast
            &&& outcome is FastSetAbuse <==> !made && choked && fast && often
            &&& outcome is DroppedNewest <==> !made && !(choked && (!fast || often)) && full
            &&& outcome is Queued <==> !made && !(choked && (!fast || often)) && !full
            &&& outcome is Queued ==> n.queue == m.queue.push(req)
            &&& !(outcome is Queued) ==> n.queue == m.queue
            &&& n.in_flight == m.in_flight
            &&& (choked && (outcome is Queued || outcome is DroppedNewest)) ==> n.fast_set_uses
                == m.fast_set_uses + 1
            &&& !(choked && (outcome is Queued || outcome is DroppedNewest)) ==> n.fast_set_uses
                == m.fast_set_uses
            &&& n == (UploadModel { queue: n.queue, fast_set_uses: n.fast_set_uses, ..m })
        }),
{
}

/// The request that waits longest is the next under way, and the others wait on
/// in their order. One that was served or given up is no longer under way, and
/// nothing else changes.
pub proof fn law_requests_are_served_in_order(m: UploadModel, req: BlockRequest)
    requires
        m.wf(),
    ensures
        ({
            let n = m.dispatched();
            &&& m.queue.len() == 0 ==> n == m
            &&& m.queue.len() > 0 ==> {
                &&& n.queue.len() == m.queue.len() - 1
                &&& forall|i: int| 0 <= i < n.queue.len() ==> #[trigger] n.queue[i] == m.queue[i + 1]
                &&& n.in_flight == m.in_flight.push(m.queue[0])
            }
            &&& n == (UploadModel { queue: n.queue, in_flight: n.in_flight, ..m })
        }),
        ({
            let n = m.released(req);
            &&& !n.in_flight.contains(req)
            &&& forall|r: BlockRequest|
                r != req ==> (#[trigger] n.in_flight.contains(r) <==> m.in_flight.contains(r))
            &&& n == (UploadModel { in_flight: n.in_flight, ..m })
        }),
        ({
            let n = m.cancelled(req);
            &&& !n.in_flight.contains(req) && !n.queue.contains(req)
            &&& forall|r: BlockRequest|
                r != req ==> (#[trigger] n.in_flight.contains(r) <==> m.in_flight.contains(r))
            &&& forall|r: BlockRequest|
                r != req ==> (#[trigger] n.queue.contains(r) <==> m.queue.contains(r))
            &&& n == (UploadModel { queue: n.queue, in_flight: n.in_flight, ..m })
        }),
{
    lemma_without(m.in_flight, req);
    lemma_without(m.queue, req);
}

/// After a choke it is known since when, and of the requests those stay, where
/// they were, whose pieces the peer may have all the same; without the Fast
/// extension none does.
pub proof fn law_choke_is_noted(m: UploadModel, fast: bool, now: u64)
    ensures
        ({
            let n = m.choked(fast, now);
            &&& n.choked_at == Some(now)
            &&& n == (UploadModel {
                queue: n.queue,
                in_flight: n.in_flight,
                choked_at: n.choked_at,
                ..m
            })
            &&& forall|r: BlockRequest| #[trigger]
                n.queue.contains(r) <==> fast && m.queue.contains(r) && m.allowed_fast.contains(
                    r.piece,
                )
            &&& forall|r: BlockRequest| #[trigger]
                n.in_flight.contains(r) <==> fast && m.in_flight.contains(r)
                    && m.allowed_fast.contains(r.piece)
        }),
{
    let none = Seq::<u32>::empty();
    lemma_among(m.queue, none);
    lemma_among(m.in_flight, none);
    lemma_among(m.queue, m.allowed_fast);
    lemma_among(m.in_flight, m.allowed_fast);
}

/// As many bytes may wait to be sent as the peer takes in half a second, but not
/// fewer than 128 KiB and not more than 4 MiB.
pub proof fn law_watermark_is_half_a_second(m: UploadModel)
    requires
        m.upload_rate_bps <= u64::MAX / 500,
    ensures
        ({
            let half = m.upload_rate_bps as int / 2;
            &&& half < 131_072 ==> m.watermark() == 131_072
            &&& half > 4_194_304 ==> m.watermark() == 4_194_304
            &&& 131_072 <= half <= 4_194_304 ==> m.watermark() == half
        }),
{
    assert(m.upload_rate_bps * 500 / 1000 == m.upload_rate_bps as int / 2);
}

/// A queue starts with nothing in it: no request waits or is served, no piece may be
/// asked for while choked, and a piece has at least one block.
pub proof fn law_queue_starts_empty(blocks_per_piece: u32, cap: usize)
    ensures
        ({
            let m = empty_queue(blocks_per_piece, cap);
            &&& m.queue.len() == 0 && m.in_flight.len() == 0 && m.allowed_fast.len() == 0
            &&& m.fast_set_uses == 0 && m.choked_at is None
            &&& m.ready_bytes == 0 && m.upload_rate_bps == 0
            &&& m.cap == cap
            &&& blocks_per_piece > 0 ==> m.blocks_per_piece == blocks_per_piece
            &&& blocks_per_piece == 0 ==> m.blocks_per_piece == 1
        }),
{
}

} // verus!
