//! The coordinator: it keeps the workers and the frames in flight, splits each
//! requested frame among the idle workers, and puts the strips that come back
//! together again.
//!
//! The coordinator decides and the caller acts: every function takes the
//! current time and what has arrived, changes the state, and returns the
//! messages to send. Channels are named by numbers that the caller gives out.
use crate::assembly::{frame_fits, frame_len, lemma_painted_len, FrameState, PendingFrame};
use crate::codec::{base64_bytes, base64_text, standard_decode, standard_encode};
use crate::dispatch::{
    assign_strips, covers_row, disjoint, lemma_plan_covers_exactly, lemma_plan_from_tiles, plan,
    tiles, within_frame, workers_ascend, StripAssignment,
};
use crate::messages::{
    ClientToCoordinator, CoordinatorToClient, CoordinatorToWorker, FrameRequest, FrameResponse,
    RenderStripRequest, StatusResponse, StripResult, WorkerToCoordinator,
};
use crate::registry::{
    all_flagged, elapsed, elapsed_ms, flagged, idle, knows, lemma_kept_members,
    lemma_stale_worker_leaves, profiled, recent, registered, released, states, touched, without,
    Registry, WorkerRecord, WorkerState,
};
use crate::shares::{proportional_shares, shares_of};
use std::collections::HashMap;
use vstd::prelude::*;

verus! {

broadcast use vstd::std_specs::hash::group_hash_axioms;

/// Width of the profile render.
pub const PROFILE_WIDTH: u32 = 512;

/// Height of the profile render.
pub const PROFILE_HEIGHT: u32 = 512;

/// Seconds between two rounds of profiling.
pub const PROFILE_INTERVAL_SECS: u64 = 60;

/// A worker that was not heard of for this many milliseconds is dropped.
pub const WORKER_TIMEOUT_MS: u64 = 30_000;

/// A frame that is not finished after this many milliseconds is given up.
pub const FRAME_TIMEOUT_MS: u64 = 30_000;

/// A message to send, and the channel to send it on.
#[derive(Clone, Debug, PartialEq, Eq)]
pub struct Outgoing {
    pub outbound: u64,
    pub message: CoordinatorToWorker,
}

/// Why a frame was not rendered.
#[derive(Clone, Copy, Debug, PartialEq, Eq, Structural)]
pub enum FrameError {
    /// No worker is idle.
    NoWorkers,
    /// No worker got a strip.
    NoStrips,
    /// The strips did not all arrive in time.
    Timeout,
    /// The frame was dropped while it was waited for.
    Cancelled,
}

impl FrameError {
    /// The text of the error as clients see it.
    pub open spec fn text(self) -> Seq<char> {
        match self {
            FrameError::NoWorkers => "No workers available"@,
            FrameError::NoStrips => "Failed to assign strips"@,
            FrameError::Timeout => "Frame render timeout"@,
            FrameError::Cancelled => "Frame assembly cancelled"@,
        }
    }

    /// The text of the error as clients see it.
    pub fn message(&self) -> (message: String)
        ensures
            message@ == self.text(),
    {
        match self {
            FrameError::NoWorkers => "No workers available".to_owned(),
            FrameError::NoStrips => "Failed to assign strips".to_owned(),
            FrameError::Timeout => "Frame render timeout".to_owned(),
            FrameError::Cancelled => "Frame assembly cancelled".to_owned(),
        }
    }
}

/// What the coordinator holds, as plain values.
pub struct CoordinatorState {
    /// The connected workers.
    pub workers: Seq<WorkerState>,
    /// The frames in flight, by frame id.
    pub pending: Map<u64, FrameState>,
    /// The id that the next frame gets.
    pub next_frame_id: u64,
    /// The number of frames delivered.
    pub frames_rendered: u64,
}

impl CoordinatorState {
    /// Every frame in flight has an id that was given out, and the ids given
    /// out suffice for the frames in flight and the frames delivered.
    pub open spec fn consistent(self) -> bool {
        &&& self.pending.dom().finite()
        &&& forall|id: u64| self.pending.dom().contains(id) ==> id < self.next_frame_id
        &&& self.frames_rendered + self.pending.dom().len() <= self.next_frame_id
    }
}

/// A frame whose strips have all arrived, with its pixels put together.
#[derive(Debug)]
pub struct AssembledFrame {
    pub frame_id: u64,
    pub width: u32,
    pub height: u32,
    pub render_ms: u64,
    pub pixels: Vec<u8>,
}

/// The frame that the strip at `y_start` of frame `frame_id` completes, if it
/// does: the strip is readable, the frame is in flight, and with this strip it
/// has as many strips as were sent out.
pub open spec fn completed_by(
    s: CoordinatorState,
    frame_id: u64,
    y_start: u32,
    pixels: Option<Seq<u8>>,
) -> Option<FrameState> {
    if pixels.is_some() && s.pending.dom().contains(frame_id) && s.pending[frame_id].with_strip(
        y_start,
        pixels.unwrap(),
    ).is_complete() {
        Some(s.pending[frame_id].with_strip(y_start, pixels.unwrap()))
    } else {
        None
    }
}

/// The state after worker `worker_id` handed in the strip at `y_start` of
/// frame `frame_id` at `now`. The worker is idle again. A strip that is not
/// readable (`pixels` is `None`), or whose frame is not in flight, is dropped.
/// Otherwise the frame keeps the strip; if that completes the frame, the frame
/// leaves and counts as delivered.
pub open spec fn after_strip(
    s: CoordinatorState,
    worker_id: Seq<char>,
    frame_id: u64,
    y_start: u32,
    pixels: Option<Seq<u8>>,
    now: u64,
) -> CoordinatorState {
    let workers = released(s.workers, worker_id, now);
    if pixels.is_some() && s.pending.dom().contains(frame_id) {
        let frame = s.pending[frame_id].with_strip(y_start, pixels.unwrap());
        if frame.is_complete() {
            CoordinatorState {
                workers,
                pending: s.pending.remove(frame_id),
                frames_rendered: (s.frames_rendered + 1) as u64,
                ..s
            }
        } else {
            CoordinatorState { workers, pending: s.pending.insert(frame_id, frame), ..s }
        }
    } else {
        CoordinatorState { workers, ..s }
    }
}

/// A frame that was sent out: its id, the render request for each worker
/// that got a strip, and the ids of those workers in the same order.
#[derive(Debug)]
pub struct Dispatch {
    pub frame_id: u64,
    pub sends: Vec<Outgoing>,
    pub workers: Vec<String>,
}

/// The request to render `strip` of frame `frame_id`.
pub open spec fn render_order(
    request: FrameRequest,
    frame_id: u64,
    strip: StripAssignment,
) -> RenderStripRequest {
    RenderStripRequest {
        frame_id,
        width: request.width,
        y_start: strip.y_start,
        y_end: strip.y_end,
        total_height: request.height,
        center_x: request.center_x,
        center_y: request.center_y,
        zoom: request.zoom,
        max_iterations: request.max_iterations,
    }
}

/// The render requests for `strips`, each on the channel of the worker that
/// the strip belongs to.
pub open spec fn orders(
    workers: Seq<WorkerState>,
    strips: Seq<StripAssignment>,
    request: FrameRequest,
    frame_id: u64,
) -> Seq<Outgoing> {
    Seq::new(
        strips.len(),
        |k: int|
            Outgoing {
                outbound: workers[strips[k].worker as int].outbound,
                message: CoordinatorToWorker::RenderStrip(
                    render_order(request, frame_id, strips[k]),
                ),
            },
    )
}

/// The ids of the workers that `strips` belong to.
pub open spec fn assigned_ids(workers: Seq<WorkerState>, strips: Seq<StripAssignment>) -> Set<
    Seq<char>,
> {
    Set::new(
        |id: Seq<char>|
            exists|k: int|
                0 <= k < strips.len() && workers[(#[trigger] strips[k]).worker as int].worker_id
                    == id,
    )
}

/// The profile times behind the capabilities of `workers`.
pub open spec fn profile_times(workers: Seq<WorkerState>) -> Seq<u64> {
    Seq::new(workers.len(), |i: int| workers[i].capability.spec_profile_ms())
}

/// The strips that the rows of a frame of `height` rows are split into among
/// `workers`: each asks for its part of the rows in proportion to its
/// capability, rounded, and the last one takes the remainder.
pub open spec fn split(workers: Seq<WorkerState>, height: u32) -> Seq<StripAssignment> {
    plan(height, shares_of(height, profile_times(workers)), workers.len() as int)
}

/// The strips that a request is split into among the idle workers of `s`, or
/// the reason why it fails.
pub open spec fn request_outcome(s: CoordinatorState, request: FrameRequest) -> Result<
    Seq<StripAssignment>,
    FrameError,
> {
    let workers = idle(s.workers);
    if workers.len() == 0 {
        Err(FrameError::NoWorkers)
    } else if split(workers, request.height).len() == 0 {
        Err(FrameError::NoStrips)
    } else {
        Ok(split(workers, request.height))
    }
}

/// The state after a frame was requested at `now`. The frame id is used up
/// either way. If the request is split into strips, the frame is in flight
/// under that id with no strip arrived, and the workers that got a strip are
/// busy.
pub open spec fn after_request(
    s: CoordinatorState,
    request: FrameRequest,
    now: u64,
) -> CoordinatorState {
    match request_outcome(s, request) {
        Ok(strips) => CoordinatorState {
            workers: all_flagged(s.workers, assigned_ids(idle(s.workers), strips)),
            pending: s.pending.insert(
                s.next_frame_id,
                FrameState {
                    width: request.width,
                    height: request.height,
                    strips: Map::empty(),
                    expected_strips: strips.len() as usize,
                    start_time: now,
                },
            ),
            next_frame_id: (s.next_frame_id + 1) as u64,
            ..s
        },
        Err(_) => CoordinatorState { next_frame_id: (s.next_frame_id + 1) as u64, ..s },
    }
}

/// How the wait for a frame ended.
#[derive(Debug)]
pub enum WaitOutcome {
    /// The frame arrived.
    Delivered(FrameResponse),
    /// The frame was dropped before it arrived.
    Closed,
    /// `FRAME_TIMEOUT_MS` went by.
    TimedOut,
}

/// What the coordinator does on a message of a worker.
#[derive(Debug)]
pub struct WorkerReaction {
    /// The messages to send to workers.
    pub sends: Vec<Outgoing>,
    /// The frame that the message completed, to be handed to the client that
    /// waits for it.
    pub delivered: Option<FrameResponse>,
}

/// What the coordinator does on a message of a client.
#[derive(Debug)]
pub enum ClientReaction {
    /// Answer at once.
    Reply(CoordinatorToClient),
    /// Send the render requests, wait for the frame, and answer with what
    /// `conclude_frame` makes of the wait.
    Await(Dispatch),
}

/// The state after the wait for frame `frame_id` timed out: the frame is no
/// longer in flight.
pub open spec fn after_timeout(s: CoordinatorState, frame_id: u64) -> CoordinatorState {
    CoordinatorState { pending: s.pending.remove(frame_id), ..s }
}

/// The strips of a frame that is sent out are pairwise disjoint and their
/// union is the frame: they lie end to end from row 0 to the last row, none is
/// empty, every row lies in exactly one of them, each belongs to an idle
/// worker, and no worker has two. There are as many as the frame expects.
pub proof fn lemma_dispatch_covers_frame(
    s: CoordinatorState,
    request: FrameRequest,
    now: u64,
    strips: Seq<StripAssignment>,
)
    requires
        request_outcome(s, request) == Ok::<Seq<StripAssignment>, FrameError>(strips),
        idle(s.workers).len() <= usize::MAX,
    ensures
        request.height > 0,
        strips.len() >= 1,
        tiles(strips, 0, request.height as int),
        workers_ascend(strips, 0, idle(s.workers).len() as int),
        within_frame(strips, request.height),
        forall|row: int| 0 <= row < request.height ==> #[trigger] covers_row(strips, row),
        disjoint(strips),
        after_request(s, request, now).pending[s.next_frame_id].expected_strips == strips.len(),
{
    let workers = idle(s.workers).len() as int;
    let shares = shares_of(request.height, profile_times(idle(s.workers)));
    assert(strips == plan(request.height, shares, workers));
    lemma_plan_covers_exactly(request.height, shares, workers);
    assert(strips.len() <= workers) by {
        lemma_plan_from_tiles(request.height, shares, workers, 0, 0);
    }
}

/// Frame ids only go up. No step lowers the id that the next frame gets, a
/// request uses it up, and every render request carries the id of its frame:
/// so a render request of a frame that is requested in a later state `t`
/// carries a higher id than one of a frame requested in `s`.
pub proof fn lemma_frame_ids_increase(
    s: CoordinatorState,
    first: FrameRequest,
    first_strip: StripAssignment,
    now: u64,
    t: CoordinatorState,
    second: FrameRequest,
    second_strip: StripAssignment,
    worker_id: Seq<char>,
    frame_id: u64,
    y_start: u32,
    pixels: Option<Seq<u8>>,
)
    requires
        s.next_frame_id < u64::MAX,
        t.next_frame_id >= after_request(s, first, now).next_frame_id,
    ensures
        after_request(s, first, now).next_frame_id == s.next_frame_id + 1,
        after_strip(s, worker_id, frame_id, y_start, pixels, now).next_frame_id == s.next_frame_id,
        after_timeout(s, frame_id).next_frame_id == s.next_frame_id,
        render_order(first, s.next_frame_id, first_strip).frame_id < render_order(
            second,
            t.next_frame_id,
            second_strip,
        ).frame_id,
{
}

/// The count of delivered frames goes up by one exactly when a strip
/// completes a frame, which is when that frame is delivered; no other step
/// changes it.
pub proof fn lemma_frames_rendered_counts_deliveries(
    s: CoordinatorState,
    worker_id: Seq<char>,
    frame_id: u64,
    y_start: u32,
    pixels: Option<Seq<u8>>,
    request: FrameRequest,
    now: u64,
)
    requires
        s.consistent(),
    ensures
        after_strip(s, worker_id, frame_id, y_start, pixels, now).frames_rendered
            == s.frames_rendered + if completed_by(s, frame_id, y_start, pixels).is_some() {
            1int
        } else {
            0int
        },
        after_request(s, request, now).frames_rendered == s.frames_rendered,
        after_timeout(s, frame_id).frames_rendered == s.frames_rendered,
{
    if completed_by(s, frame_id, y_start, pixels).is_some() {
        assert(s.pending.dom().len() >= 1);
    }
}

/// The pixels of a frame that is delivered are three bytes for each pixel of
/// the frame.
pub proof fn lemma_delivered_frame_len(frame: FrameState)
    ensures
        frame.assembled().len() == frame_len(frame.width, frame.height),
{
    lemma_painted_len(frame.strips, frame.width, frame.height, 0x1_0000_0000);
}

/// The coordinator.
pub struct Coordinator {
    workers: Registry,
    pending_frames: HashMap<u64, PendingFrame>,
    next_frame_id: u64,
    frames_rendered: u64,
}

impl View for Coordinator {
    type V = CoordinatorState;

    closed spec fn view(&self) -> CoordinatorState {
        CoordinatorState {
            workers: self.workers@,
            pending: self.pending_frames@.map_values(|f: PendingFrame| f@),
            next_frame_id: self.next_frame_id,
            frames_rendered: self.frames_rendered,
        }
    }
}

impl Default for Coordinator {
    fn default() -> (coordinator: Self)
        ensures
            coordinator.wf(),
            coordinator@ == (CoordinatorState {
                workers: Seq::empty(),
                pending: Map::empty(),
                next_frame_id: 0,
                frames_rendered: 0,
            }),
    {
        Coordinator::new()
    }
}

impl Coordinator {
    /// What holds of the parts: the registry and each frame in flight are well
    /// formed, and each frame can be allocated.
    pub closed spec fn parts_wf(&self) -> bool {
        &&& self.workers.wf()
        &&& forall|id: u64| #[trigger]
            self.pending_frames@.dom().contains(id) ==> self.pending_frames@[id].wf()
                && frame_fits(self.pending_frames@[id]@.width, self.pending_frames@[id]@.height)
    }

    /// The invariant of the coordinator.
    pub open spec fn wf(&self) -> bool {
        &&& self.parts_wf()
        &&& self@.consistent()
    }

    /// A coordinator without workers or frames.
    pub fn new() -> (coordinator: Self)
        ensures
            coordinator.wf(),
            coordinator@ == (CoordinatorState {
                workers: Seq::empty(),
                pending: Map::empty(),
                next_frame_id: 0,
                frames_rendered: 0,
            }),
    {
        let coordinator = Coordinator {
            workers: Registry::new(),
            pending_frames: HashMap::new(),
            next_frame_id: 0,
            frames_rendered: 0,
        };
        assert(coordinator@.pending =~= Map::<u64, FrameState>::empty());
        coordinator
    }

    /// The id that the next frame gets.
    pub fn next_frame_id(&self) -> (id: u64)
        ensures
            id == self@.next_frame_id,
    {
        self.next_frame_id
    }

    /// The number of frames delivered.
    pub fn frames_rendered(&self) -> (n: u64)
        ensures
            n == self@.frames_rendered,
    {
        self.frames_rendered
    }

    /// The number of frames in flight.
    pub fn pending_count(&self) -> (n: usize)
        ensures
            n == self@.pending.dom().len(),
    {
        assert(self@.pending.dom() =~= self.pending_frames@.dom());
        self.pending_frames.len()
    }

    /// The workers that are not busy, in the order in which frames are split
    /// among them.
    pub fn snapshot_idle(&self) -> (snapshot: Vec<WorkerRecord>)
        ensures
            states(snapshot@) == idle(self@.workers),
    {
        self.workers.snapshot_idle()
    }

    /// The profile request for every worker, busy or not.
    pub fn run_profiling(&self) -> (sends: Vec<Outgoing>)
        ensures
            sends@.len() == self@.workers.len(),
            forall|i: int|
                0 <= i < sends@.len() ==> (#[trigger] sends@[i]) == (Outgoing {
                    outbound: self@.workers[i].outbound,
                    message: CoordinatorToWorker::RunProfile {
                        width: PROFILE_WIDTH,
                        height: PROFILE_HEIGHT,
                    },
                }),
    {
        let outbounds = self.workers.outbounds();
        let mut sends: Vec<Outgoing> = Vec::new();
        let n: usize = outbounds.len();
        let mut i: usize = 0;
        while i < n
            invariant
                n == outbounds@.len(),
                n == self@.workers.len(),
                0 <= i <= n,
                sends@.len() == i,
                outbounds@ == Seq::new(self@.workers.len(), |k: int| self@.workers[k].outbound),
                forall|k: int|
                    0 <= k < i ==> (#[trigger] sends@[k]) == (Outgoing {
                        outbound: self@.workers[k].outbound,
                        message: CoordinatorToWorker::RunProfile {
                            width: PROFILE_WIDTH,
                            height: PROFILE_HEIGHT,
                        },
                    }),
            decreases n - i,
        {
            sends.push(
                Outgoing {
                    outbound: outbounds[i],
                    message: CoordinatorToWorker::RunProfile {
                        width: PROFILE_WIDTH,
                        height: PROFILE_HEIGHT,
                    },
                },
            );
            i += 1;
        }
        sends
    }

    /// Drops the workers that were not heard of for `WORKER_TIMEOUT_MS` or
    /// longer, and says how many they were.
    pub fn cleanup_stale_workers(&mut self, now: u64) -> (removed: usize)
        requires
            old(self).wf(),
        ensures
            final(self).wf(),
            final(self)@ == (CoordinatorState {
                workers: recent(old(self)@.workers, now, WORKER_TIMEOUT_MS),
                ..old(self)@
            }),
            removed == old(self)@.workers.len() - final(self)@.workers.len(),
            forall|i: int|
                0 <= i < old(self)@.workers.len() && elapsed(
                    now,
                    (#[trigger] old(self)@.workers[i]).last_seen,
                ) >= WORKER_TIMEOUT_MS ==> !knows(
                    final(self)@.workers,
                    old(self)@.workers[i].worker_id,
                ),
    {
        proof {
            assert forall|i: int|
                0 <= i < self@.workers.len() && elapsed(
                    now,
                    (#[trigger] self@.workers[i]).last_seen,
                ) >= WORKER_TIMEOUT_MS implies !knows(
                recent(self@.workers, now, WORKER_TIMEOUT_MS),
                self@.workers[i].worker_id,
            ) by {
                lemma_stale_worker_leaves(self@.workers, now, WORKER_TIMEOUT_MS, i);
            }
        }
        self.workers.evict_stale(now, WORKER_TIMEOUT_MS)
    }

    /// The workers that are known, each with its capability and the time since
    /// it was last heard of, and the number of frames delivered.
    pub fn get_status(&self, now: u64) -> (status: StatusResponse)
        ensures
            status.frames_rendered == self@.frames_rendered,
            status.workers@.len() == self@.workers.len(),
            forall|i: int|
                0 <= i < status.workers@.len() ==> {
                    &&& (#[trigger] status.workers@[i]).worker_id@ == self@.workers[i].worker_id
                    &&& status.workers@[i].capability == self@.workers[i].capability
                    &&& status.workers@[i].last_seen_ms == elapsed(
                        now,
                        self@.workers[i].last_seen,
                    )
                },
    {
        StatusResponse {
            workers: self.workers.statuses(now),
            frames_rendered: self.frames_rendered,
        }
    }

    /// Takes in the strip at `y_start` of frame `frame_id` from worker
    /// `worker_id`, its pixels already read (`None` if they were not
    /// readable). Returns the frame if this strip completes it.
    pub fn accept_strip(
        &mut self,
        worker_id: &String,
        frame_id: u64,
        y_start: u32,
        pixels: Option<Vec<u8>>,
        now: u64,
    ) -> (done: Option<AssembledFrame>)
        requires
            old(self).wf(),
        ensures
            final(self).wf(),
            final(self)@ == after_strip(
                old(self)@,
                worker_id@,
                frame_id,
                y_start,
                match pixels {
                    Some(p) => Some(p@),
                    None => None,
                },
                now,
            ),
            match done {
                Some(frame) => {
                    let whole = completed_by(
                        old(self)@,
                        frame_id,
                        y_start,
                        match pixels {
                            Some(p) => Some(p@),
                            None => None,
                        },
                    );
                    &&& whole.is_some()
                    &&& frame.frame_id == frame_id
                    &&& frame.width == whole.unwrap().width
                    &&& frame.height == whole.unwrap().height
                    &&& frame.render_ms == elapsed(now, whole.unwrap().start_time)
                    &&& frame.pixels@ == whole.unwrap().assembled()
                    &&& frame.pixels@.len() == frame.width * frame.height * 3
                    &&& frame_fits(frame.width, frame.height)
                },
                None => completed_by(
                    old(self)@,
                    frame_id,
                    y_start,
                    match pixels {
                        Some(p) => Some(p@),
                        None => None,
                    },
                ).is_none(),
            },
    {
        self.workers.release(worker_id, now);
        let pixels = match pixels {
            Some(p) => p,
            None => {
                return None;
            },
        };
        let ghost before = self.pending_frames@;
        match self.pending_frames.remove(&frame_id) {
            None => {
                assert(self.pending_frames@ =~= before);
                None
            },
            Some(frame) => {
                let mut frame = frame;
                assert(before.dom().contains(frame_id) && before[frame_id] == frame);
                assert(old(self)@.pending[frame_id] == frame@);
                let ghost taken = self.pending_frames@;
                assert(taken == before.remove(frame_id));
                frame.insert_strip(y_start, pixels);
                if frame.is_complete() {
                    let buffer = frame.assemble();
                    let render_ms = elapsed_ms(now, frame.start_time());
                    proof {
                        assert(old(self)@.pending.dom() =~= before.dom());
                        assert(self@.pending =~= old(self)@.pending.remove(frame_id));
                        assert(old(self)@.pending.dom().len() >= 1);
                    }
                    self.frames_rendered = self.frames_rendered + 1;
                    assert(self@.pending =~= old(self)@.pending.remove(frame_id));
                    Some(
                        AssembledFrame {
                            frame_id,
                            width: frame.width(),
                            height: frame.height(),
                            render_ms,
                            pixels: buffer,
                        },
                    )
                } else {
                    let ghost kept_frame = frame;
                    self.pending_frames.insert(frame_id, frame);
                    proof {
                        assert(self.pending_frames@ =~= before.insert(frame_id, kept_frame));
                        assert(self@.pending =~= old(self)@.pending.insert(frame_id, kept_frame@));
                        assert(old(self)@.pending.dom() =~= before.dom());
                        assert(self@.pending.dom() =~= old(self)@.pending.dom());
                    }
                    None
                }
            },
        }
    }

    /// Takes in a strip result. The worker is idle again; a strip whose data
    /// is not base64, or whose frame is not in flight, is dropped. If the strip
    /// completes its frame, the frame is put together and returned, to be
    /// delivered to the client that waits for it.
    pub fn handle_strip_result(&mut self, result: StripResult, now: u64) -> (delivered: Option<
        FrameResponse,
    >)
        requires
            old(self).wf(),
        ensures
            final(self).wf(),
            final(self)@ == after_strip(
                old(self)@,
                result.worker_id@,
                result.frame_id,
                result.y_start,
                base64_bytes(result.data@),
                now,
            ),
            final(self)@.frames_rendered == old(self)@.frames_rendered + if delivered.is_some() {
                1int
            } else {
                0int
            },
            match delivered {
                Some(response) => {
                    let whole = completed_by(
                        old(self)@,
                        result.frame_id,
                        result.y_start,
                        base64_bytes(result.data@),
                    );
                    &&& whole.is_some()
                    &&& response.frame_id == result.frame_id
                    &&& response.width == whole.unwrap().width
                    &&& response.height == whole.unwrap().height
                    &&& response.render_ms == elapsed(now, whole.unwrap().start_time)
                    &&& response.data@ == base64_text(whole.unwrap().assembled())
                    &&& base64_bytes(response.data@) == Some(whole.unwrap().assembled())
                    &&& whole.unwrap().assembled().len() == response.width * response.height * 3
                },
                None => completed_by(
                    old(self)@,
                    result.frame_id,
                    result.y_start,
                    base64_bytes(result.data@),
                ).is_none(),
            },
    {
        let pixels = match standard_decode(&result.data) {
            Ok(bytes) => Some(bytes),
            Err(_) => None,
        };
        match self.accept_strip(&result.worker_id, result.frame_id, result.y_start, pixels, now) {
            Some(frame) => {
                assert(4 * ((frame.pixels@.len() + 2) / 3) <= isize::MAX) by (nonlinear_arith)
                    requires
                        frame.pixels@.len() == frame.width * frame.height * 3,
                        4 * frame.width * frame.height <= isize::MAX,
                ;
                let data = standard_encode(&frame.pixels);
                Some(
                    FrameResponse {
                        frame_id: frame.frame_id,
                        width: frame.width,
                        height: frame.height,
                        render_ms: frame.render_ms,
                        data,
                    },
                )
            },
            None => None,
        }
    }

    /// Sends a frame out: gives it the next frame id, splits its rows among
    /// the idle workers in proportion to their capabilities, notes the frame as
    /// in flight and the workers as busy, and returns the render requests to
    /// send.
    pub fn request_frame(&mut self, request: &FrameRequest, now: u64) -> (sent: Result<
        Dispatch,
        FrameError,
    >)
        requires
            old(self).wf(),
            old(self)@.next_frame_id < u64::MAX,
            frame_fits(request.width, request.height),
        ensures
            final(self).wf(),
            final(self)@ == after_request(old(self)@, *request, now),
            final(self)@.next_frame_id == old(self)@.next_frame_id + 1,
            match sent {
                Ok(dispatch) => {
                    let outcome = request_outcome(old(self)@, *request);
                    &&& outcome.is_ok()
                    &&& dispatch.frame_id == old(self)@.next_frame_id
                    &&& dispatch.sends@ == orders(
                        idle(old(self)@.workers),
                        outcome.unwrap(),
                        *request,
                        dispatch.frame_id,
                    )
                    &&& dispatch.workers@.len() == outcome.unwrap().len()
                    &&& forall|k: int|
                        0 <= k < dispatch.workers@.len() ==> (#[trigger] dispatch.workers@[k])@
                            == idle(old(self)@.workers)[outcome.unwrap()[k].worker as int].worker_id
                },
                Err(e) => request_outcome(old(self)@, *request) == Err::<
                    Seq<StripAssignment>,
                    FrameError,
                >(e),
            },
    {
        let frame_id: u64 = self.next_frame_id;
        self.next_frame_id = frame_id + 1;
        let snapshot = self.workers.snapshot_idle();
        let ghost idle_workers = idle(old(self)@.workers);
        assert(states(snapshot@).len() == snapshot@.len());
        if snapshot.len() == 0 {
            return Err(FrameError::NoWorkers);
        }
        let times = Self::profile_times_of(&snapshot);
        proof {
            lemma_kept_members(old(self)@.workers, |w: WorkerState| !w.busy);
            assert forall|i: int| 0 <= i < times@.len() implies #[trigger] times@[i] >= 1 by {
                let w = idle_workers[i];
                assert(old(self)@.workers.contains(w));
                let all = old(self)@.workers;
                let j = choose|j: int| 0 <= j < all.len() && all[j] == w;
                assert(all[j].capability.wf());
            }
        }
        let shares = proportional_shares(request.height, &times);
        let strips = assign_strips(request.height, &shares, snapshot.len());
        if strips.len() == 0 {
            return Err(FrameError::NoStrips);
        }
        proof {
            lemma_plan_covers_exactly(request.height, shares@, snapshot.len() as int);
            assert(old(self)@.pending.dom() =~= self.pending_frames@.dom());
            assert(!self.pending_frames@.dom().contains(frame_id));
        }
        let ghost before = self.pending_frames@;
        let frame = PendingFrame::new(request.width, request.height, strips.len(), now);
        self.pending_frames.insert(frame_id, frame);
        proof {
            assert(self.pending_frames@ =~= before.insert(frame_id, frame));
            assert(self@.pending =~= old(self)@.pending.insert(frame_id, frame@));
        }
        let mut sends: Vec<Outgoing> = Vec::new();
        let mut workers: Vec<String> = Vec::new();
        let n: usize = strips.len();
        let mut k: usize = 0;
        assert(self.workers@ =~= all_flagged(
            old(self)@.workers,
            assigned_ids(idle_workers, strips@.take(0)),
        ));
        while k < n
            invariant
                n == strips@.len(),
                0 <= k <= n,
                self.workers.wf(),
                states(snapshot@) == idle_workers,
                forall|j: int| 0 <= j < n ==> (#[trigger] strips@[j]).worker < snapshot@.len(),
                self.workers@ == all_flagged(
                    old(self)@.workers,
                    assigned_ids(idle_workers, strips@.take(k as int)),
                ),
                sends@.len() == k,
                workers@.len() == k,
                forall|j: int|
                    0 <= j < k ==> (#[trigger] workers@[j])@ == idle_workers[strips@[j].worker as int]
                        .worker_id,
                forall|j: int|
                    0 <= j < k ==> (#[trigger] sends@[j]) == orders(
                        idle_workers,
                        strips@,
                        *request,
                        frame_id,
                    )[j],
                self@.pending == old(self)@.pending.insert(frame_id, frame@),
                self.parts_wf(),
                self.next_frame_id == frame_id + 1,
                self.frames_rendered == old(self).frames_rendered,
            decreases n - k,
        {
            let strip = strips[k];
            let worker = &snapshot[strip.worker];
            assert(worker@ == idle_workers[strip.worker as int]);
            let ghost earlier = self.workers@;
            self.workers.mark_busy(&worker.worker_id, true);
            workers.push(worker.worker_id.clone());
            proof {
                let some = assigned_ids(idle_workers, strips@.take(k as int));
                let more = assigned_ids(idle_workers, strips@.take(k + 1));
                assert forall|id: Seq<char>| more.contains(id) <==> (some.contains(id) || id
                    == worker@.worker_id) by {
                    if more.contains(id) {
                        let j = choose|j: int|
                            0 <= j < strips@.take(k + 1).len() && idle_workers[(
                            #[trigger] strips@.take(k + 1)[j]).worker as int].worker_id == id;
                        if j < k {
                            assert(strips@.take(k as int)[j] == strips@.take(k + 1)[j]);
                        }
                    }
                    if some.contains(id) {
                        let j = choose|j: int|
                            0 <= j < strips@.take(k as int).len() && idle_workers[(
                            #[trigger] strips@.take(k as int)[j]).worker as int].worker_id == id;
                        assert(strips@.take(k + 1)[j] == strips@.take(k as int)[j]);
                    }
                    if id == worker@.worker_id {
                        assert(strips@.take(k + 1)[k as int] == strip);
                    }
                }
                assert(self.workers@ =~= all_flagged(old(self)@.workers, more));
            }
            sends.push(
                Outgoing {
                    outbound: worker.outbound,
                    message: CoordinatorToWorker::RenderStrip(
                        RenderStripRequest {
                            frame_id,
                            width: request.width,
                            y_start: strip.y_start,
                            y_end: strip.y_end,
                            total_height: request.height,
                            center_x: request.center_x,
                            center_y: request.center_y,
                            zoom: request.zoom,
                            max_iterations: request.max_iterations,
                        },
                    ),
                },
            );
            k += 1;
        }
        proof {
            assert(strips@.take(n as int) =~= strips@);
            assert(sends@ =~= orders(idle_workers, strips@, *request, frame_id));
        }
        Ok(Dispatch { frame_id, sends, workers })
    }

    /// The profile times behind the capabilities of `workers`.
    fn profile_times_of(workers: &Vec<WorkerRecord>) -> (times: Vec<u64>)
        ensures
            times@ == profile_times(states(workers@)),
    {
        let mut times: Vec<u64> = Vec::new();
        let n: usize = workers.len();
        let mut i: usize = 0;
        while i < n
            invariant
                n == workers@.len(),
                0 <= i <= n,
                times@.len() == i,
                forall|k: int|
                    0 <= k < i ==> #[trigger] times@[k] == workers@[k].capability.spec_profile_ms(),
            decreases n - i,
        {
            times.push(workers[i].capability.profile_ms());
            i += 1;
        }
        assert(times@ =~= profile_times(states(workers@)));
        times
    }

    /// Ends the wait for frame `frame_id`. A frame that arrived is the
    /// result. A wait that timed out takes the frame out of flight, so that
    /// strips that come later are dropped.
    pub fn conclude_frame(&mut self, frame_id: u64, outcome: WaitOutcome) -> (result: Result<
        FrameResponse,
        FrameError,
    >)
        requires
            old(self).wf(),
        ensures
            final(self).wf(),
            match outcome {
                WaitOutcome::Delivered(response) => result == Ok::<FrameResponse, FrameError>(
                    response,
                ) && final(self)@ == old(self)@,
                WaitOutcome::Closed => result == Err::<FrameResponse, FrameError>(
                    FrameError::Cancelled,
                ) && final(self)@ == old(self)@,
                WaitOutcome::TimedOut => result == Err::<FrameResponse, FrameError>(
                    FrameError::Timeout,
                ) && final(self)@ == after_timeout(old(self)@, frame_id),
            },
    {
        match outcome {
            WaitOutcome::Delivered(response) => Ok(response),
            WaitOutcome::Closed => Err(FrameError::Cancelled),
            WaitOutcome::TimedOut => {
                let ghost before = self.pending_frames@;
                self.pending_frames.remove(&frame_id);
                proof {
                    assert(self.pending_frames@ == before.remove(frame_id));
                    assert(self@.pending =~= old(self)@.pending.remove(frame_id));
                    assert(old(self)@.pending.dom() =~= before.dom());
                    assert(self@.pending.dom() =~= old(self)@.pending.dom().remove(frame_id));
                }
                Err(FrameError::Timeout)
            },
        }
    }

    /// The answer to a client whose frame request ended as `result` says.
    pub fn frame_reply(result: Result<FrameResponse, FrameError>) -> (reply: CoordinatorToClient)
        ensures
            match result {
                Ok(response) => reply == CoordinatorToClient::Frame(response),
                Err(e) => reply matches CoordinatorToClient::Error { message } && message@
                    == e.text(),
            },
    {
        match result {
            Ok(response) => CoordinatorToClient::Frame(response),
            Err(e) => CoordinatorToClient::Error { message: e.message() },
        }
    }

    /// Reacts to a message of a client. A status request is answered at once.
    /// A frame request is sent out as `request_frame` says; if that fails the
    /// error is the answer.
    pub fn handle_client_message(&mut self, message: ClientToCoordinator, now: u64) -> (reaction:
        ClientReaction)
        requires
            old(self).wf(),
            message matches ClientToCoordinator::RequestFrame(request) ==> old(
                self,
            )@.next_frame_id < u64::MAX && frame_fits(request.width, request.height),
        ensures
            final(self).wf(),
            match message {
                ClientToCoordinator::GetStatus => {
                    &&& final(self)@ == old(self)@
                    &&& reaction matches ClientReaction::Reply(CoordinatorToClient::Status(status))
                    &&& status.frames_rendered == old(self)@.frames_rendered
                    &&& status.workers@.len() == old(self)@.workers.len()
                    &&& forall|i: int|
                        0 <= i < status.workers@.len() ==> {
                            &&& (#[trigger] status.workers@[i]).worker_id@ == old(
                                self,
                            )@.workers[i].worker_id
                            &&& status.workers@[i].capability == old(self)@.workers[i].capability
                            &&& status.workers@[i].last_seen_ms == elapsed(
                                now,
                                old(self)@.workers[i].last_seen,
                            )
                        }
                },
                ClientToCoordinator::RequestFrame(request) => {
                    &&& final(self)@ == after_request(old(self)@, request, now)
                    &&& match request_outcome(old(self)@, request) {
                        Ok(strips) => {
                            &&& reaction matches ClientReaction::Await(dispatch)
                            &&& dispatch.frame_id == old(self)@.next_frame_id
                            &&& dispatch.sends@ == orders(
                                idle(old(self)@.workers),
                                strips,
                                request,
                                dispatch.frame_id,
                            )
                            &&& dispatch.workers@.len() == strips.len()
                            &&& forall|k: int|
                                0 <= k < dispatch.workers@.len() ==> (
                                #[trigger] dispatch.workers@[k])@ == idle(
                                    old(self)@.workers,
                                )[strips[k].worker as int].worker_id
                        },
                        Err(e) => {
                            &&& reaction matches ClientReaction::Reply(
                                CoordinatorToClient::Error { message },
                            )
                            &&& message@ == e.text()
                        },
                    }
                },
            },
    {
        match message {
            ClientToCoordinator::GetStatus => ClientReaction::Reply(
                CoordinatorToClient::Status(self.get_status(now)),
            ),
            ClientToCoordinator::RequestFrame(request) => {
                match self.request_frame(&request, now) {
                    Ok(dispatch) => ClientReaction::Await(dispatch),
                    Err(e) => ClientReaction::Reply(Self::frame_reply(Err(e))),
                }
            },
        }
    }

    /// Reacts to a message of a worker that arrived at `now` on the
    /// connection whose channel is `outbound`.
    ///
    /// A worker that registers is entered, acknowledged, and asked for a
    /// profile at once. A heartbeat notes that the worker is there. A profile
    /// result sets its capability. A strip result is taken in as
    /// `handle_strip_result` says.
    pub fn handle_worker_message(
        &mut self,
        outbound: u64,
        message: WorkerToCoordinator,
        now: u64,
    ) -> (reaction: WorkerReaction)
        requires
            old(self).wf(),
        ensures
            final(self).wf(),
            match message {
                WorkerToCoordinator::Register { worker_id } => {
                    &&& final(self)@ == (CoordinatorState {
                        workers: registered(old(self)@.workers, worker_id@, outbound, now),
                        ..old(self)@
                    })
                    &&& reaction.delivered.is_none()
                    &&& reaction.sends@.len() == 2
                    &&& reaction.sends@[0].outbound == outbound
                    &&& reaction.sends@[0].message matches CoordinatorToWorker::Registered {
                        worker_id: id,
                    }
                    &&& id@ == worker_id@
                    &&& reaction.sends@[1] == (Outgoing {
                        outbound,
                        message: CoordinatorToWorker::RunProfile {
                            width: PROFILE_WIDTH,
                            height: PROFILE_HEIGHT,
                        },
                    })
                },
                WorkerToCoordinator::Heartbeat { worker_id } => {
                    &&& final(self)@ == (CoordinatorState {
                        workers: touched(old(self)@.workers, worker_id@, now),
                        ..old(self)@
                    })
                    &&& reaction.delivered.is_none()
                    &&& reaction.sends@.len() == 0
                },
                WorkerToCoordinator::ProfileResult { worker_id, compute_ms } => {
                    &&& final(self)@ == (CoordinatorState {
                        workers: profiled(old(self)@.workers, worker_id@, compute_ms, now),
                        ..old(self)@
                    })
                    &&& reaction.delivered.is_none()
                    &&& reaction.sends@.len() == 0
                },
                WorkerToCoordinator::StripResult(result) => {
                    &&& final(self)@ == after_strip(
                        old(self)@,
                        result.worker_id@,
                        result.frame_id,
                        result.y_start,
                        base64_bytes(result.data@),
                        now,
                    )
                    &&& reaction.sends@.len() == 0
                    &&& match reaction.delivered {
                        Some(response) => {
                            let whole = completed_by(
                                old(self)@,
                                result.frame_id,
                                result.y_start,
                                base64_bytes(result.data@),
                            );
                            &&& whole.is_some()
                            &&& response.frame_id == result.frame_id
                            &&& response.width == whole.unwrap().width
                            &&& response.height == whole.unwrap().height
                            &&& response.render_ms == elapsed(now, whole.unwrap().start_time)
                            &&& response.data@ == base64_text(whole.unwrap().assembled())
                            &&& base64_bytes(response.data@) == Some(whole.unwrap().assembled())
                        },
                        None => completed_by(
                            old(self)@,
                            result.frame_id,
                            result.y_start,
                            base64_bytes(result.data@),
                        ).is_none(),
                    }
                },
            },
    {
        match message {
            WorkerToCoordinator::Register { worker_id } => {
                let id = worker_id.clone();
                self.workers.register(worker_id, outbound, now);
                let mut sends: Vec<Outgoing> = Vec::new();
                sends.push(
                    Outgoing {
                        outbound,
                        message: CoordinatorToWorker::Registered { worker_id: id },
                    },
                );
                sends.push(
                    Outgoing {
                        outbound,
                        message: CoordinatorToWorker::RunProfile {
                            width: PROFILE_WIDTH,
                            height: PROFILE_HEIGHT,
                        },
                    },
                );
                WorkerReaction { sends, delivered: None }
            },
            WorkerToCoordinator::Heartbeat { worker_id } => {
                self.workers.touch(&worker_id, now);
                WorkerReaction { sends: Vec::new(), delivered: None }
            },
            WorkerToCoordinator::ProfileResult { worker_id, compute_ms } => {
                self.workers.set_capability(&worker_id, compute_ms, now);
                WorkerReaction { sends: Vec::new(), delivered: None }
            },
            WorkerToCoordinator::StripResult(result) => {
                let delivered = self.handle_strip_result(result, now);
                WorkerReaction { sends: Vec::new(), delivered }
            },
        }
    }

    /// Notes that the render request for worker `worker_id` could not be
    /// sent: the worker does not count as busy for it.
    pub fn handle_send_failure(&mut self, worker_id: &String)
        requires
            old(self).wf(),
        ensures
            final(self).wf(),
            final(self)@ == (CoordinatorState {
                workers: flagged(old(self)@.workers, worker_id@, false),
                ..old(self)@
            }),
    {
        self.workers.mark_busy(worker_id, false);
    }

    /// Forgets worker `worker_id`, whose connection has ended.
    pub fn handle_worker_disconnect(&mut self, worker_id: &String)
        requires
            old(self).wf(),
        ensures
            final(self).wf(),
            final(self)@ == (CoordinatorState {
                workers: without(old(self)@.workers, worker_id@),
                ..old(self)@
            }),
            !knows(final(self)@.workers, worker_id@),
    {
        self.workers.remove(worker_id);
    }
}

} // verus!
