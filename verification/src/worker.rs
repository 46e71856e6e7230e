//! The worker: what it answers to each message of the coordinator.
//!
//! Rendering itself is done by the caller; the worker says what to render and
//! wraps the result.
use crate::codec::{base64_bytes, base64_text, encodable, standard_encode};
use crate::colour::Palette;
use crate::messages::{
    CoordinatorToWorker, RenderStripRequest, Scalar, StripResult, WorkerToCoordinator,
};
use vstd::prelude::*;

verus! {

/// Seconds between two heartbeats.
pub const HEARTBEAT_INTERVAL_SECS: u64 = 10;

/// Seconds to wait before connecting again.
pub const RECONNECT_DELAY_SECS: u64 = 5;

/// Number of colours in the palette of a worker.
pub const PALETTE_SIZE: usize = 2048;

/// Iterations of the profile render.
pub const PROFILE_ITERATIONS: u32 = 256;

/// The number -0.5 as the bit pattern of its double.
pub const MINUS_HALF_BITS: u64 = 0xBFE0_0000_0000_0000;

/// The number 0 as the bit pattern of its double.
pub const ZERO_BITS: u64 = 0;

/// The number 1 as the bit pattern of its double.
pub const ONE_BITS: u64 = 0x3FF0_0000_0000_0000;

/// Length of a worker id: a UUID in its hyphenated form.
pub const WORKER_ID_LEN: usize = 36;

/// A worker.
#[derive(Debug)]
pub struct Worker {
    pub worker_id: String,
    pub coordinator_url: String,
    pub palette: Vec<(u8, u8, u8)>,
}

/// What a worker does on a message of the coordinator.
#[derive(Clone, Copy, Debug, PartialEq, Eq, Structural)]
pub enum WorkerTask {
    /// Nothing.
    Nothing,
    /// Render this view, and report the time it took with `profile_reply`.
    Profile(RenderStripRequest),
    /// Render this strip, and hand it in with `strip_reply`.
    Strip(RenderStripRequest),
}

/// Where a worker stands with its connection to the coordinator.
#[derive(Clone, Copy, Debug, PartialEq, Eq, Structural)]
pub enum WorkerPhase {
    /// Not connected; it waits before it tries again.
    Disconnected,
    /// It is connecting.
    Connecting,
    /// It is connected and makes itself known.
    Registering,
    /// It waits for a message of the coordinator.
    Ready,
    /// It renders this view for a profile.
    Profiling(RenderStripRequest),
    /// It renders this strip.
    Rendering(RenderStripRequest),
}

/// What happened to a worker.
#[derive(Debug)]
pub enum WorkerEvent {
    /// The wait is over.
    DelayElapsed,
    /// The connection stands.
    Connected,
    /// The message was sent.
    Sent,
    /// A message of the coordinator arrived.
    Message(CoordinatorToWorker),
    /// The profile render is done and took `compute_ms`.
    ProfileDone { compute_ms: u64 },
    /// The strip is rendered: these are its bytes, and it took `compute_ms`.
    StripDone { pixels: Vec<u8>, compute_ms: u64 },
    /// Connecting, sending or receiving failed, or the connection was closed.
    Failed,
}

/// What a worker does next.
#[derive(Debug)]
pub enum WorkerAction {
    /// Wait this many seconds.
    Wait { seconds: u64 },
    /// Connect to the coordinator.
    Connect,
    /// Send this message.
    Send(WorkerToCoordinator),
    /// Render this.
    Render(RenderStripRequest),
    /// Wait for the next message of the coordinator.
    Receive,
}

/// The phase that follows `phase` on `event`. The worker connects, registers,
/// and then serves one message at a time; a failure, or an event that does not
/// belong to the phase, ends the connection.
pub open spec fn next_phase(phase: WorkerPhase, event: WorkerEvent) -> WorkerPhase {
    match (phase, event) {
        (WorkerPhase::Disconnected, WorkerEvent::DelayElapsed) => WorkerPhase::Connecting,
        (WorkerPhase::Connecting, WorkerEvent::Connected) => WorkerPhase::Registering,
        (WorkerPhase::Registering, WorkerEvent::Sent) => WorkerPhase::Ready,
        (WorkerPhase::Ready, WorkerEvent::Sent) => WorkerPhase::Ready,
        (WorkerPhase::Ready, WorkerEvent::Message(message)) => match task_for(message) {
            WorkerTask::Nothing => WorkerPhase::Ready,
            WorkerTask::Profile(view) => WorkerPhase::Profiling(view),
            WorkerTask::Strip(request) => WorkerPhase::Rendering(request),
        },
        (WorkerPhase::Profiling(_), WorkerEvent::ProfileDone { .. }) => WorkerPhase::Ready,
        (WorkerPhase::Rendering(_), WorkerEvent::StripDone { .. }) => WorkerPhase::Ready,
        _ => WorkerPhase::Disconnected,
    }
}

/// `Uuid::new_v4` of the `uuid` crate, written out by its `Display`.
///
/// Trusted: the text is the hyphenated form, which has 36 characters. Which
/// UUID it is depends on the random numbers of the machine, and the call fails
/// if the machine has none to give.
#[verifier::external_body]
fn fresh_worker_id() -> (id: String)
    ensures
        id@.len() == WORKER_ID_LEN,
{
    uuid::Uuid::new_v4().to_string()
}

/// The view that is rendered for a profile: the whole set at a glance, centre
/// (-0.5, 0), zoom 1, 256 iterations, as one strip of `height` rows.
pub open spec fn profile_view(width: u32, height: u32) -> RenderStripRequest {
    RenderStripRequest {
        frame_id: 0,
        width,
        y_start: 0,
        y_end: height,
        total_height: height,
        center_x: Scalar { bits: MINUS_HALF_BITS },
        center_y: Scalar { bits: ZERO_BITS },
        zoom: Scalar { bits: ONE_BITS },
        max_iterations: PROFILE_ITERATIONS,
    }
}

/// What a worker does on `message`.
pub open spec fn task_for(message: CoordinatorToWorker) -> WorkerTask {
    match message {
        CoordinatorToWorker::Registered { worker_id } => WorkerTask::Nothing,
        CoordinatorToWorker::RunProfile { width, height } => WorkerTask::Profile(
            profile_view(width, height),
        ),
        CoordinatorToWorker::RenderStrip(request) => WorkerTask::Strip(request),
    }
}

impl Worker {
    /// A worker for the coordinator at `coordinator_url`, with a fresh id and
    /// the default palette.
    pub fn new(coordinator_url: String) -> (worker: Self)
        ensures
            worker.coordinator_url == coordinator_url,
            worker.worker_id@.len() == WORKER_ID_LEN,
            worker.palette@ == Palette::Fire.table(PALETTE_SIZE as nat),
    {
        let palette = Palette::default().generate(PALETTE_SIZE);
        Worker { worker_id: fresh_worker_id(), coordinator_url, palette }
    }

    /// The message with which the worker makes itself known.
    pub fn register_message(&self) -> (message: WorkerToCoordinator)
        ensures
            message matches WorkerToCoordinator::Register { worker_id } && worker_id@
                == self.worker_id@,
    {
        WorkerToCoordinator::Register { worker_id: self.worker_id.clone() }
    }

    /// The message that says the worker is still there.
    pub fn heartbeat_message(&self) -> (message: WorkerToCoordinator)
        ensures
            message matches WorkerToCoordinator::Heartbeat { worker_id } && worker_id@
                == self.worker_id@,
    {
        WorkerToCoordinator::Heartbeat { worker_id: self.worker_id.clone() }
    }

    /// What to do on a message of the coordinator.
    pub fn handle_message(&self, message: &CoordinatorToWorker) -> (task: WorkerTask)
        ensures
            task == task_for(*message),
    {
        match message {
            CoordinatorToWorker::Registered { worker_id } => WorkerTask::Nothing,
            CoordinatorToWorker::RunProfile { width, height } => WorkerTask::Profile(
                RenderStripRequest {
                    frame_id: 0,
                    width: *width,
                    y_start: 0,
                    y_end: *height,
                    total_height: *height,
                    center_x: Scalar { bits: MINUS_HALF_BITS },
                    center_y: Scalar { bits: ZERO_BITS },
                    zoom: Scalar { bits: ONE_BITS },
                    max_iterations: PROFILE_ITERATIONS,
                },
            ),
            CoordinatorToWorker::RenderStrip(request) => WorkerTask::Strip(*request),
        }
    }

    /// The report of a profile render that took `compute_ms`.
    pub fn profile_reply(&self, compute_ms: u64) -> (message: WorkerToCoordinator)
        ensures
            message matches WorkerToCoordinator::ProfileResult { worker_id, compute_ms: ms }
                && worker_id@ == self.worker_id@ && ms == compute_ms,
    {
        WorkerToCoordinator::ProfileResult { worker_id: self.worker_id.clone(), compute_ms }
    }

    /// The result of the strip that `request` asked for: `pixels` are its
    /// rendered bytes and `compute_ms` the time it took. The data of the
    /// result is the base64 text of the pixels, which reads back as the pixels.
    pub fn strip_reply(
        &self,
        request: &RenderStripRequest,
        pixels: &Vec<u8>,
        compute_ms: u64,
    ) -> (result: StripResult)
        requires
            encodable(pixels@.len()),
        ensures
            result.worker_id@ == self.worker_id@,
            result.frame_id == request.frame_id,
            result.y_start == request.y_start,
            result.y_end == request.y_end,
            result.compute_ms == compute_ms,
            result.data@ == base64_text(pixels@),
            base64_bytes(result.data@) == Some(pixels@),
    {
        StripResult {
            worker_id: self.worker_id.clone(),
            frame_id: request.frame_id,
            y_start: request.y_start,
            y_end: request.y_end,
            compute_ms,
            data: standard_encode(pixels),
        }
    }

    /// The phase and the first action of a worker that starts: it connects.
    pub fn start(&self) -> (first: (WorkerPhase, WorkerAction))
        ensures
            first.0 == WorkerPhase::Connecting,
            first.1 is Connect,
    {
        (WorkerPhase::Connecting, WorkerAction::Connect)
    }

    /// The phase that follows `phase` on `event`, and what to do on entering
    /// it. A disconnected worker waits `RECONNECT_DELAY_SECS` and connects
    /// again; a connected one registers; a registered one waits for messages,
    /// renders what it is asked for, and sends the result.
    pub fn advance(&self, phase: WorkerPhase, event: WorkerEvent) -> (next: (
        WorkerPhase,
        WorkerAction,
    ))
        requires
            event matches WorkerEvent::StripDone { pixels, .. } ==> encodable(pixels@.len()),
        ensures
            next.0 == next_phase(phase, event),
            match next.0 {
                WorkerPhase::Disconnected => next.1 matches WorkerAction::Wait { seconds }
                    && seconds == RECONNECT_DELAY_SECS,
                WorkerPhase::Connecting => next.1 is Connect,
                WorkerPhase::Registering => next.1 matches WorkerAction::Send(
                    WorkerToCoordinator::Register { worker_id },
                ) && worker_id@ == self.worker_id@,
                WorkerPhase::Profiling(view) => next.1 matches WorkerAction::Render(job) && job
                    == view,
                WorkerPhase::Rendering(request) => next.1 matches WorkerAction::Render(job) && job
                    == request,
                WorkerPhase::Ready => match (phase, event) {
                    (WorkerPhase::Profiling(_), WorkerEvent::ProfileDone { compute_ms }) => {
                        &&& next.1 matches WorkerAction::Send(
                            WorkerToCoordinator::ProfileResult { worker_id, compute_ms: ms },
                        )
                        &&& worker_id@ == self.worker_id@
                        &&& ms == compute_ms
                    },
                    (
                        WorkerPhase::Rendering(request),
                        WorkerEvent::StripDone { pixels, compute_ms },
                    ) => {
                        &&& next.1 matches WorkerAction::Send(
                            WorkerToCoordinator::StripResult(result),
                        )
                        &&& result.worker_id@ == self.worker_id@
                        &&& result.frame_id == request.frame_id
                        &&& result.y_start == request.y_start
                        &&& result.y_end == request.y_end
                        &&& result.compute_ms == compute_ms
                        &&& result.data@ == base64_text(pixels@)
                        &&& base64_bytes(result.data@) == Some(pixels@)
                    },
                    _ => next.1 is Receive,
                },
            },
    {
        match (phase, event) {
            (WorkerPhase::Disconnected, WorkerEvent::DelayElapsed) => (
                WorkerPhase::Connecting,
                WorkerAction::Connect,
            ),
            (WorkerPhase::Connecting, WorkerEvent::Connected) => (
                WorkerPhase::Registering,
                WorkerAction::Send(self.register_message()),
            ),
            (WorkerPhase::Registering, WorkerEvent::Sent) => (
                WorkerPhase::Ready,
                WorkerAction::Receive,
            ),
            (WorkerPhase::Ready, WorkerEvent::Sent) => (WorkerPhase::Ready, WorkerAction::Receive),
            (WorkerPhase::Ready, WorkerEvent::Message(message)) => {
                match self.handle_message(&message) {
                    WorkerTask::Nothing => (WorkerPhase::Ready, WorkerAction::Receive),
                    WorkerTask::Profile(view) => (
                        WorkerPhase::Profiling(view),
                        WorkerAction::Render(view),
                    ),
                    WorkerTask::Strip(request) => (
                        WorkerPhase::Rendering(request),
                        WorkerAction::Render(request),
                    ),
                }
            },
            (WorkerPhase::Profiling(_), WorkerEvent::ProfileDone { compute_ms }) => (
                WorkerPhase::Ready,
                WorkerAction::Send(self.profile_reply(compute_ms)),
            ),
            (WorkerPhase::Rendering(request), WorkerEvent::StripDone { pixels, compute_ms }) => (
                WorkerPhase::Ready,
                WorkerAction::Send(
                    WorkerToCoordinator::StripResult(
                        self.strip_reply(&request, &pixels, compute_ms),
                    ),
                ),
            ),
            _ => (WorkerPhase::Disconnected, WorkerAction::Wait { seconds: RECONNECT_DELAY_SECS }),
        }
    }
}

} // verus!
