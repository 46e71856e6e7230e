//! The messages that travel between clients, the coordinator and workers.
use crate::registry::Capability;
use vstd::prelude::*;

verus! {

/// A real number of a view (a coordinate, a zoom factor), carried as the bit
/// pattern of its IEEE-754 double. The coordinator hands these on and never
/// computes with them.
#[derive(Clone, Copy, Debug, PartialEq, Eq, Structural)]
pub struct Scalar {
    pub bits: u64,
}

/// Messages from a worker to the coordinator.
#[derive(Clone, Debug, PartialEq, Eq)]
pub enum WorkerToCoordinator {
    /// The worker makes itself known.
    Register { worker_id: String },
    /// The worker is still there.
    Heartbeat { worker_id: String },
    /// The time a profile render took.
    ProfileResult { worker_id: String, compute_ms: u64 },
    /// A rendered strip.
    StripResult(StripResult),
}

/// A rendered strip: rows `[y_start, y_end)` of frame `frame_id`, the pixels
/// as base64 text of packed RGB bytes.
#[derive(Clone, Debug, PartialEq, Eq)]
pub struct StripResult {
    pub worker_id: String,
    pub frame_id: u64,
    pub y_start: u32,
    pub y_end: u32,
    pub compute_ms: u64,
    pub data: String,
}

/// Messages from the coordinator to a worker.
#[derive(Clone, Debug, PartialEq, Eq)]
pub enum CoordinatorToWorker {
    /// The registration is accepted.
    Registered { worker_id: String },
    /// Render the profile view at this size and report the time.
    RunProfile { width: u32, height: u32 },
    /// Render a strip.
    RenderStrip(RenderStripRequest),
}

/// The strip `[y_start, y_end)` of a frame of `total_height` rows, and the
/// view to render.
#[derive(Clone, Copy, Debug, PartialEq, Eq, Structural)]
pub struct RenderStripRequest {
    pub frame_id: u64,
    pub width: u32,
    pub y_start: u32,
    pub y_end: u32,
    pub total_height: u32,
    pub center_x: Scalar,
    pub center_y: Scalar,
    pub zoom: Scalar,
    pub max_iterations: u32,
}

/// Messages from a client to the coordinator.
#[derive(Clone, Copy, Debug, PartialEq, Eq, Structural)]
pub enum ClientToCoordinator {
    /// Render this frame.
    RequestFrame(FrameRequest),
    /// Report the workers and the frame count.
    GetStatus,
}

/// A frame to render: its size in pixels and its view.
#[derive(Clone, Copy, Debug, PartialEq, Eq, Structural)]
pub struct FrameRequest {
    pub width: u32,
    pub height: u32,
    pub center_x: Scalar,
    pub center_y: Scalar,
    pub zoom: Scalar,
    pub max_iterations: u32,
}

/// Messages from the coordinator to a client.
#[derive(Clone, Debug, PartialEq, Eq)]
pub enum CoordinatorToClient {
    /// A finished frame.
    Frame(FrameResponse),
    /// The state of the coordinator.
    Status(StatusResponse),
    /// The request failed.
    Error { message: String },
}

/// A finished frame, the pixels as base64 text of packed RGB rows, top row
/// first.
#[derive(Clone, Debug, PartialEq, Eq)]
pub struct FrameResponse {
    pub frame_id: u64,
    pub width: u32,
    pub height: u32,
    pub render_ms: u64,
    pub data: String,
}

/// The workers that are known, and the number of frames delivered.
#[derive(Clone, Debug, PartialEq, Eq)]
pub struct StatusResponse {
    pub workers: Vec<WorkerStatus>,
    pub frames_rendered: u64,
}

/// One worker in a status report; `last_seen_ms` is the time since it was
/// last heard of.
#[derive(Clone, Debug, PartialEq, Eq)]
pub struct WorkerStatus {
    pub worker_id: String,
    pub capability: Capability,
    pub last_seen_ms: u64,
}

} // verus!
