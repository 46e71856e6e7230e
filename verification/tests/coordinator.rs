use base64::Engine;
use fractal_zoomer::coordinator::{
    ClientReaction, Coordinator, Dispatch, FrameError, Outgoing, WaitOutcome, FRAME_TIMEOUT_MS,
    PROFILE_HEIGHT, PROFILE_WIDTH, WORKER_TIMEOUT_MS,
};
use fractal_zoomer::messages::{
    ClientToCoordinator, CoordinatorToClient, CoordinatorToWorker, FrameRequest, FrameResponse,
    RenderStripRequest, Scalar, StripResult, WorkerToCoordinator,
};
use fractal_zoomer::registry::WorkerRecord;

fn scalar(x: f64) -> Scalar {
    Scalar { bits: x.to_bits() }
}

fn request(width: u32, height: u32) -> FrameRequest {
    FrameRequest {
        width,
        height,
        center_x: scalar(-0.5),
        center_y: scalar(0.0),
        zoom: scalar(1.0),
        max_iterations: 64,
    }
}

fn capability(record: &WorkerRecord) -> f64 {
    1000.0 / record.capability.profile_ms() as f64
}

fn register(coordinator: &mut Coordinator, id: &str, outbound: u64, now: u64) {
    let reaction = coordinator.handle_worker_message(
        outbound,
        WorkerToCoordinator::Register { worker_id: id.to_string() },
        now,
    );
    assert_eq!(reaction.sends.len(), 2);
    assert!(reaction.delivered.is_none());
}

fn profile(coordinator: &mut Coordinator, id: &str, compute_ms: u64, now: u64) {
    let reaction = coordinator.handle_worker_message(
        0,
        WorkerToCoordinator::ProfileResult { worker_id: id.to_string(), compute_ms },
        now,
    );
    assert!(reaction.sends.is_empty());
    assert!(reaction.delivered.is_none());
}

fn dispatch(coordinator: &mut Coordinator, req: &FrameRequest, now: u64) -> Result<Dispatch, FrameError> {
    coordinator.request_frame(req, now)
}

fn strip_of(send: &Outgoing) -> RenderStripRequest {
    match &send.message {
        CoordinatorToWorker::RenderStrip(r) => *r,
        other => panic!("not a render request: {:?}", other),
    }
}

fn strip_result(id: &str, order: &RenderStripRequest, fill: u8) -> StripResult {
    let rows = (order.y_end - order.y_start) as usize;
    let pixels = vec![fill; rows * order.width as usize * 3];
    StripResult {
        worker_id: id.to_string(),
        frame_id: order.frame_id,
        y_start: order.y_start,
        y_end: order.y_end,
        compute_ms: 7,
        data: base64::engine::general_purpose::STANDARD.encode(&pixels),
    }
}

fn decode(response: &FrameResponse) -> Vec<u8> {
    base64::engine::general_purpose::STANDARD.decode(&response.data).unwrap()
}

#[test]
fn new_coordinator_is_empty() {
    let coordinator = Coordinator::new();
    assert_eq!(coordinator.next_frame_id(), 0);
    assert_eq!(coordinator.frames_rendered(), 0);
    assert_eq!(coordinator.pending_count(), 0);
    assert!(coordinator.snapshot_idle().is_empty());
    let status = coordinator.get_status(5);
    assert!(status.workers.is_empty());
    assert_eq!(status.frames_rendered, 0);
    let other = Coordinator::default();
    assert_eq!(other.next_frame_id(), 0);
    assert_eq!(other.frames_rendered(), 0);
    assert_eq!(other.get_status(5), status);
}

#[test]
fn registration_is_acknowledged_and_profiled() {
    let mut coordinator = Coordinator::new();
    let reaction = coordinator.handle_worker_message(
        9,
        WorkerToCoordinator::Register { worker_id: "W1".to_string() },
        100,
    );
    assert_eq!(
        reaction.sends,
        vec![
            Outgoing {
                outbound: 9,
                message: CoordinatorToWorker::Registered { worker_id: "W1".to_string() },
            },
            Outgoing {
                outbound: 9,
                message: CoordinatorToWorker::RunProfile { width: 512, height: 512 },
            },
        ]
    );
    assert_eq!(PROFILE_WIDTH, 512);
    assert_eq!(PROFILE_HEIGHT, 512);
    let idle = coordinator.snapshot_idle();
    assert_eq!(idle.len(), 1);
    assert_eq!(idle[0].worker_id, "W1");
    assert_eq!(idle[0].outbound, 9);
    assert_eq!(idle[0].capability.profile_ms(), 1000);
    assert_eq!(capability(&idle[0]), 1.0);
    assert!(!idle[0].busy);
    assert_eq!(idle[0].last_seen, 100);
}

#[test]
fn registering_again_starts_a_new_session() {
    let mut coordinator = Coordinator::new();
    register(&mut coordinator, "W1", 1, 0);
    register(&mut coordinator, "W2", 2, 0);
    profile(&mut coordinator, "W1", 500, 10);
    profile(&mut coordinator, "W2", 500, 10);
    let sent = dispatch(&mut coordinator, &request(4, 4), 20).unwrap();
    assert_eq!(sent.sends.len(), 2);
    assert!(coordinator.snapshot_idle().is_empty());
    register(&mut coordinator, "W1", 7, 50);
    let idle = coordinator.snapshot_idle();
    assert_eq!(idle.len(), 1);
    assert_eq!(idle[0].worker_id, "W1");
    assert_eq!(idle[0].outbound, 7);
    assert_eq!(idle[0].capability.profile_ms(), 1000);
    assert_eq!(idle[0].last_seen, 50);
    assert_eq!(coordinator.get_status(50).workers.len(), 2);
}

#[test]
fn single_idle_worker_one_frame() {
    let mut coordinator = Coordinator::new();
    register(&mut coordinator, "W1", 1, 0);
    profile(&mut coordinator, "W1", 100, 5);
    let req = FrameRequest { max_iterations: 64, ..request(64, 32) };
    let sent = dispatch(&mut coordinator, &req, 10).unwrap();
    assert_eq!(sent.frame_id, 0);
    assert_eq!(sent.sends.len(), 1);
    assert_eq!(sent.sends[0].outbound, 1);
    let order = strip_of(&sent.sends[0]);
    assert_eq!(
        order,
        RenderStripRequest {
            frame_id: 0,
            width: 64,
            y_start: 0,
            y_end: 32,
            total_height: 32,
            center_x: scalar(-0.5),
            center_y: scalar(0.0),
            zoom: scalar(1.0),
            max_iterations: 64,
        }
    );
    assert_eq!(coordinator.pending_count(), 1);
    let delivered = coordinator.handle_strip_result(strip_result("W1", &order, 9), 25);
    let response = delivered.unwrap();
    assert_eq!(response.frame_id, 0);
    assert_eq!(response.width, 64);
    assert_eq!(response.height, 32);
    assert_eq!(response.render_ms, 15);
    let pixels = decode(&response);
    assert_eq!(pixels.len(), 64 * 32 * 3);
    assert_eq!(pixels.len(), 6144);
    assert!(pixels.iter().all(|b| *b == 9));
    assert_eq!(coordinator.pending_count(), 0);
    assert_eq!(coordinator.frames_rendered(), 1);
}

#[test]
fn two_workers_proportional_split() {
    let mut coordinator = Coordinator::new();
    register(&mut coordinator, "W1", 1, 0);
    register(&mut coordinator, "W2", 2, 0);
    profile(&mut coordinator, "W1", 100, 1);
    profile(&mut coordinator, "W2", 400, 1);
    let idle = coordinator.snapshot_idle();
    assert_eq!(capability(&idle[0]), 10.0);
    assert_eq!(capability(&idle[1]), 2.5);
    let sent = dispatch(&mut coordinator, &request(10, 100), 2).unwrap();
    assert_eq!(sent.sends.len(), 2);
    let first = strip_of(&sent.sends[0]);
    let second = strip_of(&sent.sends[1]);
    assert_eq!(sent.sends[0].outbound, 1);
    assert_eq!(sent.sends[1].outbound, 2);
    assert_eq!((first.y_start, first.y_end), (0, 80));
    assert_eq!((second.y_start, second.y_end), (80, 100));
    assert_eq!(first.total_height, 100);
    assert_eq!(second.total_height, 100);
}

#[test]
fn rounding_with_remainder_rule() {
    let mut coordinator = Coordinator::new();
    register(&mut coordinator, "A", 1, 0);
    register(&mut coordinator, "B", 2, 0);
    register(&mut coordinator, "C", 3, 0);
    let sent = dispatch(&mut coordinator, &request(8, 100), 0).unwrap();
    let rows: Vec<(u32, u32)> =
        sent.sends.iter().map(|s| (strip_of(s).y_start, strip_of(s).y_end)).collect();
    assert_eq!(rows, vec![(0, 33), (33, 66), (66, 100)]);
    let outbounds: Vec<u64> = sent.sends.iter().map(|s| s.outbound).collect();
    assert_eq!(outbounds, vec![1, 2, 3]);
}

#[test]
fn no_workers() {
    let mut coordinator = Coordinator::new();
    let result = dispatch(&mut coordinator, &request(64, 32), 0);
    assert_eq!(result.unwrap_err(), FrameError::NoWorkers);
    assert_eq!(FrameError::NoWorkers.message(), "No workers available");
    let reaction =
        coordinator.handle_client_message(ClientToCoordinator::RequestFrame(request(64, 32)), 0);
    match reaction {
        ClientReaction::Reply(CoordinatorToClient::Error { message }) => {
            assert_eq!(message, "No workers available")
        }
        other => panic!("unexpected reaction: {:?}", other),
    }
    assert_eq!(coordinator.pending_count(), 0);
}

#[test]
fn busy_workers_are_not_available() {
    let mut coordinator = Coordinator::new();
    register(&mut coordinator, "W1", 1, 0);
    assert!(dispatch(&mut coordinator, &request(4, 4), 0).is_ok());
    let second = dispatch(&mut coordinator, &request(4, 4), 1);
    assert_eq!(second.unwrap_err(), FrameError::NoWorkers);
}

#[test]
fn frame_without_rows_gets_no_strips() {
    let mut coordinator = Coordinator::new();
    register(&mut coordinator, "W1", 1, 0);
    let result = dispatch(&mut coordinator, &request(64, 0), 0);
    assert_eq!(result.unwrap_err(), FrameError::NoStrips);
    assert_eq!(FrameError::NoStrips.message(), "Failed to assign strips");
    assert_eq!(coordinator.pending_count(), 0);
    assert_eq!(coordinator.snapshot_idle().len(), 1);
}

#[test]
fn worker_timeout() {
    let mut coordinator = Coordinator::new();
    register(&mut coordinator, "W1", 1, 1_000);
    assert_eq!(WORKER_TIMEOUT_MS, 30_000);
    assert_eq!(coordinator.cleanup_stale_workers(30_999), 0);
    assert_eq!(coordinator.get_status(30_999).workers.len(), 1);
    assert_eq!(coordinator.cleanup_stale_workers(31_000), 1);
    assert!(coordinator.get_status(31_000).workers.is_empty());
    let result = dispatch(&mut coordinator, &request(64, 32), 31_001);
    assert_eq!(result.unwrap_err().message(), "No workers available");
}

#[test]
fn heartbeat_keeps_a_worker() {
    let mut coordinator = Coordinator::new();
    register(&mut coordinator, "W1", 1, 0);
    register(&mut coordinator, "W2", 2, 0);
    let reaction = coordinator.handle_worker_message(
        1,
        WorkerToCoordinator::Heartbeat { worker_id: "W1".to_string() },
        20_000,
    );
    assert!(reaction.sends.is_empty() && reaction.delivered.is_none());
    assert_eq!(coordinator.cleanup_stale_workers(35_000), 1);
    let status = coordinator.get_status(35_000);
    assert_eq!(status.workers.len(), 1);
    assert_eq!(status.workers[0].worker_id, "W1");
    assert_eq!(status.workers[0].last_seen_ms, 15_000);
    assert_eq!(status.workers[0].capability.profile_ms(), 1000);
}

#[test]
fn messages_of_unknown_workers_change_nothing() {
    let mut coordinator = Coordinator::new();
    register(&mut coordinator, "W1", 1, 0);
    coordinator.handle_worker_message(
        3,
        WorkerToCoordinator::Heartbeat { worker_id: "nobody".to_string() },
        50,
    );
    profile(&mut coordinator, "nobody", 10, 60);
    let status = coordinator.get_status(100);
    assert_eq!(status.workers.len(), 1);
    assert_eq!(status.workers[0].worker_id, "W1");
    assert_eq!(status.workers[0].last_seen_ms, 100);
    assert_eq!(status.workers[0].capability.profile_ms(), 1000);
}

#[test]
fn frame_timeout() {
    let mut coordinator = Coordinator::new();
    register(&mut coordinator, "W1", 1, 0);
    let sent = dispatch(&mut coordinator, &request(4, 4), 0).unwrap();
    let order = strip_of(&sent.sends[0]);
    assert_eq!(FRAME_TIMEOUT_MS, 30_000);
    let result = coordinator.conclude_frame(sent.frame_id, WaitOutcome::TimedOut);
    assert_eq!(result, Err(FrameError::Timeout));
    assert_eq!(result.unwrap_err().message(), "Frame render timeout");
    assert_eq!(coordinator.pending_count(), 0);
    assert!(coordinator.snapshot_idle().is_empty());
    let late = coordinator.handle_strip_result(strip_result("W1", &order, 1), 40_000);
    assert!(late.is_none());
    assert_eq!(coordinator.frames_rendered(), 0);
    assert_eq!(coordinator.pending_count(), 0);
    let idle = coordinator.snapshot_idle();
    assert_eq!(idle.len(), 1);
    assert_eq!(idle[0].last_seen, 40_000);
}

#[test]
fn wait_that_is_closed_or_delivered() {
    let mut coordinator = Coordinator::new();
    register(&mut coordinator, "W1", 1, 0);
    let sent = dispatch(&mut coordinator, &request(4, 4), 0).unwrap();
    let closed = coordinator.conclude_frame(sent.frame_id, WaitOutcome::Closed);
    assert_eq!(closed, Err(FrameError::Cancelled));
    assert_eq!(FrameError::Cancelled.message(), "Frame assembly cancelled");
    assert_eq!(coordinator.pending_count(), 1);
    let response = FrameResponse {
        frame_id: sent.frame_id,
        width: 4,
        height: 4,
        render_ms: 3,
        data: "AAAA".to_string(),
    };
    let delivered =
        coordinator.conclude_frame(sent.frame_id, WaitOutcome::Delivered(response.clone()));
    assert_eq!(delivered, Ok(response.clone()));
    assert_eq!(
        Coordinator::frame_reply(Ok(response.clone())),
        CoordinatorToClient::Frame(response)
    );
    assert_eq!(
        Coordinator::frame_reply(Err(FrameError::Timeout)),
        CoordinatorToClient::Error { message: "Frame render timeout".to_string() }
    );
}

#[test]
fn frame_ids_increase() {
    let mut coordinator = Coordinator::new();
    assert!(dispatch(&mut coordinator, &request(4, 4), 0).is_err());
    assert_eq!(coordinator.next_frame_id(), 1);
    register(&mut coordinator, "W1", 1, 0);
    let first = dispatch(&mut coordinator, &request(4, 4), 0).unwrap();
    assert_eq!(first.frame_id, 1);
    assert_eq!(strip_of(&first.sends[0]).frame_id, 1);
    let order = strip_of(&first.sends[0]);
    assert!(coordinator.handle_strip_result(strip_result("W1", &order, 0), 1).is_some());
    let second = dispatch(&mut coordinator, &request(4, 4), 2).unwrap();
    assert_eq!(second.frame_id, 2);
    assert_eq!(strip_of(&second.sends[0]).frame_id, 2);
    assert_eq!(coordinator.next_frame_id(), 3);
}

#[test]
fn frames_rendered_counts_delivered_frames() {
    let mut coordinator = Coordinator::new();
    register(&mut coordinator, "W1", 1, 0);
    register(&mut coordinator, "W2", 2, 0);
    let mut delivered = 0;
    for round in 0..3u64 {
        let sent = dispatch(&mut coordinator, &request(2, 10), round).unwrap();
        assert_eq!(sent.sends.len(), 2);
        let a = strip_of(&sent.sends[0]);
        let b = strip_of(&sent.sends[1]);
        assert!(coordinator.handle_strip_result(strip_result("W2", &b, 2), round).is_none());
        assert_eq!(coordinator.frames_rendered(), delivered);
        assert!(coordinator.handle_strip_result(strip_result("W1", &a, 1), round).is_some());
        delivered += 1;
        assert_eq!(coordinator.frames_rendered(), delivered);
    }
    assert_eq!(coordinator.get_status(9).frames_rendered, 3);
    let timed_out = dispatch(&mut coordinator, &request(2, 10), 9).unwrap();
    assert!(coordinator.conclude_frame(timed_out.frame_id, WaitOutcome::TimedOut).is_err());
    assert_eq!(coordinator.frames_rendered(), 3);
}

#[test]
fn strips_in_any_order_give_the_same_frame() {
    let mut frames: Vec<Vec<u8>> = Vec::new();
    for order in [[0usize, 1, 2], [2, 1, 0], [1, 2, 0], [1, 0, 2]] {
        let mut coordinator = Coordinator::new();
        register(&mut coordinator, "A", 1, 0);
        register(&mut coordinator, "B", 2, 0);
        register(&mut coordinator, "C", 3, 0);
        let sent = dispatch(&mut coordinator, &request(5, 10), 0).unwrap();
        assert_eq!(sent.sends.len(), 3);
        let names = ["A", "B", "C"];
        let mut response = None;
        for (n, k) in order.iter().enumerate() {
            let strip = strip_of(&sent.sends[*k]);
            let got = coordinator
                .handle_strip_result(strip_result(names[*k], &strip, 10 + *k as u8), 1);
            assert_eq!(got.is_some(), n == 2);
            response = got;
        }
        frames.push(decode(&response.unwrap()));
    }
    let mut expected = vec![10u8; 3 * 5 * 3];
    expected.extend(vec![11u8; 3 * 5 * 3]);
    expected.extend(vec![12u8; 4 * 5 * 3]);
    for frame in &frames {
        assert_eq!(frame, &expected);
    }
}

#[test]
fn unreadable_strip_is_dropped_and_frees_the_worker() {
    let mut coordinator = Coordinator::new();
    register(&mut coordinator, "W1", 1, 0);
    let sent = dispatch(&mut coordinator, &request(4, 4), 0).unwrap();
    let mut result = strip_result("W1", &strip_of(&sent.sends[0]), 3);
    result.data = "not base64!".to_string();
    assert!(coordinator.handle_strip_result(result, 5).is_none());
    assert_eq!(coordinator.pending_count(), 1);
    assert_eq!(coordinator.frames_rendered(), 0);
    assert_eq!(coordinator.snapshot_idle().len(), 1);
}

#[test]
fn strip_of_unknown_frame_is_dropped() {
    let mut coordinator = Coordinator::new();
    register(&mut coordinator, "W1", 1, 0);
    let sent = dispatch(&mut coordinator, &request(4, 4), 0).unwrap();
    let mut order = strip_of(&sent.sends[0]);
    order.frame_id = 77;
    assert!(coordinator.handle_strip_result(strip_result("W1", &order, 3), 5).is_none());
    assert_eq!(coordinator.pending_count(), 1);
    assert_eq!(coordinator.frames_rendered(), 0);
}

#[test]
fn repeated_strip_does_not_complete_a_frame() {
    let mut coordinator = Coordinator::new();
    register(&mut coordinator, "W1", 1, 0);
    register(&mut coordinator, "W2", 2, 0);
    let sent = dispatch(&mut coordinator, &request(1, 2), 0).unwrap();
    let first = strip_of(&sent.sends[0]);
    let second = strip_of(&sent.sends[1]);
    assert!(coordinator.handle_strip_result(strip_result("W1", &first, 1), 1).is_none());
    assert!(coordinator.handle_strip_result(strip_result("W1", &first, 5), 2).is_none());
    let response = coordinator.handle_strip_result(strip_result("W2", &second, 7), 3).unwrap();
    assert_eq!(decode(&response), vec![5, 5, 5, 7, 7, 7]);
}

#[test]
fn strip_that_is_too_long_is_cut_at_the_end_of_the_frame() {
    let mut coordinator = Coordinator::new();
    register(&mut coordinator, "W1", 1, 0);
    let sent = dispatch(&mut coordinator, &request(1, 2), 0).unwrap();
    let result = StripResult {
        worker_id: "W1".to_string(),
        frame_id: sent.frame_id,
        y_start: 1,
        y_end: 2,
        compute_ms: 0,
        data: base64::engine::general_purpose::STANDARD.encode([1u8, 2, 3, 4, 5, 6]),
    };
    let response = coordinator.handle_strip_result(result, 1).unwrap();
    assert_eq!(decode(&response), vec![0, 0, 0, 1, 2, 3]);
}

#[test]
fn frame_data_is_standard_base64() {
    let mut coordinator = Coordinator::new();
    register(&mut coordinator, "W1", 1, 0);
    let sent = dispatch(&mut coordinator, &request(1, 1), 0).unwrap();
    let result = StripResult {
        worker_id: "W1".to_string(),
        frame_id: sent.frame_id,
        y_start: 0,
        y_end: 1,
        compute_ms: 0,
        data: "/9j+".to_string(),
    };
    let response = coordinator.handle_strip_result(result, 1).unwrap();
    assert_eq!(response.data, "/9j+");
    assert_eq!(decode(&response), vec![0xff, 0xd8, 0xfe]);
}

#[test]
fn status_reports_capability_and_age() {
    let mut coordinator = Coordinator::new();
    register(&mut coordinator, "W1", 1, 100);
    register(&mut coordinator, "W2", 2, 200);
    profile(&mut coordinator, "W2", 0, 300);
    profile(&mut coordinator, "W1", 250, 400);
    let reaction = coordinator.handle_client_message(ClientToCoordinator::GetStatus, 1_000);
    let status = match reaction {
        ClientReaction::Reply(CoordinatorToClient::Status(status)) => status,
        other => panic!("unexpected reaction: {:?}", other),
    };
    assert_eq!(status.frames_rendered, 0);
    assert_eq!(status.workers.len(), 2);
    assert_eq!(status.workers[0].worker_id, "W1");
    assert_eq!(status.workers[0].capability.profile_ms(), 250);
    assert_eq!(1000.0 / status.workers[0].capability.profile_ms() as f64, 4.0);
    assert_eq!(status.workers[0].last_seen_ms, 600);
    assert_eq!(status.workers[1].worker_id, "W2");
    assert_eq!(status.workers[1].capability.profile_ms(), 1);
    assert_eq!(1000.0 / status.workers[1].capability.profile_ms() as f64, 1000.0);
    assert_eq!(status.workers[1].last_seen_ms, 700);
}

#[test]
fn profiling_reaches_every_worker() {
    let mut coordinator = Coordinator::new();
    register(&mut coordinator, "W1", 4, 0);
    register(&mut coordinator, "W2", 5, 0);
    assert!(dispatch(&mut coordinator, &request(1, 1), 0).is_ok());
    let sends = coordinator.run_profiling();
    assert_eq!(
        sends,
        vec![
            Outgoing {
                outbound: 4,
                message: CoordinatorToWorker::RunProfile { width: 512, height: 512 },
            },
            Outgoing {
                outbound: 5,
                message: CoordinatorToWorker::RunProfile { width: 512, height: 512 },
            },
        ]
    );
}

#[test]
fn disconnect_forgets_the_worker() {
    let mut coordinator = Coordinator::new();
    register(&mut coordinator, "W1", 1, 0);
    register(&mut coordinator, "W2", 2, 0);
    coordinator.handle_worker_disconnect(&"W1".to_string());
    coordinator.handle_worker_disconnect(&"nobody".to_string());
    let status = coordinator.get_status(0);
    assert_eq!(status.workers.len(), 1);
    assert_eq!(status.workers[0].worker_id, "W2");
}

#[test]
fn client_request_is_sent_out() {
    let mut coordinator = Coordinator::new();
    register(&mut coordinator, "W1", 1, 0);
    let reaction =
        coordinator.handle_client_message(ClientToCoordinator::RequestFrame(request(2, 6)), 3);
    match reaction {
        ClientReaction::Await(sent) => {
            assert_eq!(sent.frame_id, 0);
            assert_eq!(sent.sends.len(), 1);
            let order = strip_of(&sent.sends[0]);
            assert_eq!((order.y_start, order.y_end, order.width), (0, 6, 2));
        }
        other => panic!("unexpected reaction: {:?}", other),
    }
}

#[test]
fn faster_worker_gets_more_rows() {
    let mut coordinator = Coordinator::new();
    register(&mut coordinator, "slow", 1, 0);
    register(&mut coordinator, "fast", 2, 0);
    register(&mut coordinator, "last", 3, 0);
    profile(&mut coordinator, "slow", 300, 1);
    profile(&mut coordinator, "fast", 100, 1);
    profile(&mut coordinator, "last", 150, 1);
    let sent = dispatch(&mut coordinator, &request(3, 600), 2).unwrap();
    let rows: Vec<(u64, u32, u32)> = sent
        .sends
        .iter()
        .map(|s| (s.outbound, strip_of(s).y_start, strip_of(s).y_end))
        .collect();
    assert_eq!(rows, vec![(1, 0, 100), (2, 100, 400), (3, 400, 600)]);
}

#[test]
fn slow_worker_may_get_no_rows() {
    let mut coordinator = Coordinator::new();
    register(&mut coordinator, "W1", 1, 0);
    register(&mut coordinator, "W2", 2, 0);
    register(&mut coordinator, "W3", 3, 0);
    profile(&mut coordinator, "W1", 1_000_000, 1);
    profile(&mut coordinator, "W2", 1, 1);
    let sent = dispatch(&mut coordinator, &request(4, 4), 20).unwrap();
    let rows: Vec<(u64, u32, u32)> = sent
        .sends
        .iter()
        .map(|s| (s.outbound, strip_of(s).y_start, strip_of(s).y_end))
        .collect();
    assert_eq!(rows, vec![(2, 0, 4)]);
    let idle: Vec<String> = coordinator.snapshot_idle().into_iter().map(|w| w.worker_id).collect();
    assert_eq!(idle, vec!["W1", "W3"]);
}

#[test]
fn worker_is_not_busy_for_a_request_that_was_not_sent() {
    let mut coordinator = Coordinator::new();
    register(&mut coordinator, "W1", 1, 0);
    register(&mut coordinator, "W2", 2, 0);
    let sent = dispatch(&mut coordinator, &request(4, 4), 3).unwrap();
    assert_eq!(sent.workers, vec!["W1", "W2"]);
    assert!(coordinator.snapshot_idle().is_empty());
    coordinator.handle_send_failure(&sent.workers[1]);
    coordinator.handle_send_failure(&"nobody".to_string());
    let idle = coordinator.snapshot_idle();
    assert_eq!(idle.len(), 1);
    assert_eq!(idle[0].worker_id, "W2");
    assert_eq!(idle[0].last_seen, 0);
    assert_eq!(coordinator.pending_count(), 1);
}

#[test]
fn accept_strip_takes_pixels_that_are_already_read() {
    let mut coordinator = Coordinator::new();
    register(&mut coordinator, "W1", 1, 0);
    register(&mut coordinator, "W2", 2, 0);
    let sent = dispatch(&mut coordinator, &request(1, 2), 100).unwrap();
    let id = "W1".to_string();
    assert!(coordinator.accept_strip(&id, sent.frame_id, 0, None, 110).is_none());
    assert_eq!(coordinator.snapshot_idle().len(), 1);
    assert!(coordinator.accept_strip(&id, sent.frame_id + 1, 0, Some(vec![9, 9, 9]), 120).is_none());
    assert!(coordinator.accept_strip(&id, sent.frame_id, 0, Some(vec![1, 2, 3]), 130).is_none());
    assert_eq!(coordinator.pending_count(), 1);
    let whole = coordinator
        .accept_strip(&"W2".to_string(), sent.frame_id, 1, Some(vec![4, 5, 6]), 175)
        .unwrap();
    assert_eq!(whole.frame_id, sent.frame_id);
    assert_eq!((whole.width, whole.height), (1, 2));
    assert_eq!(whole.render_ms, 75);
    assert_eq!(whole.pixels, vec![1, 2, 3, 4, 5, 6]);
    assert_eq!(coordinator.pending_count(), 0);
    assert_eq!(coordinator.frames_rendered(), 1);
    assert_eq!(coordinator.snapshot_idle().len(), 2);
}
