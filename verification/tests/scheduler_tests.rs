use raycoord::client_id::ClientId;
use raycoord::protocol::{TraceResult, Vec3};
use raycoord::scheduler::{Scheduler, TILE_TIMEOUT_MS};
use raycoord::tile::{TILES_PER_FRAME, TILES_X, TILE_SIZE};

fn full_results() -> Vec<TraceResult> {
    vec![TraceResult { hit: true, color: None }; TILE_SIZE * TILE_SIZE]
}

#[test]
fn tiles_are_issued_row_major_and_frames_advance() {
    // One worker reserving through a whole frame, submitting in between:
    // it sees every tile of frame 1 in row-major order, then frame 2
    // begins and the scene is regenerated exactly once at the boundary.
    let mut s = Scheduler::new();
    let a = ClientId::new(1);
    s.handle_connected(a);
    let mut now: u64 = 0;
    for k in 0..TILES_PER_FRAME {
        let g = s.handle_reserve(a, now).expect("registered worker gets a grant");
        assert_eq!(g.addr.frame, 1);
        assert_eq!(g.addr.x, k % TILES_X);
        assert_eq!(g.addr.y, k / TILES_X);
        assert_eq!(g.scene_frame, 1);
        assert_eq!(g.scene_regenerated, k == 0);
        now += 1;
        let (responded, ev) = s.handle_submit(a, full_results(), now);
        assert!(responded);
        assert!(ev.is_some());
        now += 1;
    }
    let g = s.handle_reserve(a, now).expect("grant");
    assert_eq!(g.addr.frame, 2);
    assert_eq!(g.addr.x, 0);
    assert_eq!(g.addr.y, 0);
    assert_eq!(g.scene_frame, 2);
    assert!(g.scene_regenerated);
}

#[test]
fn two_workers_split_the_stream_of_tiles() {
    // Tiles go out in one global order whoever asks: the second worker
    // gets the next address, never a repeat of the first worker's.
    let mut s = Scheduler::new();
    let a = ClientId::new(1);
    let b = ClientId::new(2);
    s.handle_connected(a);
    s.handle_connected(b);
    let ga = s.handle_reserve(a, 0).expect("grant");
    let gb = s.handle_reserve(b, 1).expect("grant");
    assert_eq!((ga.addr.frame, ga.addr.x, ga.addr.y), (1, 0, 0));
    assert_eq!((gb.addr.frame, gb.addr.x, gb.addr.y), (1, 1, 0));
}

#[test]
fn scene_frame_for_late_worker_is_fresh() {
    // Drain all of frame 1 with worker A (never submitting back), then
    // worker B's first grant crosses into frame 2 and carries the fresh
    // scene.
    let mut s = Scheduler::new();
    let a = ClientId::new(1);
    let b = ClientId::new(2);
    s.handle_connected(a);
    s.handle_connected(b);
    let mut now: u64 = 0;
    for _ in 0..TILES_PER_FRAME {
        s.handle_reserve(a, now).expect("grant");
        now += 1;
    }
    let gb = s.handle_reserve(b, now).expect("grant");
    assert_eq!(gb.addr.frame, 2);
    assert_eq!(gb.scene_frame, 2);
    assert!(gb.scene_regenerated);
}

#[test]
fn stalled_worker_is_disconnected_and_tile_not_retried() {
    // A takes tile (1,0,0) and stalls past the deadline: the scheduler's
    // wait deadline is exactly the handout time plus the timeout, the
    // timeout disconnects A, and the next worker receives the next tile —
    // the lost one is never reissued.
    let mut s = Scheduler::new();
    let a = ClientId::new(1);
    s.handle_connected(a);
    let g = s.handle_reserve(a, 1000).expect("grant");
    assert_eq!((g.addr.frame, g.addr.x, g.addr.y), (1, 0, 0));
    assert_eq!(s.wait_deadline(), Some(1000 + TILE_TIMEOUT_MS));
    // 6 seconds in, the deadline has long passed.
    s.handle_timeout(7000);
    assert_eq!(s.wait_deadline(), None);
    // A is gone: its submissions are not even acknowledged.
    let (responded, ev) = s.handle_submit(a, full_results(), 7100);
    assert!(!responded);
    assert!(ev.is_none());
    // A fresh worker gets the next address, not the abandoned (1, 0, 0).
    let b = ClientId::new(2);
    s.handle_connected(b);
    let gb = s.handle_reserve(b, 7200).expect("grant");
    assert_eq!((gb.addr.frame, gb.addr.x, gb.addr.y), (1, 1, 0));
}

#[test]
fn submission_without_reservation_is_acknowledged_but_ignored() {
    let mut s = Scheduler::new();
    let a = ClientId::new(1);
    s.handle_connected(a);
    let (responded, ev) = s.handle_submit(a, full_results(), 5);
    assert!(responded);
    assert!(ev.is_none());
}

#[test]
fn wrong_length_submission_is_rejected_deterministically() {
    // A result vector that is not TILE_SIZE^2 long consumes the
    // reservation but composites nothing; the worker is still answered.
    let mut s = Scheduler::new();
    let a = ClientId::new(1);
    s.handle_connected(a);
    s.handle_reserve(a, 0).expect("grant");
    let (responded, ev) = s.handle_submit(a, vec![TraceResult { hit: false, color: None }; 5], 1);
    assert!(responded);
    assert!(ev.is_none());
    // The reservation was consumed: a second submission has nothing left.
    let (responded2, ev2) = s.handle_submit(a, full_results(), 2);
    assert!(responded2);
    assert!(ev2.is_none());
}

#[test]
fn popped_addresses_are_all_distinct() {
    let mut s = Scheduler::new();
    let mut seen: Vec<(u64, usize, usize)> = Vec::new();
    for _ in 0..100 {
        let addr = s.pop_tile_addr();
        let key = (addr.frame, addr.x, addr.y);
        assert!(!seen.contains(&key), "tile {key:?} issued twice");
        seen.push(key);
    }
}

#[test]
fn submit_event_carries_pixels_and_timing() {
    let mut s = Scheduler::new();
    let a = ClientId::new(9);
    s.handle_connected(a);
    s.handle_reserve(a, 100).expect("grant");
    let mut results = full_results();
    results[0] = TraceResult { hit: true, color: Some(Vec3 { x: 11, y: 22, z: 33 }) };
    results[1] = TraceResult { hit: false, color: None };
    let (_, ev) = s.handle_submit(a, results, 350);
    let ev = ev.expect("a reserved worker's submission is composited");
    assert_eq!(ev.client_id, a);
    assert_eq!(ev.time_ms, 250);
    assert_eq!(ev.name, b"Unnamed".to_vec());
    assert_eq!(ev.pixels.len(), TILE_SIZE * TILE_SIZE);
    // A reported color is passed through; a bare hit is white; a miss is
    // black.
    assert_eq!(ev.pixels[0], Vec3 { x: 11, y: 22, z: 33 });
    assert_eq!(ev.pixels[1], Vec3 { x: 0, y: 0, z: 0 });
    assert_eq!(ev.pixels[2], Vec3 { x: 0x3F800000, y: 0x3F800000, z: 0x3F800000 });
}

#[test]
fn set_name_updates_later_events() {
    let mut s = Scheduler::new();
    let a = ClientId::new(3);
    s.handle_connected(a);
    assert!(s.handle_set_name(a, b"alice".to_vec()));
    s.handle_reserve(a, 0).expect("grant");
    let (_, ev) = s.handle_submit(a, full_results(), 10);
    assert_eq!(ev.expect("composited").name, b"alice".to_vec());
    // Unknown workers are not acknowledged.
    assert!(!s.handle_set_name(ClientId::new(77), b"bob".to_vec()));
}
