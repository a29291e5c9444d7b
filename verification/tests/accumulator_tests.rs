use raycoord::accumulator::{Accumulator, MetaActionPayload, PixelBytes};
use raycoord::client_id::ClientId;
use raycoord::protocol::Vec3;
use raycoord::scheduler::BlitTileEvent;
use raycoord::tile::{HEIGHT, TILES_PER_FRAME, TILES_X, TILES_Y, TILE_SIZE, WIDTH};

const STRIDE: usize = 4 * WIDTH;

fn new_acc() -> Accumulator {
    Accumulator::new(STRIDE, 0, STRIDE * HEIGHT, 0x40)
}

fn ev(id: u64, x: usize, y: usize, name: &[u8], time_ms: u64) -> BlitTileEvent {
    BlitTileEvent {
        client_id: ClientId::new(id),
        addr: raycoord::tile::TileAddr { frame: 1, x, y },
        name: name.to_vec(),
        pixels: vec![Vec3 { x: 0, y: 0, z: 0 }; TILE_SIZE * TILE_SIZE],
        time_ms,
    }
}

fn solid(b: u8, g: u8, r: u8) -> Vec<PixelBytes> {
    vec![PixelBytes { b, g, r }; TILE_SIZE * TILE_SIZE]
}

/// Count of owned slots and the sum of per-client counts, recomputed from
/// scratch.
fn recount(acc: &Accumulator) -> (usize, u64) {
    let owned = acc.tile_owner.iter().filter(|o| o.is_some()).count();
    let sum: u64 = acc.clients.iter().map(|e| e.1.current_count as u64).sum();
    (owned, sum)
}

#[test]
fn red_tile_lands_in_the_top_left_corner() {
    // A solid red tile at (0, 0): every pixel of rows 0..128, columns
    // 0..128 reads (B, G, R) = (0, 0, 255) and the fourth byte keeps its
    // fill value.
    let mut acc = new_acc();
    acc.blit_tile(&ev(1, 0, 0, b"w", 10), &solid(0, 0, 255), 0);
    for y in [0usize, 1, 64, 127] {
        for x in [0usize, 1, 64, 127] {
            let i = y * STRIDE + x * 4;
            assert_eq!(acc.pixels[i], 0, "blue at ({x},{y})");
            assert_eq!(acc.pixels[i + 1], 0, "green at ({x},{y})");
            assert_eq!(acc.pixels[i + 2], 255, "red at ({x},{y})");
            assert_eq!(acc.pixels[i + 3], 0x40, "untouched x byte at ({x},{y})");
        }
    }
    // Just outside the tile nothing changed.
    assert_eq!(acc.pixels[128 * 4], 0x40);
    assert_eq!(acc.pixels[128 * STRIDE], 0x40);
}

#[test]
fn ownership_counts_always_balance() {
    // The P-style invariants, recomputed concretely after every step: the
    // sum of current counts equals the owned slots, and the client set is
    // exactly the set of owners.
    let mut acc = new_acc();
    let steps: [(u64, usize, usize); 6] = [(1, 0, 0), (1, 1, 0), (2, 2, 0), (2, 0, 0), (1, 2, 0), (2, 1, 0)];
    let mut ts = 0;
    for (id, x, y) in steps {
        acc.blit_tile(&ev(id, x, y, b"w", 5), &solid(1, 2, 3), ts);
        ts += 1;
        let (owned, sum) = recount(&acc);
        assert_eq!(owned as u64, sum);
        for e in &acc.clients {
            let owns = acc.tile_owner.iter().filter(|o| **o == Some(e.0)).count();
            assert_eq!(e.1.current_count as usize, owns);
            assert!(e.1.current_count >= 1);
        }
        for o in &acc.tile_owner {
            if let Some(id) = o {
                assert!(acc.clients.iter().any(|e| e.0 == *id));
            }
        }
    }
    // After the last round, client 1 owns only slot 2 and client 2 the
    // rest; stealing client 1's final slot retires it from the table.
    acc.blit_tile(&ev(2, 2, 0, b"w", 5), &solid(1, 2, 3), ts);
    assert!(acc.clients.iter().all(|e| e.0 != ClientId::new(1)));
}

#[test]
fn frame_done_fires_once_per_bottom_right_tile() {
    let mut acc = new_acc();
    acc.blit_tile(&ev(1, 0, 0, b"w", 1), &solid(0, 0, 0), 0);
    let (_, done) = acc.take_frame();
    assert!(!done, "an ordinary tile does not complete a frame");
    acc.blit_tile(&ev(1, TILES_X - 1, TILES_Y - 1, b"w", 1), &solid(0, 0, 0), 1);
    let (frame, done) = acc.take_frame();
    assert!(done, "the bottom-right tile completes the frame");
    assert_eq!(frame.len(), STRIDE * HEIGHT);
    let (_, done_again) = acc.take_frame();
    assert!(!done_again, "the completion flag is read-and-cleared");
}

#[test]
fn average_time_converges_for_a_steady_worker() {
    // A worker that always takes 100 ms keeps an average of exactly
    // 100 ms, however long it runs.
    let mut acc = new_acc();
    for k in 0..60 {
        acc.blit_tile(&ev(1, k % TILES_X, (k / TILES_X) % TILES_Y, b"w", 100), &solid(0, 0, 0), k as u64);
    }
    let stats = &acc.clients.iter().find(|e| e.0 == ClientId::new(1)).expect("present").1;
    assert_eq!(stats.average_time_ms, 100);
    assert_eq!(stats.total_count, 60);
}

#[test]
fn average_time_seeds_from_the_first_observation() {
    let mut acc = new_acc();
    acc.blit_tile(&ev(1, 0, 0, b"w", 500), &solid(0, 0, 0), 0);
    let stats = &acc.clients[0].1;
    // Seeded at 500, then one EMA step towards 500 stays at 500.
    assert_eq!(stats.average_time_ms, 500);
    acc.blit_tile(&ev(1, 1, 0, b"w", 0), &solid(0, 0, 0), 1);
    // (500 * 999 + 0) / 1000, rounded down.
    assert_eq!(acc.clients[0].1.average_time_ms, 499);
}

#[test]
fn name_changes_are_logged_exactly_when_they_happen() {
    let mut acc = new_acc();
    acc.blit_tile(&ev(1, 0, 0, b"alice", 10), &solid(0, 0, 0), 0);
    acc.blit_tile(&ev(1, 1, 0, b"alice", 10), &solid(0, 0, 0), 1);
    acc.blit_tile(&ev(1, 2, 0, b"bob", 10), &solid(0, 0, 0), 2);
    let names: Vec<Option<Vec<u8>>> = acc
        .actions
        .iter()
        .map(|a| match &a.payload {
            MetaActionPayload::BlitTile(mb) => mb.name.clone(),
            MetaActionPayload::Snapshot(_) => panic!("no snapshot expected yet"),
        })
        .collect();
    // A fresh entry starts with an empty name, so the first blit carries
    // the name; the repeat does not; the change does.
    assert_eq!(
        names,
        vec![Some(b"alice".to_vec()), None, Some(b"bob".to_vec())]
    );
}

#[test]
fn segment_rotation_seeds_each_log_with_a_snapshot() {
    let mut acc = new_acc();
    acc.blit_tile(&ev(1, 0, 0, b"w", 10), &solid(0, 0, 0), 5);
    // First rotation: nothing was named yet, so nothing is to be written.
    let (old_log, old_name) = acc.rotate_segment(b"segment00000.ts.json".to_vec(), 10);
    assert!(old_name.is_empty());
    assert_eq!(old_log.len(), 1);
    acc.blit_tile(&ev(1, 1, 0, b"w", 10), &solid(0, 0, 0), 20);
    let (log, name) = acc.rotate_segment(b"segment00001.ts.json".to_vec(), 30);
    assert_eq!(name, b"segment00000.ts.json".to_vec());
    // The written sidecar opens with a snapshot and its timestamps never
    // decrease.
    assert!(matches!(log[0].payload, MetaActionPayload::Snapshot(_)));
    for w in log.windows(2) {
        assert!(w[0].ts_ms <= w[1].ts_ms);
    }
    if let MetaActionPayload::Snapshot(snap) = &log[0].payload {
        assert_eq!(snap.tiles.len(), TILES_PER_FRAME);
        assert_eq!(snap.tiles[0], Some(ClientId::new(1)));
        assert_eq!(snap.tiles_x, TILES_X);
        assert_eq!(snap.tiles_y, TILES_Y);
        assert_eq!(snap.clients.len(), 1);
    }
}
