//! The tile scheduler: the single owner of all scheduling state.
//!
//! The caller runs the event loop (channels, sockets and the clock stay with
//! it) and feeds each event into one of the `handle_*` methods below,
//! together with the current time in milliseconds from a monotone clock.
//! Every decision — which tile a worker gets, when the scene must be
//! regenerated, when a slow worker is declared dead, what is composited —
//! is made and proved here.
//!
//! Tiles are handed out in one global order: row-major within a frame,
//! frames in increasing order, so the pending queue is always a window of
//! the sequence `nth_tile(0), nth_tile(1), ...` and no address is ever
//! issued twice.

use std::collections::VecDeque;
use vstd::prelude::*;
use vstd::arithmetic::div_mod::{
    lemma_div_is_ordered, lemma_fundamental_div_mod, lemma_fundamental_div_mod_converse,
};
use crate::assoc::{
    assoc_has, assoc_index, assoc_unique, assoc_val, lemma_assoc_push, lemma_assoc_remove,
    lemma_assoc_update,
};
use crate::client_id::ClientId;
use crate::protocol::{TraceResult, Vec3, result_color};
use crate::tile::{TileAddr, TILES_PER_FRAME, TILES_X, TILE_SIZE};

verus! {

/// How long a worker may hold a tile before it is declared dead, in
/// milliseconds.
pub const TILE_TIMEOUT_MS: u64 = 5000;

/// A tile handed to a worker and not yet returned.
#[derive(Clone, Copy, Debug)]
pub struct InFlightTile {
    pub client_id: ClientId,
    pub addr: TileAddr,
    /// When this tile times out: always `requested_at + TILE_TIMEOUT_MS`.
    pub expires: u64,
    pub requested_at: u64,
}

/// What the scheduler remembers about a connected worker. The response
/// channel back to the worker stays with the caller.
#[derive(Clone, Debug)]
pub struct ClientRecord {
    /// Display name, as raw UTF-8 bytes.
    pub name: Vec<u8>,
}

/// One composite order for the frame accumulator.
#[derive(Clone, Debug)]
pub struct BlitTileEvent {
    pub client_id: ClientId,
    pub addr: TileAddr,
    /// Name of the submitting worker at submission time.
    pub name: Vec<u8>,
    /// One color per tile pixel, row-major, exactly `TILE_SIZE * TILE_SIZE`.
    pub pixels: Vec<Vec3>,
    /// How long the worker held the tile, in milliseconds.
    pub time_ms: u64,
}

/// Events the scheduler emits towards the frame accumulator.
#[derive(Clone, Debug)]
pub enum OutputEvent {
    BlitTile(BlitTileEvent),
}

/// Answer to a granted reservation: which tile was issued and which scene
/// snapshot the response must carry.
#[derive(Clone, Copy, Debug)]
pub struct ReserveGrant {
    pub addr: TileAddr,
    /// Frame of the scene to embed in the response; equals the scheduler's
    /// current frame.
    pub scene_frame: u64,
    /// True exactly when the grant moved the scheduler to a fresher frame,
    /// so the caller must rebuild the scene before replying.
    pub scene_regenerated: bool,
}

/// The tile in global handout position `i` (counting from 0): frames are
/// numbered from 1 and each frame's tiles are enumerated row-major.
pub open spec fn nth_tile(i: int) -> TileAddr {
    TileAddr {
        frame: (i / (TILES_PER_FRAME as int) + 1) as u64,
        y: ((i % (TILES_PER_FRAME as int)) / (TILES_X as int)) as usize,
        x: ((i % (TILES_PER_FRAME as int)) % (TILES_X as int)) as usize,
    }
}

/// The byte spelling of the default worker name, `Unnamed`.
pub open spec fn default_name_spec() -> Seq<u8> {
    seq![0x55u8, 0x6eu8, 0x6eu8, 0x61u8, 0x6du8, 0x65u8, 0x64u8]
}

/// The colors a result vector stands for, element by element.
pub open spec fn pixels_of(s: Seq<TraceResult>) -> Seq<Vec3> {
    s.map_values(|r: TraceResult| result_color(r))
}

/// Whether `q` holds an entry owned by `id`.
pub open spec fn has_in_flight(q: Seq<InFlightTile>, id: ClientId) -> bool {
    exists|i: int| 0 <= i < q.len() && (#[trigger] q[i]).client_id == id
}

/// All scheduling state. See the module doc for the division of labor
/// between this type and the caller's event loop.
pub struct Scheduler {
    pub clients: Vec<(ClientId, ClientRecord)>,
    pub pending_tiles: VecDeque<TileAddr>,
    pub in_flight_tiles: VecDeque<InFlightTile>,
    /// Frame whose tiles the next queue refill will enqueue.
    pub pending_frame: u64,
    /// Frame of the scene snapshot last published; 0 until the first grant.
    pub current_frame: u64,
    /// Largest clock value seen so far.
    pub last_now_ms: u64,
}

impl Scheduler {
    /// Total number of tiles ever enqueued.
    pub open spec fn total_enqueued(self) -> int {
        (self.pending_frame - 1) * (TILES_PER_FRAME as int)
    }

    /// Total number of tiles ever popped; the next pop returns
    /// `nth_tile(self.popped())`.
    pub open spec fn popped(self) -> int {
        self.total_enqueued() - self.pending_tiles@.len()
    }

    pub open spec fn spec_clients(self) -> Seq<(ClientId, ClientRecord)> {
        self.clients@
    }

    pub open spec fn spec_in_flight(self) -> Seq<InFlightTile> {
        self.in_flight_tiles@
    }

    pub open spec fn spec_pending(self) -> Seq<TileAddr> {
        self.pending_tiles@
    }

    pub open spec fn spec_current_frame(self) -> u64 {
        self.current_frame
    }

    pub open spec fn spec_pending_frame(self) -> u64 {
        self.pending_frame
    }

    pub open spec fn spec_last_now(self) -> u64 {
        self.last_now_ms
    }

    pub open spec fn has_client(self, id: ClientId) -> bool {
        assoc_has(self.clients@, id)
    }

    /// Index of `id` in the client table (unique under `clients_wf`).
    pub open spec fn client_index(self, id: ClientId) -> int {
        assoc_index(self.clients@, id)
    }

    /// Current name of a connected client.
    pub open spec fn client_name(self, id: ClientId) -> Seq<u8> {
        assoc_val(self.clients@, id).name@
    }

    /// Client keys are unique.
    pub open spec fn clients_wf(self) -> bool {
        assoc_unique(self.clients@)
    }

    /// The pending queue is a window of the global tile sequence.
    pub open spec fn pending_wf(self) -> bool {
        &&& self.pending_frame >= 1
        &&& self.pending_tiles@.len() <= self.total_enqueued()
        &&& forall|i: int|
            0 <= i < self.pending_tiles@.len() ==> #[trigger] self.pending_tiles@[i] == nth_tile(
                self.popped() + i,
            )
    }

    /// The published scene never runs ahead of the next tile's frame.
    pub open spec fn frame_wf(self) -> bool {
        self.current_frame <= self.popped() / (TILES_PER_FRAME as int) + 1
    }

    /// In-flight entries belong to connected clients, expire exactly
    /// `TILE_TIMEOUT_MS` after their request, and sit in expiry order, so
    /// the head is always the next tile that can time out.
    pub open spec fn in_flight_wf(self) -> bool {
        &&& forall|i: int|
            0 <= i < self.in_flight_tiles@.len() ==> {
                let t = #[trigger] self.in_flight_tiles@[i];
                &&& t.addr.wf()
                &&& t.expires == t.requested_at + TILE_TIMEOUT_MS
                &&& t.requested_at <= self.last_now_ms
                &&& self.has_client(t.client_id)
            }
        &&& forall|i: int, j: int|
            0 <= i <= j < self.in_flight_tiles@.len()
                ==> (#[trigger] self.in_flight_tiles@[i]).expires <= (
            #[trigger] self.in_flight_tiles@[j]).expires
    }

    pub open spec fn wf(self) -> bool {
        &&& self.clients_wf()
        &&& self.pending_wf()
        &&& self.frame_wf()
        &&& self.in_flight_wf()
    }

    /// A pop cannot overflow the frame counter.
    pub open spec fn can_pop(self) -> bool {
        self.pending_tiles@.len() > 0 || self.pending_frame < u64::MAX
    }

    /// A fresh scheduler: nothing pending, nothing in flight, no clients,
    /// the first refill will enqueue frame 1, and no scene published yet.
    pub fn new() -> (s: Scheduler)
        ensures
            s.wf(),
            s.spec_clients() =~= Seq::<(ClientId, ClientRecord)>::empty(),
            s.spec_in_flight() =~= Seq::<InFlightTile>::empty(),
            s.popped() == 0,
            s.spec_current_frame() == 0,
            s.spec_pending_frame() == 1,
            s.spec_last_now() == 0,
            s.can_pop(),
    {
        Scheduler {
            clients: Vec::new(),
            pending_tiles: VecDeque::new(),
            in_flight_tiles: VecDeque::new(),
            pending_frame: 1,
            current_frame: 0,
            last_now_ms: 0,
        }
    }

    /// Next tile in the global order. When the queue is empty, a full fresh
    /// frame is appended row-major and the frame counter advances, so all
    /// tiles of frame `f` are handed out before any tile of frame `f + 1`.
    pub fn pop_tile_addr(&mut self) -> (addr: TileAddr)
        requires
            old(self).wf(),
            old(self).can_pop(),
        ensures
            final(self).wf(),
            addr == nth_tile(old(self).popped()),
            addr.wf(),
            addr.frame >= old(self).spec_current_frame(),
            addr.frame as int <= final(self).popped() / (TILES_PER_FRAME as int) + 1,
            final(self).popped() == old(self).popped() + 1,
            final(self).spec_clients() == old(self).spec_clients(),
            final(self).spec_in_flight() == old(self).spec_in_flight(),
            final(self).spec_current_frame() == old(self).spec_current_frame(),
            final(self).spec_last_now() == old(self).spec_last_now(),
    {
        if self.pending_tiles.len() == 0 {
            let frame = self.pending_frame;
            let ghost base = (frame - 1) * (TILES_PER_FRAME as int);
            for k in 0..TILES_PER_FRAME
                invariant
                    self.pending_tiles@.len() == k,
                    forall|m: int|
                        0 <= m < k ==> #[trigger] self.pending_tiles@[m] == (TileAddr {
                            frame,
                            x: (m % (TILES_X as int)) as usize,
                            y: (m / (TILES_X as int)) as usize,
                        }),
                    frame == self.pending_frame,
                    frame >= 1,
                    frame < u64::MAX,
                    self.clients == old(self).clients,
                    self.in_flight_tiles == old(self).in_flight_tiles,
                    self.current_frame == old(self).current_frame,
                    self.last_now_ms == old(self).last_now_ms,
                    self.pending_frame == old(self).pending_frame,
            {
                self.pending_tiles.push_back(
                    TileAddr { frame, x: k % TILES_X, y: k / TILES_X },
                );
                proof {
                    let m = k as int;
                    lemma_fundamental_div_mod_converse(
                        m,
                        TILES_X as int,
                        m / (TILES_X as int),
                        m % (TILES_X as int),
                    );
                }
            }
            proof {
                assert(TILES_PER_FRAME == 48);
                assert forall|m: int| 0 <= m < TILES_PER_FRAME as int implies #[trigger]
                    self.pending_tiles@[m] == nth_tile(base + m) by {
                    lemma_fundamental_div_mod_converse(
                        base + m,
                        TILES_PER_FRAME as int,
                        (frame - 1) as int,
                        m,
                    );
                }
            }
            self.pending_frame = self.pending_frame + 1;
            proof {
                assert(self.popped() == base);
                assert(self.pending_tiles@.len() <= self.total_enqueued());
                assert forall|i: int| 0 <= i < self.pending_tiles@.len() implies #[trigger]
                    self.pending_tiles@[i] == nth_tile(self.popped() + i) by {
                    assert(self.pending_tiles@[i] == nth_tile(base + i));
                }
                assert(self.pending_wf());
            }
        }
        proof {
            assert(self.pending_tiles@.len() > 0);
            lemma_div_is_ordered(
                old(self).popped(),
                old(self).popped() + 1,
                TILES_PER_FRAME as int,
            );
        }
        match self.pending_tiles.pop_front() {
            Some(addr) => addr,
            None => vstd::pervasive::unreached(),
        }
    }

    /// Index of `id` in the client table, if connected.
    fn find_client(&self, id: ClientId) -> (r: Option<usize>)
        requires
            self.clients_wf(),
        ensures
            match r {
                Some(i) => self.has_client(id) && i == self.client_index(id) && i
                    < self.clients@.len() && self.clients@[i as int].0 == id,
                None => !self.has_client(id),
            },
    {
        let mut i: usize = 0;
        while i < self.clients.len()
            invariant
                i <= self.clients@.len(),
                self.clients_wf(),
                forall|j: int| 0 <= j < i ==> (#[trigger] self.clients@[j]).0 != id,
            decreases self.clients@.len() - i,
        {
            if self.clients[i].0 == id {
                proof {
                    assert(self.has_client(id));
                    let ci = self.client_index(id);
                    assert(0 <= ci < self.clients@.len() && self.clients@[ci].0 == id);
                    if ci < i as int {
                        assert(self.clients@[ci].0 != self.clients@[i as int].0);
                    } else if ci > i as int {
                        assert(self.clients@[i as int].0 != self.clients@[ci].0);
                    }
                }
                return Some(i);
            }
            i = i + 1;
        }
        None
    }

    /// A worker connected: (re)register it under the default name.
    pub fn handle_connected(&mut self, id: ClientId)
        requires
            old(self).wf(),
        ensures
            final(self).wf(),
            final(self).has_client(id),
            final(self).client_name(id) == default_name_spec(),
            forall|c: ClientId|
                c != id ==> (final(self).has_client(c) <==> old(self).has_client(c)),
            forall|c: ClientId|
                c != id && old(self).has_client(c) ==> final(self).client_name(c) == old(self).client_name(c),
            final(self).spec_in_flight() == old(self).spec_in_flight(),
            final(self).spec_pending() == old(self).spec_pending(),
            final(self).spec_pending_frame() == old(self).spec_pending_frame(),
            final(self).spec_current_frame() == old(self).spec_current_frame(),
            final(self).spec_last_now() == old(self).spec_last_now(),
    {
        let rec = ClientRecord { name: default_client_name() };
        let ghost pre = self.clients@;
        match self.find_client(id) {
            Some(i) => {
                set_record(&mut self.clients, i, rec);
                proof {
                    lemma_assoc_update(pre, self.clients@, i as int, id);
                }
            },
            None => {
                self.clients.push((id, rec));
                proof {
                    lemma_assoc_push(pre, self.clients@, id);
                }
            },
        }
    }

    /// A worker asked to change its display name. Returns whether the
    /// worker was still registered, which is exactly when a `SetName`
    /// response is owed.
    pub fn handle_set_name(&mut self, id: ClientId, name: Vec<u8>) -> (accepted: bool)
        requires
            old(self).wf(),
        ensures
            final(self).wf(),
            accepted == old(self).has_client(id),
            accepted ==> final(self).has_client(id) && final(self).client_name(id) == name@,
            !accepted ==> final(self).spec_clients() == old(self).spec_clients(),
            forall|c: ClientId|
                c != id ==> (final(self).has_client(c) <==> old(self).has_client(c)),
            forall|c: ClientId|
                c != id && old(self).has_client(c) ==> final(self).client_name(c) == old(self).client_name(c),
            final(self).spec_in_flight() == old(self).spec_in_flight(),
            final(self).spec_pending() == old(self).spec_pending(),
            final(self).spec_pending_frame() == old(self).spec_pending_frame(),
            final(self).spec_current_frame() == old(self).spec_current_frame(),
            final(self).spec_last_now() == old(self).spec_last_now(),
    {
        let ghost pre = self.clients@;
        match self.find_client(id) {
            Some(i) => {
                set_record(&mut self.clients, i, ClientRecord { name });
                proof {
                    lemma_assoc_update(pre, self.clients@, i as int, id);
                }
                true
            },
            None => false,
        }
    }

    /// Drop every in-flight entry owned by `id`.
    fn purge_in_flight(&mut self, id: ClientId)
        ensures
            final(self).in_flight_tiles@ == purged(old(self).in_flight_tiles@, id),
            final(self).clients == old(self).clients,
            final(self).pending_tiles == old(self).pending_tiles,
            final(self).pending_frame == old(self).pending_frame,
            final(self).current_frame == old(self).current_frame,
            final(self).last_now_ms == old(self).last_now_ms,
    {
        let ghost q0 = self.in_flight_tiles@;
        let mut kept: VecDeque<InFlightTile> = VecDeque::new();
        while self.in_flight_tiles.len() > 0
            invariant
                purged(q0, id) == kept@ + purged(self.in_flight_tiles@, id),
                self.clients == old(self).clients,
                self.pending_tiles == old(self).pending_tiles,
                self.pending_frame == old(self).pending_frame,
                self.current_frame == old(self).current_frame,
                self.last_now_ms == old(self).last_now_ms,
            decreases self.in_flight_tiles@.len(),
        {
            let ghost rem0 = self.in_flight_tiles@;
            let ghost kept0 = kept@;
            let t = match self.in_flight_tiles.pop_front() {
                Some(t) => t,
                None => vstd::pervasive::unreached(),
            };
            if t.client_id != id {
                kept.push_back(t);
            }
            proof {
                assert(rem0.skip(1) =~= self.in_flight_tiles@);
                if t.client_id != id {
                    assert(kept0 + (seq![t] + purged(self.in_flight_tiles@, id)) =~= kept0.push(t)
                        + purged(self.in_flight_tiles@, id));
                }
            }
        }
        proof {
            assert(purged(q0, id) =~= kept@);
        }
        self.in_flight_tiles = kept;
    }

    /// A worker disconnected (or was declared dead): forget its record and
    /// silently drop all of its in-flight tiles. Their work is lost; tiles
    /// are never requeued.
    pub fn handle_disconnected(&mut self, id: ClientId)
        requires
            old(self).wf(),
        ensures
            final(self).wf(),
            !final(self).has_client(id),
            forall|c: ClientId|
                c != id ==> (final(self).has_client(c) <==> old(self).has_client(c)),
            forall|c: ClientId|
                c != id && old(self).has_client(c) ==> final(self).client_name(c) == old(self).client_name(c),
            final(self).spec_in_flight() == purged(old(self).spec_in_flight(), id),
            !has_in_flight(final(self).spec_in_flight(), id),
            final(self).spec_pending() == old(self).spec_pending(),
            final(self).spec_pending_frame() == old(self).spec_pending_frame(),
            final(self).spec_current_frame() == old(self).spec_current_frame(),
            final(self).spec_last_now() == old(self).spec_last_now(),
    {
        let ghost pre = self.clients@;
        match self.find_client(id) {
            Some(i) => {
                self.clients.remove(i);
                proof {
                    lemma_assoc_remove(pre, self.clients@, i as int, id);
                }
            },
            None => {},
        }
        self.purge_in_flight(id);
        proof {
            lemma_purged_membership(old(self).spec_in_flight(), id);
            lemma_purged_sorted(old(self).spec_in_flight(), id);
        }
    }

    /// The deadline the event loop must wake at: the head in-flight tile's
    /// expiry, or nothing when no tile is out.
    pub fn wait_deadline(&self) -> (r: Option<u64>)
        ensures
            match r {
                Some(t) => self.spec_in_flight().len() > 0 && t == self.spec_in_flight()[0].expires,
                None => self.spec_in_flight().len() == 0,
            },
    {
        if self.in_flight_tiles.len() > 0 {
            Some(self.in_flight_tiles[0].expires)
        } else {
            None
        }
    }

    /// The wait deadline elapsed: the head in-flight tile's owner has held
    /// its tile for the full timeout and is declared dead.
    pub fn handle_timeout(&mut self, now_ms: u64)
        requires
            old(self).wf(),
            old(self).spec_in_flight().len() > 0,
            now_ms >= old(self).spec_last_now(),
        ensures
            final(self).wf(),
            !final(self).has_client(old(self).spec_in_flight()[0].client_id),
            !has_in_flight(final(self).spec_in_flight(), old(self).spec_in_flight()[0].client_id),
            final(self).spec_in_flight() == purged(
                old(self).spec_in_flight(),
                old(self).spec_in_flight()[0].client_id,
            ),
            forall|c: ClientId|
                c != old(self).spec_in_flight()[0].client_id ==> (final(self).has_client(c)
                    <==> old(self).has_client(c)),
            final(self).spec_pending() == old(self).spec_pending(),
            final(self).spec_pending_frame() == old(self).spec_pending_frame(),
            final(self).spec_current_frame() == old(self).spec_current_frame(),
            final(self).spec_last_now() == now_ms,
    {
        self.last_now_ms = now_ms;
        let victim = self.in_flight_tiles[0].client_id;
        self.handle_disconnected(victim);
    }

    /// A worker asked for a tile. The next tile in the global order is
    /// always consumed; if the tile belongs to a fresher frame than the
    /// published scene, the frame advances and the caller must regenerate
    /// the scene. The grant is `Some` exactly when the worker is still
    /// registered; a tile popped for a vanished worker is lost, not
    /// requeued.
    pub fn handle_reserve(&mut self, id: ClientId, now_ms: u64) -> (grant: Option<ReserveGrant>)
        requires
            old(self).wf(),
            old(self).can_pop(),
            now_ms >= old(self).spec_last_now(),
            now_ms + TILE_TIMEOUT_MS <= u64::MAX,
        ensures
            final(self).wf(),
            final(self).popped() == old(self).popped() + 1,
            final(self).spec_current_frame() >= old(self).spec_current_frame(),
            ({
                let addr = nth_tile(old(self).popped());
                &&& (addr.frame > old(self).spec_current_frame() ==> final(self).spec_current_frame() == addr.frame)
                &&& (addr.frame <= old(self).spec_current_frame() ==> final(self).spec_current_frame() == old(self).spec_current_frame())
                &&& match grant {
                    Some(g) => {
                        &&& old(self).has_client(id)
                        &&& g.addr == addr
                        &&& g.addr.wf()
                        &&& g.scene_frame == final(self).spec_current_frame()
                        &&& g.scene_regenerated == (addr.frame > old(self).spec_current_frame())
                        &&& final(self).spec_in_flight() == old(self).spec_in_flight().push(
                            (InFlightTile {
                                client_id: id,
                                addr,
                                expires: (now_ms + TILE_TIMEOUT_MS) as u64,
                                requested_at: now_ms,
                            }),
                        )
                    },
                    None => {
                        &&& !old(self).has_client(id)
                        &&& final(self).spec_in_flight() == old(self).spec_in_flight()
                    },
                }
            }),
            final(self).spec_clients() == old(self).spec_clients(),
            final(self).spec_last_now() == now_ms,
    {
        self.last_now_ms = now_ms;
        let addr = self.pop_tile_addr();
        let regenerated = addr.frame > self.current_frame;
        if regenerated {
            self.current_frame = addr.frame;
        }
        match self.find_client(id) {
            Some(_i) => {
                self.in_flight_tiles.push_back(
                    InFlightTile {
                        client_id: id,
                        addr,
                        expires: now_ms + TILE_TIMEOUT_MS,
                        requested_at: now_ms,
                    },
                );
                Some(
                    ReserveGrant {
                        addr,
                        scene_frame: self.current_frame,
                        scene_regenerated: regenerated,
                    },
                )
            },
            None => None,
        }
    }

    /// A worker returned results. The response is owed exactly when the
    /// worker is still registered, even when the submission itself is
    /// ignored. The first in-flight entry of that worker (not necessarily
    /// the queue head) is consumed; with no outstanding reservation the
    /// submission is ignored. A result vector whose length is not
    /// `TILE_SIZE * TILE_SIZE` is rejected deterministically: the
    /// reservation is still consumed, but nothing is composited.
    pub fn handle_submit(&mut self, id: ClientId, results: Vec<TraceResult>, now_ms: u64) -> (r: (
        bool,
        Option<BlitTileEvent>,
    ))
        requires
            old(self).wf(),
            now_ms >= old(self).spec_last_now(),
        ensures
            final(self).wf(),
            r.0 == old(self).has_client(id),
            final(self).spec_clients() == old(self).spec_clients(),
            final(self).spec_pending() == old(self).spec_pending(),
            final(self).spec_pending_frame() == old(self).spec_pending_frame(),
            final(self).spec_current_frame() == old(self).spec_current_frame(),
            final(self).spec_last_now() == now_ms,
            !old(self).has_client(id) ==> final(self).spec_in_flight() == old(self).spec_in_flight() && r.1 is None,
            old(self).has_client(id) && !has_in_flight(old(self).spec_in_flight(), id) ==> final(self).spec_in_flight() == old(self).spec_in_flight() && r.1 is None,
            old(self).has_client(id) && has_in_flight(old(self).spec_in_flight(), id) ==> ({
                let q = old(self).spec_in_flight();
                exists|i: int|
                    {
                        &&& 0 <= i < q.len()
                        &&& (#[trigger] q[i]).client_id == id
                        &&& (forall|j: int| 0 <= j < i ==> (#[trigger] q[j]).client_id != id)
                        &&& final(self).spec_in_flight() == q.remove(i)
                        &&& (results@.len() == (TILE_SIZE * TILE_SIZE) as int ==> {
                            &&& r.1 matches Some(ev)
                            &&& (r.1 matches Some(ev) ==> {
                                &&& ev.client_id == id
                                &&& ev.addr == q[i].addr
                                &&& ev.name@ == old(self).client_name(id)
                                &&& ev.pixels@ == pixels_of(results@)
                                &&& ev.time_ms == now_ms - q[i].requested_at
                            })
                        })
                        &&& (results@.len() != (TILE_SIZE * TILE_SIZE) as int ==> r.1 is None)
                    }
            }),
    {
        self.last_now_ms = now_ms;
        match self.find_client(id) {
            None => (false, None),
            Some(ci) => {
                let mut k: usize = 0;
                while k < self.in_flight_tiles.len() && !(self.in_flight_tiles[k].client_id == id)
                    invariant
                        k <= self.in_flight_tiles@.len(),
                        forall|j: int|
                            0 <= j < k ==> (#[trigger] self.in_flight_tiles@[j]).client_id != id,
                    decreases self.in_flight_tiles@.len() - k,
                {
                    k = k + 1;
                }
                if k < self.in_flight_tiles.len() {
                    let entry = match self.in_flight_tiles.remove(k) {
                        Some(e) => e,
                        None => vstd::pervasive::unreached(),
                    };
                    if results.len() == TILE_SIZE * TILE_SIZE {
                        let name = clone_bytes(&self.clients[ci].1.name);
                        let pixels = results_to_pixels(&results);
                        let ev = BlitTileEvent {
                            client_id: id,
                            addr: entry.addr,
                            name,
                            pixels,
                            time_ms: now_ms - entry.requested_at,
                        };
                        (true, Some(ev))
                    } else {
                        (true, None)
                    }
                } else {
                    (true, None)
                }
            },
        }
    }
}

/// What remains of an in-flight queue after dropping one client's entries,
/// in order.
pub open spec fn purged(q: Seq<InFlightTile>, id: ClientId) -> Seq<InFlightTile>
    decreases q.len(),
{
    if q.len() == 0 {
        Seq::empty()
    } else if q[0].client_id == id {
        purged(q.skip(1), id)
    } else {
        seq![q[0]] + purged(q.skip(1), id)
    }
}

/// Every surviving entry of a purge occurs in the original queue, and none
/// of them belongs to the purged client.
pub proof fn lemma_purged_membership(q: Seq<InFlightTile>, id: ClientId)
    ensures
        forall|j: int|
            0 <= j < purged(q, id).len() ==> (#[trigger] purged(q, id)[j]).client_id != id && exists|
                i: int,
            | 0 <= i < q.len() && q[i] == purged(q, id)[j],
    decreases q.len(),
{
    if q.len() == 0 {
    } else {
        lemma_purged_membership(q.skip(1), id);
        assert forall|j: int| 0 <= j < purged(q, id).len() implies (#[trigger] purged(q, id)[j]).client_id
            != id && exists|i: int| 0 <= i < q.len() && q[i] == purged(q, id)[j] by {
            if q[0].client_id == id {
                let e = purged(q, id)[j];
                assert(e == purged(q.skip(1), id)[j]);
                let i0 = choose|i: int| 0 <= i < q.skip(1).len() && q.skip(1)[i] == e;
                assert(q[i0 + 1] == e);
            } else {
                if j == 0 {
                    assert(purged(q, id)[0] == q[0]);
                } else {
                    let e = purged(q, id)[j];
                    assert(e == purged(q.skip(1), id)[j - 1]);
                    let i0 = choose|i: int| 0 <= i < q.skip(1).len() && q.skip(1)[i] == e;
                    assert(q[i0 + 1] == e);
                }
            }
        }
    }
}

/// Purging preserves the expiry order.
pub proof fn lemma_purged_sorted(q: Seq<InFlightTile>, id: ClientId)
    requires
        forall|i: int, j: int|
            0 <= i <= j < q.len() ==> (#[trigger] q[i]).expires <= (#[trigger] q[j]).expires,
    ensures
        forall|i: int, j: int|
            0 <= i <= j < purged(q, id).len() ==> (#[trigger] purged(q, id)[i]).expires <= (
            #[trigger] purged(q, id)[j]).expires,
    decreases q.len(),
{
    if q.len() == 0 {
    } else {
        assert forall|i: int, j: int| 0 <= i <= j < q.skip(1).len() implies (#[trigger] q.skip(1)[i]).expires
            <= (#[trigger] q.skip(1)[j]).expires by {
            assert(q.skip(1)[i] == q[i + 1]);
            assert(q.skip(1)[j] == q[j + 1]);
        }
        lemma_purged_sorted(q.skip(1), id);
        lemma_purged_membership(q.skip(1), id);
        if q[0].client_id == id {
        } else {
            assert forall|i: int, j: int| 0 <= i <= j < purged(q, id).len() implies (#[trigger] purged(
                q,
                id,
            )[i]).expires <= (#[trigger] purged(q, id)[j]).expires by {
                if i == 0 && j > 0 {
                    let e = purged(q, id)[j];
                    assert(e == purged(q.skip(1), id)[j - 1]);
                    let i0 = choose|m: int| 0 <= m < q.skip(1).len() && q.skip(1)[m] == e;
                    assert(q.skip(1)[i0].expires >= q[0].expires);
                }
            }
        }
    }
}

/// The byte spelling of the default worker name, `Unnamed`, as a vector.
pub fn default_client_name() -> (v: Vec<u8>)
    ensures
        v@ == default_name_spec(),
{
    let mut v: Vec<u8> = Vec::new();
    v.push(0x55);
    v.push(0x6e);
    v.push(0x6e);
    v.push(0x61);
    v.push(0x6d);
    v.push(0x65);
    v.push(0x64);
    proof {
        assert(v@ =~= default_name_spec());
    }
    v
}

/// Byte-for-byte copy of a name.
pub fn clone_bytes(v: &Vec<u8>) -> (r: Vec<u8>)
    ensures
        r@ == v@,
{
    let mut r: Vec<u8> = Vec::new();
    for i in 0..v.len()
        invariant
            r@.len() == i,
            forall|j: int| 0 <= j < i ==> r@[j] == v@[j],
    {
        r.push(v[i]);
    }
    proof {
        assert(r@ =~= v@);
    }
    r
}

/// The colors a result vector stands for: the reported color when present,
/// white on a bare hit, black on a miss.
pub fn results_to_pixels(results: &Vec<TraceResult>) -> (p: Vec<Vec3>)
    ensures
        p@ == pixels_of(results@),
{
    let mut p: Vec<Vec3> = Vec::new();
    for i in 0..results.len()
        invariant
            p@.len() == i,
            forall|j: int| 0 <= j < i ==> p@[j] == result_color(results@[j]),
    {
        let r = results[i];
        let c = match r.color {
            Some(c) => c,
            None => if r.hit {
                Vec3 { x: crate::protocol::F32_ONE_BITS, y: crate::protocol::F32_ONE_BITS, z: crate::protocol::F32_ONE_BITS }
            } else {
                Vec3 { x: crate::protocol::F32_ZERO_BITS, y: crate::protocol::F32_ZERO_BITS, z: crate::protocol::F32_ZERO_BITS }
            },
        };
        p.push(c);
    }
    proof {
        assert(p@ =~= pixels_of(results@));
    }
    p
}

/// The head of the in-flight queue is the next tile that can time out:
/// every deadline is exactly the timeout past its request, and the head's
/// is the earliest. A worker that never submits is therefore declared
/// dead exactly `TILE_TIMEOUT_MS` after its reservation, when the event
/// loop wakes at `wait_deadline` and calls `handle_timeout`.
pub proof fn lemma_head_times_out_first(s: Scheduler)
    requires
        s.wf(),
        s.spec_in_flight().len() > 0,
    ensures
        s.spec_in_flight()[0].expires == s.spec_in_flight()[0].requested_at + TILE_TIMEOUT_MS,
        forall|i: int|
            0 <= i < s.spec_in_flight().len() ==> s.spec_in_flight()[0].expires <= (
            #[trigger] s.spec_in_flight()[i]).expires,
{
}

/// No tile address is ever issued twice: the global handout sequence is
/// injective over every index the scheduler can reach.
pub proof fn lemma_tile_sequence_injective(i: int, j: int)
    requires
        0 <= i <= (u64::MAX - 1) * (TILES_PER_FRAME as int),
        0 <= j <= (u64::MAX - 1) * (TILES_PER_FRAME as int),
        i != j,
    ensures
        nth_tile(i) != nth_tile(j),
{
    let n = TILES_PER_FRAME as int;
    lemma_fundamental_div_mod(i, n);
    lemma_fundamental_div_mod(j, n);
    lemma_fundamental_div_mod(i % n, TILES_X as int);
    lemma_fundamental_div_mod(j % n, TILES_X as int);
    lemma_div_is_ordered(i, (u64::MAX - 1) * n, n);
    lemma_div_is_ordered(j, (u64::MAX - 1) * n, n);
    assert(((u64::MAX - 1) * n) / n == u64::MAX - 1) by {
        lemma_fundamental_div_mod_converse((u64::MAX - 1) * n, n, u64::MAX - 1, 0);
    }
    if nth_tile(i) == nth_tile(j) {
        assert(i / n == j / n);
        assert(i % n == j % n);
    }
}

/// Replace the record stored at index `i`, keeping its key.
fn set_record(v: &mut Vec<(ClientId, ClientRecord)>, i: usize, rec: ClientRecord)
    requires
        i < old(v).len(),
    ensures
        final(v)@.len() == old(v)@.len(),
        final(v)@[i as int].0 == old(v)@[i as int].0,
        final(v)@[i as int].1 == rec,
        forall|a: int| 0 <= a < old(v)@.len() && a != i ==> final(v)@[a] == old(v)@[a],
{
    let key = v[i].0;
    let slot = &mut v[i];
    *slot = (key, rec);
}

} // verus!
