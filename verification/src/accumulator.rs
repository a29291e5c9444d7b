//! The frame accumulator: the shared BGRx image, per-client statistics and
//! the per-segment action log.
//!
//! The caller owns the lock and the clock; every state change happens
//! through the methods here and is proved to keep the accounting exact:
//! the clients table holds exactly the owners of tile slots, every client's
//! `current_count` is the number of slots it owns, and the sum of all
//! counts equals the number of owned slots.
//!
//! Pixels arrive as bytes: the caller converts each color component from
//! its floating-point value to the `0..=255` byte before compositing, and
//! this module proves where every byte lands.

use vstd::prelude::*;
use vstd::arithmetic::div_mod::lemma_div_is_ordered;
use vstd::arithmetic::mul::{lemma_mul_inequality, lemma_mul_is_distributive_add_other_way};
use crate::assoc::{
    assoc_has, assoc_index, assoc_unique, assoc_val, lemma_assoc_index_pins, lemma_assoc_push,
    lemma_assoc_remove, lemma_assoc_update,
};
use crate::client_id::ClientId;
use crate::scheduler::BlitTileEvent;
use crate::tile::{HEIGHT, TILES_PER_FRAME, TILES_X, TILES_Y, TILE_SIZE, WIDTH};

verus! {

/// One composited pixel, already converted to bytes: blue, green, red.
/// The fourth byte of each BGRx cell is never touched.
#[derive(Clone, Copy, Debug, PartialEq, Eq, Structural)]
pub struct PixelBytes {
    pub b: u8,
    pub g: u8,
    pub r: u8,
}

/// Live statistics of one worker, as shown in the metadata side-channel.
#[derive(Clone, Debug)]
pub struct ClientStats {
    /// Number of tile slots this worker currently owns.
    pub current_count: u32,
    /// Number of tiles this worker ever composited.
    pub total_count: u64,
    /// Exponential moving average of its tile turnaround, in milliseconds.
    pub average_time_ms: u64,
    /// Display name, raw UTF-8 bytes.
    pub name: Vec<u8>,
}

/// Ghost image of [`ClientStats`].
pub struct StatsView {
    pub current_count: u32,
    pub total_count: u64,
    pub average_time_ms: u64,
    pub name: Seq<u8>,
}

impl View for ClientStats {
    type V = StatsView;

    open spec fn view(&self) -> StatsView {
        StatsView {
            current_count: self.current_count,
            total_count: self.total_count,
            average_time_ms: self.average_time_ms,
            name: self.name@,
        }
    }
}

/// The statistics table seen as ghost values.
pub open spec fn stats_view(s: Seq<(ClientId, ClientStats)>) -> Seq<(ClientId, StatsView)> {
    s.map_values(|e: (ClientId, ClientStats)| (e.0, e.1@))
}

/// One composite record in the action log.
#[derive(Clone, Debug)]
pub struct MetaBlit {
    pub client_id: ClientId,
    /// Row-major tile slot index.
    pub tile: usize,
    pub time_ms: u64,
    /// The worker's name, carried only when it differs from the stored one.
    pub name: Option<Vec<u8>>,
}

/// A full copy of the meta state, seeding each segment's log.
#[derive(Clone, Debug)]
pub struct MetaSnapshot {
    pub tiles: Vec<Option<ClientId>>,
    pub clients: Vec<(ClientId, ClientStats)>,
    pub tiles_x: usize,
    pub tiles_y: usize,
}

/// What happened, for the metadata side-channel.
#[derive(Clone, Debug)]
pub enum MetaActionPayload {
    Snapshot(MetaSnapshot),
    BlitTile(MetaBlit),
}

/// A timestamped entry of the per-segment action log.
#[derive(Clone, Debug)]
pub struct MetaAction {
    /// Milliseconds since process start.
    pub ts_ms: u64,
    pub payload: MetaActionPayload,
}

/// Number of owned (`Some`) slots.
pub open spec fn count_some(s: Seq<Option<ClientId>>) -> int
    decreases s.len(),
{
    if s.len() == 0 {
        0
    } else {
        count_some(s.drop_last()) + (if s.last() is Some {
            1int
        } else {
            0int
        })
    }
}

/// Number of slots owned by `id`.
pub open spec fn count_owned(s: Seq<Option<ClientId>>, id: ClientId) -> int
    decreases s.len(),
{
    if s.len() == 0 {
        0
    } else {
        count_owned(s.drop_last(), id) + (if s.last() == Some(id) {
            1int
        } else {
            0int
        })
    }
}

/// Sum of all clients' `current_count`.
pub open spec fn sum_counts(s: Seq<(ClientId, StatsView)>) -> int
    decreases s.len(),
{
    if s.len() == 0 {
        0
    } else {
        sum_counts(s.drop_last()) + s.last().1.current_count
    }
}

/// Counts are non-negative and bounded by the slot count.
pub proof fn lemma_count_bounds(s: Seq<Option<ClientId>>, id: ClientId)
    ensures
        0 <= count_owned(s, id) <= s.len(),
        0 <= count_some(s) <= s.len(),
    decreases s.len(),
{
    if s.len() > 0 {
        lemma_count_bounds(s.drop_last(), id);
    }
}

/// How both counts change when one slot is overwritten.
pub proof fn lemma_counts_update(s: Seq<Option<ClientId>>, t: int, v: Option<ClientId>)
    requires
        0 <= t < s.len(),
    ensures
        count_some(s.update(t, v)) == count_some(s) + (if v is Some {
            1int
        } else {
            0int
        }) - (if s[t] is Some {
            1int
        } else {
            0int
        }),
        forall|id: ClientId|
            #[trigger] count_owned(s.update(t, v), id) == count_owned(s, id) + (if v == Some(id) {
                1int
            } else {
                0int
            }) - (if s[t] == Some(id) {
                1int
            } else {
                0int
            }),
    decreases s.len(),
{
    let s2 = s.update(t, v);
    if t == s.len() - 1 {
        assert(s2.drop_last() =~= s.drop_last());
        assert(s2.last() == v);
        assert(s.last() == s[t]);
    } else {
        lemma_counts_update(s.drop_last(), t, v);
        assert(s2.drop_last() =~= s.drop_last().update(t, v));
        assert(s2.last() == s.last());
        assert(s.drop_last()[t] == s[t]);
        assert forall|id: ClientId|
            #[trigger] count_owned(s2, id) == count_owned(s, id) + (if v == Some(id) {
                1int
            } else {
                0int
            }) - (if s[t] == Some(id) {
                1int
            } else {
                0int
            }) by {
            assert(count_owned(s2.drop_last(), id) == count_owned(s.drop_last(), id) + (if v
                == Some(id) {
                1int
            } else {
                0int
            }) - (if s.drop_last()[t] == Some(id) {
                1int
            } else {
                0int
            }));
        }
    }
}

/// A slot owned by `id` witnesses a positive count; two distinct slots
/// witness a count of at least two.
pub proof fn lemma_count_owned_witness(s: Seq<Option<ClientId>>, id: ClientId, t: int)
    requires
        0 <= t < s.len(),
        s[t] == Some(id),
    ensures
        count_owned(s, id) >= 1,
    decreases s.len(),
{
    lemma_count_bounds(s.drop_last(), id);
    if t < s.len() - 1 {
        lemma_count_owned_witness(s.drop_last(), id, t);
    }
}

/// Two distinct slots owned by `id` force a count of at least two.
pub proof fn lemma_count_owned_two(s: Seq<Option<ClientId>>, id: ClientId, t1: int, t2: int)
    requires
        0 <= t1 < t2 < s.len(),
        s[t1] == Some(id),
        s[t2] == Some(id),
    ensures
        count_owned(s, id) >= 2,
    decreases s.len(),
{
    if t2 == s.len() - 1 {
        lemma_count_owned_witness(s.drop_last(), id, t1);
    } else {
        lemma_count_owned_two(s.drop_last(), id, t1, t2);
    }
}

/// A positive count yields an owned slot.
pub proof fn lemma_count_owned_exists(s: Seq<Option<ClientId>>, id: ClientId)
    requires
        count_owned(s, id) >= 1,
    ensures
        exists|t: int| 0 <= t < s.len() && s[t] == Some(id),
    decreases s.len(),
{
    if s.last() == Some(id) {
        assert(s[s.len() - 1] == Some(id));
    } else {
        lemma_count_owned_exists(s.drop_last(), id);
        let t = choose|t: int| 0 <= t < s.drop_last().len() && s.drop_last()[t] == Some(id);
        assert(s[t] == Some(id));
    }
}

/// An all-empty slot table owns nothing.
pub proof fn lemma_counts_empty(s: Seq<Option<ClientId>>)
    requires
        forall|t: int| 0 <= t < s.len() ==> (#[trigger] s[t]) is None,
    ensures
        count_some(s) == 0,
        forall|id: ClientId| #[trigger] count_owned(s, id) == 0,
    decreases s.len(),
{
    if s.len() > 0 {
        assert(s[s.len() - 1] is None);
        assert forall|t: int| 0 <= t < s.drop_last().len() implies (#[trigger] s.drop_last()[t]) is None by {
            assert(s.drop_last()[t] == s[t]);
        }
        lemma_counts_empty(s.drop_last());
        assert forall|id: ClientId| #[trigger] count_owned(s, id) == 0 by {
            assert(count_owned(s.drop_last(), id) == 0);
            assert(s.last() is None);
        }
    }
}

/// How the sum changes when one entry is overwritten.
pub proof fn lemma_sum_update(s: Seq<(ClientId, StatsView)>, k: int, e: (ClientId, StatsView))
    requires
        0 <= k < s.len(),
    ensures
        sum_counts(s.update(k, e)) == sum_counts(s) - s[k].1.current_count + e.1.current_count,
    decreases s.len(),
{
    let s2 = s.update(k, e);
    if k == s.len() - 1 {
        assert(s2.drop_last() =~= s.drop_last());
    } else {
        lemma_sum_update(s.drop_last(), k, e);
        assert(s2.drop_last() =~= s.drop_last().update(k, e));
        assert(s2.last() == s.last());
    }
}

/// How the sum changes when one entry is removed.
pub proof fn lemma_sum_remove(s: Seq<(ClientId, StatsView)>, k: int)
    requires
        0 <= k < s.len(),
    ensures
        sum_counts(s.remove(k)) == sum_counts(s) - s[k].1.current_count,
    decreases s.len(),
{
    let s2 = s.remove(k);
    if k == s.len() - 1 {
        assert(s2 =~= s.drop_last());
    } else {
        lemma_sum_remove(s.drop_last(), k);
        assert(s2.drop_last() =~= s.drop_last().remove(k));
        assert(s2.last() == s.last());
    }
}

/// Byte position of the first (blue) byte of the pixel `(dy, dx)` of tile
/// `(addr_x, addr_y)`; the green and red bytes follow it.
pub open spec fn tile_pixel_base(
    stride: int,
    offset: int,
    addr_x: int,
    addr_y: int,
    dy: int,
    dx: int,
) -> int {
    offset + (addr_y * TILE_SIZE + dy) * stride + (addr_x * TILE_SIZE + dx) * 4
}

/// Byte position of color byte `k` of the pixel at image row `row`,
/// column `col`.
pub open spec fn pixel_byte_at(stride: int, offset: int, row: int, col: int, k: int) -> int {
    offset + row * stride + col * 4 + k
}

/// Whether byte `i` of the image belongs to the region a blit of tile
/// `(addr_x, addr_y)` writes: one of the three color bytes of one of the
/// tile's pixels.
pub open spec fn blit_writes(stride: int, offset: int, addr_x: int, addr_y: int, i: int) -> bool {
    exists|dy: int, dx: int, k: int|
        0 <= dy < TILE_SIZE && 0 <= dx < TILE_SIZE && 0 <= k < 3 && i == #[trigger] pixel_byte_at(
            stride,
            offset,
            addr_y * TILE_SIZE + dy,
            addr_x * TILE_SIZE + dx,
            k,
        )
}

/// All accumulator state, guarded by the caller's lock.
pub struct Accumulator {
    /// The BGRx image, `offset + HEIGHT * stride` bytes or more.
    pub pixels: Vec<u8>,
    /// Bytes per image row (at least `4 * WIDTH`).
    pub stride: usize,
    /// Byte offset of the first row.
    pub offset: usize,
    /// Set when the bottom-right tile arrived; cleared by the next pull.
    pub frame_done: bool,
    /// Owner of each tile slot, row-major.
    pub tile_owner: Vec<Option<ClientId>>,
    /// Statistics per live client.
    pub clients: Vec<(ClientId, ClientStats)>,
    /// Action log of the current segment.
    pub actions: Vec<MetaAction>,
    /// Sidecar filename of the current segment; empty before the first
    /// rotation.
    pub segment_filename: Vec<u8>,
}

impl Accumulator {
    /// The statistics table as ghost values.
    pub open spec fn clients_view(self) -> Seq<(ClientId, StatsView)> {
        stats_view(self.clients@)
    }

    pub open spec fn buf_wf(self) -> bool {
        &&& self.stride >= 4 * (WIDTH as int)
        &&& self.pixels@.len() >= self.offset + (HEIGHT as int) * (self.stride as int)
    }

    /// Every owned slot's owner has a statistics entry.
    pub open spec fn owners_wf(self) -> bool {
        &&& self.tile_owner@.len() == TILES_PER_FRAME as int
        &&& forall|t: int|
            0 <= t < self.tile_owner@.len() ==> ((#[trigger] self.tile_owner@[t]) matches Some(o)
                ==> assoc_has(self.clients_view(), o))
    }

    /// Statistics entries are keyed uniquely, and each client's
    /// `current_count` is exactly the number of slots it owns — never zero,
    /// because zero-count clients are dropped from the table.
    pub open spec fn stats_wf(self) -> bool {
        &&& assoc_unique(self.clients_view())
        &&& forall|k: int|
            0 <= k < self.clients_view().len() ==> {
                let e = #[trigger] self.clients_view()[k];
                &&& e.1.current_count == count_owned(self.tile_owner@, e.0)
                &&& e.1.current_count >= 1
            }
    }

    /// The sum of all `current_count`s equals the number of owned slots.
    pub open spec fn counts_wf(self) -> bool {
        sum_counts(self.clients_view()) == count_some(self.tile_owner@)
    }

    /// The action log's timestamps never decrease, and once a segment is
    /// open its log starts with a snapshot.
    pub open spec fn log_wf(self) -> bool {
        &&& forall|a: int, b: int|
            0 <= a <= b < self.actions@.len() ==> (#[trigger] self.actions@[a]).ts_ms <= (
            #[trigger] self.actions@[b]).ts_ms
        &&& self.segment_filename@.len() > 0 ==> self.actions@.len() >= 1 && (
        self.actions@[0].payload matches MetaActionPayload::Snapshot(_))
    }

    pub open spec fn wf(self) -> bool {
        &&& self.buf_wf()
        &&& self.owners_wf()
        &&& self.stats_wf()
        &&& self.counts_wf()
        &&& self.log_wf()
    }

    /// Timestamp of the newest log entry (0 when the log is empty).
    pub open spec fn last_ts(self) -> int {
        if self.actions@.len() == 0 {
            0
        } else {
            self.actions@[self.actions@.len() - 1].ts_ms as int
        }
    }

    /// A fresh accumulator over a `len`-byte image filled with `fill`.
    /// `stride` and `offset` come from the caller's video format.
    pub fn new(stride: usize, offset: usize, len: usize, fill: u8) -> (acc: Accumulator)
        requires
            stride >= 4 * (WIDTH as int),
            len >= offset + (HEIGHT as int) * (stride as int),
        ensures
            acc.wf(),
            acc.stride == stride,
            acc.offset == offset,
            acc.pixels@.len() == len,
            forall|i: int| 0 <= i < len ==> acc.pixels@[i] == fill,
            acc.frame_done == false,
            forall|t: int| 0 <= t < acc.tile_owner@.len() ==> (#[trigger] acc.tile_owner@[t]) is None,
            acc.clients_view() =~= Seq::<(ClientId, StatsView)>::empty(),
            acc.actions@ =~= Seq::<MetaAction>::empty(),
            acc.segment_filename@ =~= Seq::<u8>::empty(),
    {
        let mut pixels: Vec<u8> = Vec::new();
        for i in 0..len
            invariant
                pixels@.len() == i,
                forall|j: int| 0 <= j < i ==> pixels@[j] == fill,
        {
            pixels.push(fill);
        }
        let mut tile_owner: Vec<Option<ClientId>> = Vec::new();
        for i in 0..TILES_PER_FRAME
            invariant
                tile_owner@.len() == i,
                forall|j: int| 0 <= j < i ==> (#[trigger] tile_owner@[j]) is None,
        {
            tile_owner.push(None);
        }
        let acc = Accumulator {
            pixels,
            stride,
            offset,
            frame_done: false,
            tile_owner,
            clients: Vec::new(),
            actions: Vec::new(),
            segment_filename: Vec::new(),
        };
        proof {
            lemma_counts_empty(acc.tile_owner@);
            assert(acc.clients_view() =~= Seq::<(ClientId, StatsView)>::empty());
        }
        acc
    }

    /// Copy the tile's color bytes into the image. Exactly the three color
    /// bytes of each of the tile's pixels change; everything else — other
    /// tiles, padding, and every fourth (x) byte — is untouched.
    fn write_tile_pixels(&mut self, addr_x: usize, addr_y: usize, bgr: &Vec<PixelBytes>)
        requires
            old(self).buf_wf(),
            addr_x < TILES_X,
            addr_y < TILES_Y,
            bgr@.len() == (TILE_SIZE * TILE_SIZE) as int,
        ensures
            final(self).pixels@.len() == old(self).pixels@.len(),
            forall|dy: int, dx: int|
                0 <= dy < TILE_SIZE && 0 <= dx < TILE_SIZE ==> {
                    let base = #[trigger] tile_pixel_base(
                        old(self).stride as int,
                        old(self).offset as int,
                        addr_x as int,
                        addr_y as int,
                        dy,
                        dx,
                    );
                    &&& final(self).pixels@[base] == bgr@[dy * TILE_SIZE + dx].b
                    &&& final(self).pixels@[base + 1] == bgr@[dy * TILE_SIZE + dx].g
                    &&& final(self).pixels@[base + 2] == bgr@[dy * TILE_SIZE + dx].r
                },
            forall|i: int|
                0 <= i < old(self).pixels@.len() && !blit_writes(
                    old(self).stride as int,
                    old(self).offset as int,
                    addr_x as int,
                    addr_y as int,
                    i,
                ) ==> final(self).pixels@[i] == old(self).pixels@[i],
            final(self).stride == old(self).stride,
            final(self).offset == old(self).offset,
            final(self).frame_done == old(self).frame_done,
            final(self).tile_owner == old(self).tile_owner,
            final(self).clients == old(self).clients,
            final(self).actions == old(self).actions,
            final(self).segment_filename == old(self).segment_filename,
    {
        let stride = self.stride;
        let offset = self.offset;
        let ghost stride_i = stride as int;
        let ghost offset_i = offset as int;
        for dy in 0..TILE_SIZE
            invariant
                self.buf_wf(),
                stride == self.stride,
                offset == self.offset,
                stride_i == stride as int,
                offset_i == offset as int,
                addr_x < TILES_X,
                addr_y < TILES_Y,
                bgr@.len() == (TILE_SIZE * TILE_SIZE) as int,
                self.pixels@.len() == old(self).pixels@.len(),
                forall|py: int, px: int|
                    0 <= py < dy && 0 <= px < TILE_SIZE ==> {
                        let base = #[trigger] tile_pixel_base(
                            stride_i,
                            offset_i,
                            addr_x as int,
                            addr_y as int,
                            py,
                            px,
                        );
                        &&& self.pixels@[base] == bgr@[py * TILE_SIZE + px].b
                        &&& self.pixels@[base + 1] == bgr@[py * TILE_SIZE + px].g
                        &&& self.pixels@[base + 2] == bgr@[py * TILE_SIZE + px].r
                    },
                forall|i: int|
                    0 <= i < old(self).pixels@.len() && !blit_writes(
                        stride_i,
                        offset_i,
                        addr_x as int,
                        addr_y as int,
                        i,
                    ) ==> self.pixels@[i] == old(self).pixels@[i],
                self.stride == old(self).stride,
                self.offset == old(self).offset,
                self.frame_done == old(self).frame_done,
                self.tile_owner == old(self).tile_owner,
                self.clients == old(self).clients,
                self.actions == old(self).actions,
                self.segment_filename == old(self).segment_filename,
        {
            let row = addr_y * TILE_SIZE + dy;
            proof {
                assert(TILE_SIZE == 128 && TILES_X == 8 && TILES_Y == 6);
                assert(WIDTH == 1024 && HEIGHT == 768);
                assert(row < HEIGHT);
                lemma_mul_inequality(row as int + 1, HEIGHT as int, stride_i);
            }
            for dx in 0..TILE_SIZE
                invariant
                    self.buf_wf(),
                    stride == self.stride,
                    offset == self.offset,
                    stride_i == stride as int,
                    offset_i == offset as int,
                    addr_x < TILES_X,
                    addr_y < TILES_Y,
                    dy < TILE_SIZE,
                    row == addr_y * TILE_SIZE + dy,
                    (row as int + 1) * stride_i <= (HEIGHT as int) * stride_i,
                    bgr@.len() == (TILE_SIZE * TILE_SIZE) as int,
                    self.pixels@.len() == old(self).pixels@.len(),
                    forall|py: int, px: int|
                        0 <= py < dy && 0 <= px < TILE_SIZE ==> {
                            let base = #[trigger] tile_pixel_base(
                                stride_i,
                                offset_i,
                                addr_x as int,
                                addr_y as int,
                                py,
                                px,
                            );
                            &&& self.pixels@[base] == bgr@[py * TILE_SIZE + px].b
                            &&& self.pixels@[base + 1] == bgr@[py * TILE_SIZE + px].g
                            &&& self.pixels@[base + 2] == bgr@[py * TILE_SIZE + px].r
                        },
                    forall|px: int|
                        0 <= px < dx ==> {
                            let base = #[trigger] tile_pixel_base(
                                stride_i,
                                offset_i,
                                addr_x as int,
                                addr_y as int,
                                dy as int,
                                px,
                            );
                            &&& self.pixels@[base] == bgr@[dy * TILE_SIZE + px].b
                            &&& self.pixels@[base + 1] == bgr@[dy * TILE_SIZE + px].g
                            &&& self.pixels@[base + 2] == bgr@[dy * TILE_SIZE + px].r
                        },
                    forall|i: int|
                        0 <= i < old(self).pixels@.len() && !blit_writes(
                            stride_i,
                            offset_i,
                            addr_x as int,
                            addr_y as int,
                            i,
                        ) ==> self.pixels@[i] == old(self).pixels@[i],
                    self.stride == old(self).stride,
                    self.offset == old(self).offset,
                    self.frame_done == old(self).frame_done,
                    self.tile_owner == old(self).tile_owner,
                    self.clients == old(self).clients,
                    self.actions == old(self).actions,
                    self.segment_filename == old(self).segment_filename,
            {
                let col = addr_x * TILE_SIZE + dx;
                let n = self.pixels.len();
                proof {
                    assert(n == self.pixels@.len());
                    assert(TILE_SIZE == 128 && TILES_X == 8 && TILES_Y == 6);
                    assert(WIDTH == 1024 && HEIGHT == 768);
                    assert(col < WIDTH);
                    assert(((row as int) + 1) * stride_i == (row as int) * stride_i + stride_i)
                        by {
                        lemma_mul_is_distributive_add_other_way(stride_i, row as int, 1);
                    }
                    assert((row as int) * stride_i + ((col as int) * 4 + 3) < ((row as int) + 1)
                        * stride_i);
                    assert(offset_i + row * stride_i + col * 4 + 3 < n as int);
                }
                let base = offset + row * stride + col * 4;
                let j = dy * TILE_SIZE + dx;
                let p = bgr[j];
                let ghost before = self.pixels@;
                let slot_b = &mut self.pixels[base];
                *slot_b = p.b;
                let slot_g = &mut self.pixels[base + 1];
                *slot_g = p.g;
                let slot_r = &mut self.pixels[base + 2];
                *slot_r = p.r;
                proof {
                    let bi = base as int;
                    assert(self.pixels@ =~= before.update(bi, p.b).update(bi + 1, p.g).update(
                        bi + 2,
                        p.r,
                    ));
                    assert forall|q: int|
                        0 <= q < before.len() && q != bi && q != bi + 1 && q != bi + 2 implies
                        self.pixels@[q] == before[q] by {
                        assert(self.pixels@[q] == before.update(bi, p.b).update(bi + 1, p.g).update(
                            bi + 2,
                            p.r,
                        )[q]);
                    }
                    assert(blit_writes(stride_i, offset_i, addr_x as int, addr_y as int, bi)) by {
                        assert(bi == pixel_byte_at(stride_i, offset_i, (addr_y as int) * (
                        TILE_SIZE as int) + (dy as int), (addr_x as int) * (TILE_SIZE as int) + (
                        dx as int), 0));
                    }
                    assert(blit_writes(stride_i, offset_i, addr_x as int, addr_y as int, bi + 1))
                        by {
                        assert(bi + 1 == pixel_byte_at(stride_i, offset_i, (addr_y as int) * (
                        TILE_SIZE as int) + (dy as int), (addr_x as int) * (TILE_SIZE as int) + (
                        dx as int), 1));
                    }
                    assert(blit_writes(stride_i, offset_i, addr_x as int, addr_y as int, bi + 2))
                        by {
                        assert(bi + 2 == pixel_byte_at(stride_i, offset_i, (addr_y as int) * (
                        TILE_SIZE as int) + (dy as int), (addr_x as int) * (TILE_SIZE as int) + (
                        dx as int), 2));
                    }
                    assert forall|py: int, px: int| 0 <= py < dy && 0 <= px < TILE_SIZE implies {
                        let pbase = #[trigger] tile_pixel_base(
                            stride_i,
                            offset_i,
                            addr_x as int,
                            addr_y as int,
                            py,
                            px,
                        );
                        &&& self.pixels@[pbase] == bgr@[py * TILE_SIZE + px].b
                        &&& self.pixels@[pbase + 1] == bgr@[py * TILE_SIZE + px].g
                        &&& self.pixels@[pbase + 2] == bgr@[py * TILE_SIZE + px].r
                    } by {
                        let r1 = (addr_y as int) * (TILE_SIZE as int) + py;
                        let c1 = (addr_x as int) * (TILE_SIZE as int) + px;
                        lemma_row_col_distinct(stride_i, r1, c1, row as int, col as int);
                        let pb = tile_pixel_base(
                            stride_i,
                            offset_i,
                            addr_x as int,
                            addr_y as int,
                            py,
                            px,
                        );
                        assert(pb == offset_i + r1 * stride_i + c1 * 4);
                        lemma_mul_inequality(r1 + 1, HEIGHT as int, stride_i);
                        lemma_mul_is_distributive_add_other_way(stride_i, r1, 1);
                        assert(0 <= pb && pb + 2 < before.len());
                        assert(pb + 2 < bi || bi + 2 < pb);
                        assert(before[pb] == bgr@[py * TILE_SIZE + px].b);
                        assert(self.pixels@[pb] == before[pb]);
                        assert(self.pixels@[pb + 1] == before[pb + 1]);
                        assert(self.pixels@[pb + 2] == before[pb + 2]);
                    }
                    assert forall|px: int| 0 <= px < dx implies {
                        let pbase = #[trigger] tile_pixel_base(
                            stride_i,
                            offset_i,
                            addr_x as int,
                            addr_y as int,
                            dy as int,
                            px,
                        );
                        &&& self.pixels@[pbase] == bgr@[dy * TILE_SIZE + px].b
                        &&& self.pixels@[pbase + 1] == bgr@[dy * TILE_SIZE + px].g
                        &&& self.pixels@[pbase + 2] == bgr@[dy * TILE_SIZE + px].r
                    } by {
                        let c1 = (addr_x as int) * (TILE_SIZE as int) + px;
                        lemma_row_col_distinct(stride_i, row as int, c1, row as int, col as int);
                        let pb = tile_pixel_base(
                            stride_i,
                            offset_i,
                            addr_x as int,
                            addr_y as int,
                            dy as int,
                            px,
                        );
                        assert(pb == offset_i + (row as int) * stride_i + c1 * 4);
                        lemma_mul_inequality(row as int + 1, HEIGHT as int, stride_i);
                        lemma_mul_is_distributive_add_other_way(stride_i, row as int, 1);
                        assert(0 <= pb && pb + 2 < before.len());
                        assert(pb + 2 < bi || bi + 2 < pb);
                        assert(before[pb] == bgr@[dy * TILE_SIZE + px].b);
                        assert(self.pixels@[pb] == before[pb]);
                        assert(self.pixels@[pb + 1] == before[pb + 1]);
                        assert(self.pixels@[pb + 2] == before[pb + 2]);
                    }
                }
            }
        }
    }

    /// Hand the encoder one frame: a copy of the image bytes and whether a
    /// frame was completed since the last pull. The completion flag is
    /// read-and-cleared.
    pub fn take_frame(&mut self) -> (r: (Vec<u8>, bool))
        requires
            old(self).wf(),
        ensures
            final(self).wf(),
            r.0@ == old(self).pixels@,
            r.1 == old(self).frame_done,
            final(self).frame_done == false,
            final(self).pixels == old(self).pixels,
            final(self).stride == old(self).stride,
            final(self).offset == old(self).offset,
            final(self).tile_owner == old(self).tile_owner,
            final(self).clients == old(self).clients,
            final(self).actions == old(self).actions,
            final(self).segment_filename == old(self).segment_filename,
    {
        let mut copy: Vec<u8> = Vec::new();
        let n = self.pixels.len();
        for i in 0..n
            invariant
                n == self.pixels@.len(),
                copy@.len() == i,
                forall|j: int| 0 <= j < i ==> copy@[j] == self.pixels@[j],
        {
            copy.push(self.pixels[i]);
        }
        proof {
            assert(copy@ =~= self.pixels@);
        }
        let was_done = self.frame_done;
        self.frame_done = false;
        (copy, was_done)
    }
}

/// Distinct (row, column) pairs write to byte cells at least four bytes
/// apart, so the three color bytes of different pixels never overlap.
proof fn lemma_row_col_distinct(stride: int, row1: int, col1: int, row2: int, col2: int)
    requires
        stride >= 4 * (WIDTH as int),
        0 <= row1 < HEIGHT as int,
        0 <= col1 < WIDTH as int,
        0 <= row2 < HEIGHT as int,
        0 <= col2 < WIDTH as int,
        (row1, col1) != (row2, col2),
    ensures
        row1 * stride + col1 * 4 + 3 < row2 * stride + col2 * 4 || row2 * stride + col2 * 4 + 3
            < row1 * stride + col1 * 4,
{
    assert(WIDTH == 1024 && HEIGHT == 768);
    if row1 == row2 {
    } else if row1 < row2 {
        assert((row1 + 1) * stride <= row2 * stride) by {
            lemma_mul_inequality(row1 + 1, row2, stride);
        }
        assert((row1 + 1) * stride == row1 * stride + stride) by {
            lemma_mul_is_distributive_add_other_way(stride, row1, 1);
        }
    } else {
        assert((row2 + 1) * stride <= row1 * stride) by {
            lemma_mul_inequality(row2 + 1, row1, stride);
        }
        assert((row2 + 1) * stride == row2 * stride + stride) by {
            lemma_mul_is_distributive_add_other_way(stride, row2, 1);
        }
    }
}


/// The statistics table after the previous owner of a slot gives it up:
/// its count drops by one, and a client whose count reaches zero leaves
/// the table.
pub open spec fn release_owner_spec(
    cl: Seq<(ClientId, StatsView)>,
    owner: Option<ClientId>,
) -> Seq<(ClientId, StatsView)> {
    match owner {
        Option::None => cl,
        Option::Some(o) => if !assoc_has(cl, o) {
            cl
        } else {
            let k = assoc_index(cl, o);
            let st = cl[k].1;
            if st.current_count <= 1 {
                cl.remove(k)
            } else {
                cl.update(
                    k,
                    (
                        o,
                        StatsView {
                            current_count: (st.current_count - 1) as u32,
                            total_count: st.total_count,
                            average_time_ms: st.average_time_ms,
                            name: st.name,
                        },
                    ),
                )
            }
        },
    }
}

/// A freshly created statistics entry: its average is seeded with the
/// first observed turnaround, and its name starts empty.
pub open spec fn fresh_stats(time_ms: u64) -> StatsView {
    StatsView { current_count: 0, total_count: 0, average_time_ms: time_ms, name: Seq::empty() }
}

/// The statistics table with an entry for `id` present (created fresh when
/// missing), before the per-blit bump.
pub open spec fn upsert_base(
    cl: Seq<(ClientId, StatsView)>,
    id: ClientId,
    time_ms: u64,
) -> Seq<(ClientId, StatsView)> {
    if assoc_has(cl, id) {
        cl
    } else {
        cl.push((id, fresh_stats(time_ms)))
    }
}

/// Whether this blit changes the stored name — which is exactly when the
/// action log carries the new name.
pub open spec fn name_changed_spec(
    cl: Seq<(ClientId, StatsView)>,
    id: ClientId,
    time_ms: u64,
    name: Seq<u8>,
) -> bool {
    assoc_val(upsert_base(cl, id, time_ms), id).name != name
}

/// One step of the per-client exponential moving average, in integer
/// milliseconds: `(999 * avg + time) / 1000`, rounding down.
pub open spec fn ema_next(avg: int, t: int) -> int {
    (avg * 999 + t) / 1000
}

/// Saturating increment (the total counter never wraps).
pub open spec fn inc_sat(x: u64) -> u64 {
    if x == u64::MAX {
        x
    } else {
        (x + 1) as u64
    }
}

/// The statistics table after a blit by `id`: count and total bump, the
/// average moves towards the observed time, the name becomes the
/// submitted one.
pub open spec fn upsert_spec(
    cl: Seq<(ClientId, StatsView)>,
    id: ClientId,
    time_ms: u64,
    name: Seq<u8>,
) -> Seq<(ClientId, StatsView)> {
    let base = upsert_base(cl, id, time_ms);
    let k = assoc_index(base, id);
    let st = base[k].1;
    base.update(
        k,
        (
            id,
            StatsView {
                current_count: (st.current_count + 1) as u32,
                total_count: inc_sat(st.total_count),
                average_time_ms: ema_next(st.average_time_ms as int, time_ms as int) as u64,
                name,
            },
        ),
    )
}

/// The moving average stays between zero and the larger of its inputs.
pub proof fn lemma_ema_bounds(avg: int, t: int)
    requires
        0 <= avg,
        0 <= t,
    ensures
        0 <= ema_next(avg, t),
        ema_next(avg, t) <= avg || ema_next(avg, t) <= t,
{
    let m = if avg >= t {
        avg
    } else {
        t
    };
    assert(avg * 999 <= m * 999) by {
        lemma_mul_inequality(avg, m, 999);
    }
    assert(m * 999 + m == m * 1000) by {
        vstd::arithmetic::mul::lemma_mul_is_distributive_add(m, 999, 1);
    }
    assert((1000 * m) / 1000 == m) by {
        vstd::arithmetic::div_mod::lemma_div_multiples_vanish(m, 1000);
    }
    assert(m * 1000 == 1000 * m) by {
        vstd::arithmetic::mul::lemma_mul_is_commutative(m, 1000);
    }
    lemma_div_is_ordered(avg * 999 + t, m * 1000, 1000);
    lemma_div_is_ordered(0, avg * 999 + t, 1000);
}

/// One step of the moving average, in execution.
fn ema_update(avg: u64, t: u64) -> (r: u64)
    ensures
        r as int == ema_next(avg as int, t as int),
{
    proof {
        lemma_ema_bounds(avg as int, t as int);
    }
    let wide: u128 = (avg as u128) * 999 + (t as u128);
    (wide / 1000) as u64
}

/// Whether two byte vectors hold the same bytes.
pub fn bytes_eq(a: &Vec<u8>, b: &Vec<u8>) -> (r: bool)
    ensures
        r == (a@ == b@),
{
    if a.len() != b.len() {
        proof {
            assert(a@.len() != b@.len());
        }
        return false;
    }
    for i in 0..a.len()
        invariant
            a@.len() == b@.len(),
            forall|j: int| 0 <= j < i ==> a@[j] == b@[j],
    {
        if a[i] != b[i] {
            proof {
                assert(a@[i as int] != b@[i as int]);
            }
            return false;
        }
    }
    proof {
        assert(a@ =~= b@);
    }
    true
}

/// Index of `id` in the raw statistics table, scanning from the front.
fn find_stat(v: &Vec<(ClientId, ClientStats)>, id: ClientId) -> (r: Option<usize>)
    ensures
        match r {
            Some(i) => i < v@.len() && v@[i as int].0 == id,
            None => forall|j: int| 0 <= j < v@.len() ==> (#[trigger] v@[j]).0 != id,
        },
{
    let mut i: usize = 0;
    while i < v.len()
        invariant
            i <= v@.len(),
            forall|j: int| 0 <= j < i ==> (#[trigger] v@[j]).0 != id,
        decreases v@.len() - i,
    {
        if v[i].0 == id {
            return Some(i);
        }
        i = i + 1;
    }
    None
}

/// Replace the statistics stored at index `i`, keeping the key.
fn set_stat(v: &mut Vec<(ClientId, ClientStats)>, i: usize, st: ClientStats)
    requires
        i < old(v).len(),
    ensures
        final(v)@.len() == old(v)@.len(),
        final(v)@[i as int].0 == old(v)@[i as int].0,
        final(v)@[i as int].1 == st,
        forall|a: int| 0 <= a < old(v)@.len() && a != i ==> final(v)@[a] == old(v)@[a],
{
    let key = v[i].0;
    let slot = &mut v[i];
    *slot = (key, st);
}

/// The raw table and its view agree pointwise on keys and values.
proof fn lemma_stats_view_points(s: Seq<(ClientId, ClientStats)>)
    ensures
        stats_view(s).len() == s.len(),
        forall|i: int|
            0 <= i < s.len() ==> (#[trigger] stats_view(s)[i]) == (s[i].0, s[i].1@),
{
}


impl Accumulator {
    /// Composite one returned tile, under the caller's lock: raise the
    /// frame-done flag when the bottom-right tile arrives, write the color
    /// bytes, move the slot's ownership to the submitting worker, bump its
    /// statistics (creating the entry if needed, retiring the previous
    /// owner's entry when its last slot is taken), and append a log record
    /// that carries the name exactly when it changed.
    #[verifier::rlimit(100)]
    #[verifier::spinoff_prover]
    pub fn blit_tile(&mut self, ev: &BlitTileEvent, bgr: &Vec<PixelBytes>, ts_ms: u64)
        requires
            old(self).wf(),
            ev.addr.wf(),
            bgr@.len() == (TILE_SIZE * TILE_SIZE) as int,
            ts_ms >= old(self).last_ts(),
        ensures
            final(self).wf(),
            final(self).frame_done == (old(self).frame_done || (ev.addr.x == TILES_X - 1
                && ev.addr.y == TILES_Y - 1)),
            final(self).pixels@.len() == old(self).pixels@.len(),
            forall|dy: int, dx: int|
                0 <= dy < TILE_SIZE && 0 <= dx < TILE_SIZE ==> {
                    let base = #[trigger] tile_pixel_base(
                        old(self).stride as int,
                        old(self).offset as int,
                        ev.addr.x as int,
                        ev.addr.y as int,
                        dy,
                        dx,
                    );
                    &&& final(self).pixels@[base] == bgr@[dy * TILE_SIZE + dx].b
                    &&& final(self).pixels@[base + 1] == bgr@[dy * TILE_SIZE + dx].g
                    &&& final(self).pixels@[base + 2] == bgr@[dy * TILE_SIZE + dx].r
                },
            forall|i: int|
                0 <= i < old(self).pixels@.len() && !blit_writes(
                    old(self).stride as int,
                    old(self).offset as int,
                    ev.addr.x as int,
                    ev.addr.y as int,
                    i,
                ) ==> final(self).pixels@[i] == old(self).pixels@[i],
            final(self).tile_owner@ == old(self).tile_owner@.update(
                (ev.addr.y * TILES_X + ev.addr.x) as int,
                Some(ev.client_id),
            ),
            final(self).clients_view() == upsert_spec(
                release_owner_spec(
                    old(self).clients_view(),
                    old(self).tile_owner@[(ev.addr.y * TILES_X + ev.addr.x) as int],
                ),
                ev.client_id,
                ev.time_ms,
                ev.name@,
            ),
            final(self).actions@.len() == old(self).actions@.len() + 1,
            final(self).actions@.take(old(self).actions@.len() as int) == old(self).actions@,
            ({
                let changed = name_changed_spec(
                    release_owner_spec(
                        old(self).clients_view(),
                        old(self).tile_owner@[(ev.addr.y * TILES_X + ev.addr.x) as int],
                    ),
                    ev.client_id,
                    ev.time_ms,
                    ev.name@,
                );
                let last = final(self).actions@.last();
                &&& last.ts_ms == ts_ms
                &&& last.payload matches MetaActionPayload::BlitTile(mb)
                &&& (last.payload matches MetaActionPayload::BlitTile(mb) ==> {
                    &&& mb.client_id == ev.client_id
                    &&& mb.tile == ev.addr.y * TILES_X + ev.addr.x
                    &&& mb.time_ms == ev.time_ms
                    &&& (changed ==> (mb.name matches Some(n) && n@ == ev.name@))
                    &&& (!changed ==> mb.name is None)
                })
            }),
            final(self).segment_filename == old(self).segment_filename,
            final(self).stride == old(self).stride,
            final(self).offset == old(self).offset,
    {
        let x = ev.addr.x;
        let y = ev.addr.y;
        proof {
            assert(TILE_SIZE == 128 && TILES_X == 8 && TILES_Y == 6 && TILES_PER_FRAME == 48);
        }
        if x == TILES_X - 1 && y == TILES_Y - 1 {
            self.frame_done = true;
        }
        self.write_tile_pixels(x, y, bgr);
        self.account_blit(ev, ts_ms);
    }

    /// Ownership, statistics and log bookkeeping for one composited tile.
    #[verifier::rlimit(100)]
    #[verifier::spinoff_prover]
    fn account_blit(&mut self, ev: &BlitTileEvent, ts_ms: u64)
        requires
            old(self).owners_wf(),
            old(self).stats_wf(),
            old(self).counts_wf(),
            old(self).log_wf(),
            ev.addr.wf(),
            ts_ms >= old(self).last_ts(),
        ensures
            final(self).owners_wf(),
            final(self).stats_wf(),
            final(self).counts_wf(),
            final(self).log_wf(),
            final(self).tile_owner@ == old(self).tile_owner@.update(
                (ev.addr.y * TILES_X + ev.addr.x) as int,
                Some(ev.client_id),
            ),
            final(self).clients_view() == upsert_spec(
                release_owner_spec(
                    old(self).clients_view(),
                    old(self).tile_owner@[(ev.addr.y * TILES_X + ev.addr.x) as int],
                ),
                ev.client_id,
                ev.time_ms,
                ev.name@,
            ),
            final(self).actions@.len() == old(self).actions@.len() + 1,
            final(self).actions@.take(old(self).actions@.len() as int) == old(self).actions@,
            ({
                let changed = name_changed_spec(
                    release_owner_spec(
                        old(self).clients_view(),
                        old(self).tile_owner@[(ev.addr.y * TILES_X + ev.addr.x) as int],
                    ),
                    ev.client_id,
                    ev.time_ms,
                    ev.name@,
                );
                let last = final(self).actions@.last();
                &&& last.ts_ms == ts_ms
                &&& last.payload matches MetaActionPayload::BlitTile(mb)
                &&& (last.payload matches MetaActionPayload::BlitTile(mb) ==> {
                    &&& mb.client_id == ev.client_id
                    &&& mb.tile == ev.addr.y * TILES_X + ev.addr.x
                    &&& mb.time_ms == ev.time_ms
                    &&& (changed ==> (mb.name matches Some(n) && n@ == ev.name@))
                    &&& (!changed ==> mb.name is None)
                })
            }),
            final(self).pixels == old(self).pixels,
            final(self).stride == old(self).stride,
            final(self).offset == old(self).offset,
            final(self).frame_done == old(self).frame_done,
            final(self).segment_filename == old(self).segment_filename,
    {
        let x = ev.addr.x;
        let y = ev.addr.y;
        proof {
            assert(TILE_SIZE == 128 && TILES_X == 8 && TILES_Y == 6 && TILES_PER_FRAME == 48);
        }
        let tile = y * TILES_X + x;
        let gid = ev.client_id;
        let ghost raw0 = self.clients@;
        let ghost cl0 = self.clients_view();
        let ghost own0 = self.tile_owner@;
        proof {
            lemma_stats_view_points(raw0);
        }
        let owner = self.tile_owner[tile];

        // Release the previous owner's claim on this slot.
        match owner {
            Some(o) => {
                match find_stat(&self.clients, o) {
                    Some(k) => {
                        proof {
                            lemma_assoc_index_pins(cl0, o, k as int);
                        }
                        let cc = self.clients[k].1.current_count;
                        if cc <= 1 {
                            self.clients.remove(k);
                            proof {
                                lemma_stats_view_points(self.clients@);
                                assert(self.clients_view() =~= cl0.remove(k as int));
                                lemma_assoc_remove(cl0, self.clients_view(), k as int, o);
                                lemma_sum_remove(cl0, k as int);
                            }
                        } else {
                            let tc = self.clients[k].1.total_count;
                            let avg = self.clients[k].1.average_time_ms;
                            let nm = crate::scheduler::clone_bytes(&self.clients[k].1.name);
                            set_stat(
                                &mut self.clients,
                                k,
                                ClientStats {
                                    current_count: cc - 1,
                                    total_count: tc,
                                    average_time_ms: avg,
                                    name: nm,
                                },
                            );
                            proof {
                                lemma_stats_view_points(self.clients@);
                                assert(self.clients_view() =~= cl0.update(
                                    k as int,
                                    (
                                        o,
                                        StatsView {
                                            current_count: (cc - 1) as u32,
                                            total_count: tc,
                                            average_time_ms: avg,
                                            name: cl0[k as int].1.name,
                                        },
                                    ),
                                ));
                                lemma_assoc_update(cl0, self.clients_view(), k as int, o);
                                lemma_sum_update(
                                    cl0,
                                    k as int,
                                    self.clients_view()[k as int],
                                );
                            }
                        }
                    },
                    None => {
                        proof {
                            assert(assoc_has(cl0, o));
                            let w = choose|i: int|
                                0 <= i < cl0.len() && (#[trigger] cl0[i]).0 == o;
                            assert(raw0[w].0 == o);
                            assert(false);
                        }
                    },
                }
            },
            None => {},
        }
        let ghost cl1 = self.clients_view();
        proof {
            assert(cl1 == release_owner_spec(cl0, owner));
        }

        // The slot now belongs to the submitting worker.
        let slot = &mut self.tile_owner[tile];
        *slot = Some(gid);
        proof {
            assert(self.tile_owner@ =~= own0.update(tile as int, Some(gid)));
            lemma_counts_update(own0, tile as int, Some(gid));
        }

        // Create or bump the submitting worker's statistics.
        let ghost raw1 = self.clients@;
        proof {
            lemma_stats_view_points(raw1);
        }
        let k2 = match find_stat(&self.clients, gid) {
            Some(k2) => {
                proof {
                    assert(cl1[k2 as int].0 == gid);
                    assert(assoc_has(cl1, gid));
                    lemma_assoc_index_pins(cl1, gid, k2 as int);
                }
                k2
            },
            None => {
                proof {
                    if assoc_has(cl1, gid) {
                        let w = choose|i: int|
                            0 <= i < cl1.len() && (#[trigger] cl1[i]).0 == gid;
                        assert(raw1[w].0 == gid);
                    }
                }
                self.clients.push(
                    (
                        gid,
                        ClientStats {
                            current_count: 0,
                            total_count: 0,
                            average_time_ms: ev.time_ms,
                            name: Vec::new(),
                        },
                    ),
                );
                proof {
                    lemma_stats_view_points(self.clients@);
                    assert(self.clients_view() =~= cl1.push((gid, fresh_stats(ev.time_ms))));
                    lemma_assoc_push(cl1, self.clients_view(), gid);
                    assert(self.clients_view().drop_last() =~= cl1);
                }
                self.clients.len() - 1
            },
        };
        let ghost base2 = self.clients_view();
        proof {
            lemma_stats_view_points(self.clients@);
            assert(base2 == upsert_base(cl1, gid, ev.time_ms));
            lemma_assoc_index_pins(base2, gid, k2 as int);
        }
        let stored_cc = self.clients[k2].1.current_count;
        let stored_tc = self.clients[k2].1.total_count;
        let stored_avg = self.clients[k2].1.average_time_ms;
        let name_changed = !bytes_eq(&self.clients[k2].1.name, &ev.name);
        proof {
            // The count about to be bumped is bounded by the slot count.
            if assoc_has(cl0, gid) {
                let w0 = assoc_index(cl0, gid);
                lemma_assoc_index_pins(cl0, gid, w0);
                lemma_count_bounds(own0, gid);
            }
            lemma_count_bounds(own0, gid);
            assert(stored_cc <= 48);
        }
        let new_avg = ema_update(stored_avg, ev.time_ms);
        let new_tc = if stored_tc == u64::MAX {
            stored_tc
        } else {
            stored_tc + 1
        };
        let new_name = crate::scheduler::clone_bytes(&ev.name);
        set_stat(
            &mut self.clients,
            k2,
            ClientStats {
                current_count: stored_cc + 1,
                total_count: new_tc,
                average_time_ms: new_avg,
                name: new_name,
            },
        );
        let ghost cl2 = self.clients_view();
        proof {
            lemma_stats_view_points(self.clients@);
            assert(cl2 =~= base2.update(
                k2 as int,
                (
                    gid,
                    StatsView {
                        current_count: (stored_cc + 1) as u32,
                        total_count: inc_sat(stored_tc),
                        average_time_ms: ema_next(stored_avg as int, ev.time_ms as int) as u64,
                        name: ev.name@,
                    },
                ),
            ));
            lemma_assoc_update(base2, cl2, k2 as int, gid);
            assert(cl2 == upsert_spec(cl1, gid, ev.time_ms, ev.name@));
            lemma_sum_update(base2, k2 as int, cl2[k2 as int]);
            if !assoc_has(cl1, gid) {
                assert(sum_counts(base2) == sum_counts(cl1) + fresh_stats(
                    ev.time_ms,
                ).current_count);
            }
        }

        // Record the blit in the action log.
        let ghost log0 = self.actions@;
        let mb_name = if name_changed {
            Some(crate::scheduler::clone_bytes(&ev.name))
        } else {
            None
        };
        self.actions.push(
            MetaAction {
                ts_ms,
                payload: MetaActionPayload::BlitTile(
                    MetaBlit { client_id: gid, tile, time_ms: ev.time_ms, name: mb_name },
                ),
            },
        );
        proof {
            assert(self.actions@.take(log0.len() as int) =~= log0);
            assert(name_changed == name_changed_spec(cl1, gid, ev.time_ms, ev.name@));

            let own1 = self.tile_owner@;

            // Every statistics entry again counts exactly its owned slots.
            assert forall|kk: int| 0 <= kk < cl2.len() implies {
                let e = #[trigger] cl2[kk];
                &&& e.1.current_count == count_owned(own1, e.0)
                &&& e.1.current_count >= 1
            } by {
                let e = cl2[kk];
                let c = e.0;
                lemma_assoc_index_pins(cl2, c, kk);
                if c == gid {
                    if assoc_has(cl1, gid) {
                        let w1 = assoc_index(cl1, gid);
                        lemma_assoc_index_pins(cl1, gid, w1);
                    }
                    if owner == Some(gid) {
                        let w0 = assoc_index(cl0, gid);
                        lemma_assoc_index_pins(cl0, gid, w0);
                    } else if assoc_has(cl0, gid) {
                        let w0 = assoc_index(cl0, gid);
                        lemma_assoc_index_pins(cl0, gid, w0);
                    } else {
                        lemma_count_bounds(own0, gid);
                        if count_owned(own0, gid) >= 1 {
                            lemma_count_owned_exists(own0, gid);
                            let t = choose|t: int| 0 <= t < own0.len() && own0[t] == Some(gid);
                            assert(own0[t] matches Some(oo) ==> assoc_has(cl0, oo));
                            assert(false);
                        }
                    }
                } else {
                    if owner == Some(c) {
                        let w0 = assoc_index(cl0, c);
                        lemma_assoc_index_pins(cl0, c, w0);
                        if assoc_has(cl2, c) && !assoc_has(cl1, c) {
                            assert(false);
                        }
                    } else if assoc_has(cl0, c) {
                        let w0 = assoc_index(cl0, c);
                        lemma_assoc_index_pins(cl0, c, w0);
                    } else {
                        assert(false);
                    }
                }
            }

            // Every owned slot's owner still has an entry.
            assert forall|t: int|
                0 <= t < own1.len() implies ((#[trigger] own1[t]) matches Some(oo)
                    ==> assoc_has(cl2, oo)) by {
                if t != tile as int && own1[t] is Some {
                    let oo = own1[t]->Some_0;
                    assert(own0[t] == own1[t]);
                    assert(assoc_has(cl0, oo));
                    if oo != gid {
                        if owner == Some(oo) {
                            let w0 = assoc_index(cl0, oo);
                            lemma_assoc_index_pins(cl0, oo, w0);
                            if cl0[w0].1.current_count <= 1 {
                                if (t as int) < tile as int {
                                    lemma_count_owned_two(own0, oo, t, tile as int);
                                } else {
                                    lemma_count_owned_two(own0, oo, tile as int, t);
                                }
                                assert(false);
                            }
                        }
                    }
                }
            }

            // The total of all counts still equals the number of owned
            // slots.
            if owner is Some {
                let o = owner->Some_0;
                let w0 = assoc_index(cl0, o);
                lemma_assoc_index_pins(cl0, o, w0);
            }
            if !assoc_has(cl1, gid) {
                assert(base2.drop_last() =~= cl1);
                assert(sum_counts(base2) == sum_counts(cl1) + fresh_stats(
                    ev.time_ms,
                ).current_count);
            }
            assert(sum_counts(cl2) == count_some(own1));

            // The log stays sorted and still opens with a snapshot.
            assert forall|a: int, b: int|
                0 <= a <= b < self.actions@.len() implies (#[trigger] self.actions@[a]).ts_ms <= (
                #[trigger] self.actions@[b]).ts_ms by {
                if b == self.actions@.len() - 1 && a < b {
                    assert(log0[a].ts_ms <= log0[log0.len() - 1].ts_ms);
                }
            }
        }
    }
}


/// Element-wise copy of the slot-owner table.
fn clone_owner(v: &Vec<Option<ClientId>>) -> (r: Vec<Option<ClientId>>)
    ensures
        r@ == v@,
{
    let mut r: Vec<Option<ClientId>> = Vec::new();
    for i in 0..v.len()
        invariant
            r@.len() == i,
            forall|j: int| 0 <= j < i ==> r@[j] == v@[j],
    {
        r.push(v[i]);
    }
    proof {
        assert(r@ =~= v@);
    }
    r
}

/// Deep copy of the statistics table; the copy shows the same ghost values.
fn clone_stats(v: &Vec<(ClientId, ClientStats)>) -> (r: Vec<(ClientId, ClientStats)>)
    ensures
        stats_view(r@) == stats_view(v@),
{
    let mut r: Vec<(ClientId, ClientStats)> = Vec::new();
    for i in 0..v.len()
        invariant
            r@.len() == i,
            forall|j: int|
                0 <= j < i ==> (#[trigger] r@[j]).0 == v@[j].0 && r@[j].1@ == v@[j].1@,
    {
        let key = v[i].0;
        let cc = v[i].1.current_count;
        let tc = v[i].1.total_count;
        let avg = v[i].1.average_time_ms;
        let nm = crate::scheduler::clone_bytes(&v[i].1.name);
        r.push(
            (
                key,
                ClientStats { current_count: cc, total_count: tc, average_time_ms: avg, name: nm },
            ),
        );
    }
    proof {
        lemma_stats_view_points(r@);
        lemma_stats_view_points(v@);
        assert(stats_view(r@) =~= stats_view(v@));
    }
    r
}

impl Accumulator {
    /// Rotate the metadata side-channel on a new video segment: hand back
    /// the finished segment's log and sidecar filename (to be written out
    /// by the caller), and start the new segment's log with a snapshot of
    /// the current meta state.
    pub fn rotate_segment(&mut self, new_filename: Vec<u8>, ts_ms: u64) -> (r: (
        Vec<MetaAction>,
        Vec<u8>,
    ))
        requires
            old(self).wf(),
            ts_ms >= old(self).last_ts(),
            new_filename@.len() > 0,
        ensures
            final(self).wf(),
            r.0@ == old(self).actions@,
            r.1@ == old(self).segment_filename@,
            old(self).segment_filename@.len() > 0 ==> r.0@.len() >= 1 && (
            r.0@[0].payload matches MetaActionPayload::Snapshot(_)),
            forall|a: int, b: int|
                0 <= a <= b < r.0@.len() ==> (#[trigger] r.0@[a]).ts_ms <= (
                #[trigger] r.0@[b]).ts_ms,
            final(self).actions@.len() == 1,
            final(self).actions@[0].ts_ms == ts_ms,
            final(self).actions@[0].payload matches MetaActionPayload::Snapshot(snap),
            (final(self).actions@[0].payload matches MetaActionPayload::Snapshot(snap) ==> {
                &&& snap.tiles@ == old(self).tile_owner@
                &&& stats_view(snap.clients@) == old(self).clients_view()
                &&& snap.tiles_x == TILES_X
                &&& snap.tiles_y == TILES_Y
            }),
            final(self).segment_filename@ == new_filename@,
            final(self).pixels == old(self).pixels,
            final(self).stride == old(self).stride,
            final(self).offset == old(self).offset,
            final(self).frame_done == old(self).frame_done,
            final(self).tile_owner == old(self).tile_owner,
            final(self).clients == old(self).clients,
    {
        let snap = MetaSnapshot {
            tiles: clone_owner(&self.tile_owner),
            clients: clone_stats(&self.clients),
            tiles_x: TILES_X,
            tiles_y: TILES_Y,
        };
        let mut fresh: Vec<MetaAction> = Vec::new();
        fresh.push(MetaAction { ts_ms, payload: MetaActionPayload::Snapshot(snap) });
        std::mem::swap(&mut self.actions, &mut fresh);
        let mut name = new_filename;
        std::mem::swap(&mut self.segment_filename, &mut name);
        (fresh, name)
    }
}

/// The keys of the statistics table are exactly the owners on display:
/// a client appears in the table if and only if some tile slot shows it.
pub proof fn lemma_clients_match_owners(acc: Accumulator)
    requires
        acc.wf(),
    ensures
        forall|id: ClientId|
            #[trigger] assoc_has(acc.clients_view(), id) <==> exists|t: int|
                0 <= t < acc.tile_owner@.len() && acc.tile_owner@[t] == Some(id),
{
    assert forall|id: ClientId| #[trigger] assoc_has(acc.clients_view(), id) implies exists|t: int|
        0 <= t < acc.tile_owner@.len() && acc.tile_owner@[t] == Some(id) by {
        let w = assoc_index(acc.clients_view(), id);
        lemma_assoc_index_pins(acc.clients_view(), id, w);
        assert(acc.clients_view()[w].1.current_count >= 1);
        lemma_count_owned_exists(acc.tile_owner@, id);
    }
    assert forall|id: ClientId|
        (exists|t: int| 0 <= t < acc.tile_owner@.len() && acc.tile_owner@[t] == Some(id)) implies
        #[trigger] assoc_has(acc.clients_view(), id) by {
        let t = choose|t: int| 0 <= t < acc.tile_owner@.len() && acc.tile_owner@[t] == Some(id);
        assert(acc.tile_owner@[t] matches Some(o) ==> assoc_has(acc.clients_view(), o));
    }
}

} // verus!
