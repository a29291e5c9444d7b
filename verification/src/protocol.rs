//! Wire-level data model: the requests a worker may send, the responses the
//! coordinator returns, and the payload types they carry.
//!
//! Scalar components of vectors, colors and radii are held as the bit
//! patterns of IEEE 754 single-precision numbers. The coordinator never does
//! arithmetic on them — it only routes them between the renderer and the
//! workers — so it carries them opaquely, bit for bit. The caller converts
//! to and from native floating-point values at the boundary.
//!
//! Worker names travel as raw UTF-8 bytes; the coordinator stores and
//! compares them but never interprets them.

use vstd::prelude::*;

verus! {

/// Three scalar components (a point, a direction or an RGB color), each as
/// an IEEE 754 single-precision bit pattern.
#[derive(Clone, Copy, Debug, PartialEq, Eq, Structural)]
pub struct Vec3 {
    pub x: u32,
    pub y: u32,
    pub z: u32,
}

/// One camera ray: an origin and a unit-length direction.
#[derive(Clone, Copy, Debug, PartialEq, Eq, Structural)]
pub struct Ray {
    pub origin: Vec3,
    pub direction: Vec3,
}

/// One sphere of the scene.
#[derive(Clone, Copy, Debug, PartialEq, Eq, Structural)]
pub struct Sphere {
    pub center: Vec3,
    pub radius: u32,
}

/// The immutable scene snapshot rendered against: the frame it belongs to
/// and the spheres it contains.
#[derive(Clone, Debug, PartialEq)]
pub struct Scene {
    pub frame: u64,
    pub spheres: Vec<Sphere>,
}

/// Ghost image of a [`Scene`]: the same data over a mathematical sequence.
pub struct SceneView {
    pub frame: u64,
    pub spheres: Seq<Sphere>,
}

impl View for Scene {
    type V = SceneView;

    open spec fn view(&self) -> SceneView {
        SceneView { frame: self.frame, spheres: self.spheres@ }
    }
}

/// Outcome of tracing one ray: whether it hit anything, and optionally the
/// color seen along it. Workers that predate the color extension send only
/// the flag.
#[derive(Clone, Copy, Debug, PartialEq, Eq)]
pub struct TraceResult {
    pub hit: bool,
    pub color: Option<Vec3>,
}

/// A message from a worker to the coordinator.
#[derive(Clone, Debug, PartialEq)]
pub enum Request {
    /// Ask for a tile of rays to trace.
    ReserveRays,
    /// Return the traced results for the most recently reserved tile.
    SubmitResults(Vec<TraceResult>),
    /// Set the worker's display name (raw UTF-8 bytes).
    SetName(Vec<u8>),
}

/// Ghost image of a [`Request`].
pub enum RequestView {
    ReserveRays,
    SubmitResults(Seq<TraceResult>),
    SetName(Seq<u8>),
}

impl View for Request {
    type V = RequestView;

    open spec fn view(&self) -> RequestView {
        match self {
            Request::ReserveRays => RequestView::ReserveRays,
            Request::SubmitResults(results) => RequestView::SubmitResults(results@),
            Request::SetName(name) => RequestView::SetName(name@),
        }
    }
}

/// A message from the coordinator to a worker. Every request is answered by
/// exactly one response of the matching variant.
#[derive(Clone, Debug, PartialEq)]
pub enum Response {
    /// The rays of the reserved tile and the scene to trace them against.
    ReserveRays(Vec<Ray>, Scene),
    /// Acknowledges a submission.
    SubmitResults,
    /// Acknowledges a name change.
    SetName,
}

/// Ghost image of a [`Response`].
pub enum ResponseView {
    ReserveRays(Seq<Ray>, SceneView),
    SubmitResults,
    SetName,
}

impl View for Response {
    type V = ResponseView;

    open spec fn view(&self) -> ResponseView {
        match self {
            Response::ReserveRays(rays, scene) => ResponseView::ReserveRays(rays@, scene@),
            Response::SubmitResults => ResponseView::SubmitResults,
            Response::SetName => ResponseView::SetName,
        }
    }
}

/// Bit pattern of the single-precision number one.
pub const F32_ONE_BITS: u32 = 0x3F800000;

/// Bit pattern of the single-precision number zero.
pub const F32_ZERO_BITS: u32 = 0;

/// The color a result stands for: the reported color if present, white on a
/// bare hit, black on a miss.
pub open spec fn result_color(r: TraceResult) -> Vec3 {
    match r.color {
        Some(c) => c,
        None => if r.hit {
            Vec3 { x: F32_ONE_BITS, y: F32_ONE_BITS, z: F32_ONE_BITS }
        } else {
            Vec3 { x: F32_ZERO_BITS, y: F32_ZERO_BITS, z: F32_ZERO_BITS }
        },
    }
}

} // verus!
