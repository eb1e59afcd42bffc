//! A software scan converter.
//!
//! An ordered list of integer vertices is read under a drawing primitive
//! (points, lines, line strips and loops, filled triangles, triangle
//! outlines) and turned into the pixels that draw it, clipped to a display
//! of a fixed size. Lines are drawn by Bresenham's integer algorithm,
//! triangles are filled scanline by scanline between two edges walked at the
//! same time.
//!
//! The contracts speak of the result as a sequence: the order in which a
//! primitive draws its pixels is part of what is proved.

use vstd::prelude::*;

pub mod clip;
pub mod dyadic;
pub mod fill;
pub mod line;
pub mod raster;
pub mod seqs;
pub mod split;
pub mod strip;
pub mod text;
pub mod triangle;

verus! {

/// How a vertex list is grouped into shapes.
#[derive(Debug, Clone, Copy, PartialEq, Eq, Structural)]
pub enum Primitive {
    /// Treat each vertex as defining a point, won't draw any lines
    Point,
    /// Treat each separate pair of adjacent vertices as defining a line
    /// eg. vertices 0 and 1 are a line, 2 and 3 are a line, ...
    /// An unmatched vertex at the end will be ignored
    Line,
    /// All pairs of adjacent vertices are considered as defining a line
    /// eg. vertices 0 and 1 are a line, 1 and 2 are a line, ...
    /// If only one vertex is given nothing will be drawn
    LineStrip,
    /// Same as LineStrip, but connects the first and last vertex
    /// Essentially the same as drawing a polygon
    LineLoop,
    /// Reserved for a loop that is filled. Nothing is drawn for it yet.
    LineLoopFilled,
    /// Treat each separate 3-tuple of vertices as defining a triangle
    /// eg. vertices 0, 1, and 2 are a triangle; 3, 4, and 5 are a triangle, ...
    /// Unmatched vertices are ignored
    Triangle,
    /// All 3-tuples of adjacent vertices define a triangle
    /// eg. vertices 0, 1, and 2 are a triangle; 1, 2, and 3 are a triangle, ...
    /// If less than 3 vertices are given nothing is drawn
    TriangleStrip,
    /// Same grouping as Triangle, but only the three edges are drawn
    TriangleWire,
    /// Same grouping as TriangleStrip, but only the three edges are drawn
    TriangleWireStrip,
}

/// A point with integer coordinates. It may lie outside the display.
#[derive(Debug, Clone, Copy)]
pub struct Vertex {
    pub x: isize,
    pub y: isize,
}

/// A pixel: a position and a colour.
#[derive(Debug, Clone, Copy, PartialEq, Eq)]
pub struct Pixel {
    /// X coordinate
    pub x: isize,
    /// Y coordinate
    pub y: isize,
    /// RGBA color
    pub color: (u8, u8, u8, u8),
}

/// Main configuration for the renderer
#[derive(Debug, Clone, Copy)]
pub struct Config {
    /// Width of the display
    pub display_width: usize,
    /// Height of the display
    pub display_height: usize,
    /// Primitive to target
    pub primitive: Primitive,
}

impl Config {
    /// A configuration for a display of the given size and the given
    /// primitive.
    pub fn new(width: usize, height: usize, primitive: Primitive) -> (cfg: Self)
        ensures
            cfg.display_width == width,
            cfg.display_height == height,
            cfg.primitive == primitive,
    {
        Self { display_width: width, display_height: height, primitive }
    }
}

/// An ordered list of vertices. The order says how the vertices connect
/// under the primitive they are drawn as.
#[derive(Debug, Clone)]
pub struct VertexBuffer {
    vertices: Vec<Vertex>,
}

impl View for VertexBuffer {
    type V = Seq<Vertex>;

    closed spec fn view(&self) -> Seq<Vertex> {
        self.vertices@
    }
}

impl std::ops::Deref for VertexBuffer {
    type Target = Vec<Vertex>;

    /// The vertices, in order.
    fn deref(&self) -> (v: &Vec<Vertex>)
        ensures
            v@ == self@,
    {
        &self.vertices
    }
}

impl From<Vec<Vertex>> for VertexBuffer {
    /// A buffer that holds the vertices of `v`, in order.
    fn from(v: Vec<Vertex>) -> (buf: Self)
        ensures
            buf@ == v@,
    {
        Self { vertices: v }
    }
}

impl vstd::std_specs::convert::FromSpecImpl<Vec<Vertex>> for VertexBuffer {
    open spec fn obeys_from_spec() -> bool {
        true
    }

    closed spec fn from_spec(v: Vec<Vertex>) -> Self {
        VertexBuffer { vertices: v }
    }
}

/// An ordered list of pixels. A pixel may occur more than once.
#[derive(Debug, Clone)]
pub struct PixelBuffer {
    pixels: Vec<Pixel>,
}

impl View for PixelBuffer {
    type V = Seq<Pixel>;

    closed spec fn view(&self) -> Seq<Pixel> {
        self.pixels@
    }
}

impl std::ops::Deref for PixelBuffer {
    type Target = Vec<Pixel>;

    /// The pixels, in order.
    fn deref(&self) -> (v: &Vec<Pixel>)
        ensures
            v@ == self@,
    {
        &self.pixels
    }
}

impl From<Vec<Pixel>> for PixelBuffer {
    /// A buffer that holds the pixels of `v`, in order.
    fn from(v: Vec<Pixel>) -> (buf: Self)
        ensures
            buf@ == v@,
    {
        Self { pixels: v }
    }
}

impl vstd::std_specs::convert::FromSpecImpl<Vec<Pixel>> for PixelBuffer {
    open spec fn obeys_from_spec() -> bool {
        true
    }

    closed spec fn from_spec(v: Vec<Pixel>) -> Self {
        PixelBuffer { pixels: v }
    }
}

} // verus!
