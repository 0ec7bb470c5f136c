//! Geometry primitives: axis-aligned rectangles, 2D integer vectors, colors.

use vstd::prelude::*;

verus! {

/// An axis-aligned rectangle: signed position, non-negative extent.
#[derive(PartialEq, Eq, Clone, Copy, Hash, Debug, Structural)]
pub struct Rect {
    pub x: i32,
    pub y: i32,
    pub w: u16,
    pub h: u16,
}

impl Rect {
    pub open spec fn left(self) -> int {
        self.x as int
    }

    pub open spec fn right(self) -> int {
        self.x + self.w
    }

    pub open spec fn top(self) -> int {
        self.y as int
    }

    pub open spec fn bottom(self) -> int {
        self.y + self.h
    }

    /// Build the source frames of a sprite sheet row: `nframes` rectangles of
    /// size `w`×`h`, the `i`-th at `(i*w, row*h)`.
    pub fn create_frames(row: u16, nframes: u16, w: u16, h: u16) -> (frames: Vec<Rect>)
        requires
            nframes * w <= i32::MAX,
            row * h <= i32::MAX,
        ensures
            frames@.len() == nframes,
            forall|i: int|
                0 <= i < nframes ==> frames@[i] == (Rect {
                    x: (i * w) as i32,
                    y: (row * h) as i32,
                    w,
                    h,
                }),
    {
        let mut frames: Vec<Rect> = Vec::new();
        let yy: i32 = (row as i32) * (h as i32);
        for i in 0..nframes
            invariant
                nframes * w <= i32::MAX,
                row * h <= i32::MAX,
                yy == row * h,
                frames@.len() == i,
                forall|j: int|
                    0 <= j < i ==> frames@[j] == (Rect {
                        x: (j * w) as i32,
                        y: (row * h) as i32,
                        w,
                        h,
                    }),
        {
            assert(i * w <= nframes * w) by (nonlinear_arith)
                requires 0 <= i <= nframes, 0 <= w;
            let rect = Rect { x: (i as i32) * (w as i32), y: yy, w, h };
            frames.push(rect);
        }
        frames
    }
}

/// A 2D point or offset in world pixels.
#[derive(PartialEq, Eq, Clone, Copy, Hash, Debug, Structural)]
pub struct Vec2i(pub i32, pub i32);

/// An RGBA color.
#[derive(PartialEq, Eq, Clone, Copy, Hash, Debug, Structural)]
pub struct Rgba(pub u8, pub u8, pub u8, pub u8);

} // verus!
