//! A scrolling backdrop: a screen-sized window into a wider image.

use vstd::prelude::*;
use crate::types::Rect;

verus! {

/// A backdrop: the source frame currently shown, sliding over an image of
/// `image_width` pixels.
#[derive(PartialEq, Eq, Clone, Copy, Debug, Structural)]
pub struct Background {
    pub frame: Rect,
    pub image_width: usize,
}

impl Background {
    /// A backdrop showing the image's left edge at the given screen size.
    pub fn new(image_width: usize, width: usize, height: usize) -> (r: Background)
        requires
            width <= u16::MAX,
            height <= u16::MAX,
        ensures
            r.frame == (Rect { x: 0, y: 0, w: width as u16, h: height as u16 }),
            r.image_width == image_width,
    {
        Background {
            frame: Rect { x: 0, y: 0, w: width as u16, h: height as u16 },
            image_width,
        }
    }

    /// Slide the window one pixel right, stopping at the image's far edge.
    pub fn tick_right(&mut self, w: usize)
        requires
            0 <= old(self).frame.x,
            old(self).frame.x + w <= usize::MAX,
            old(self).image_width <= i32::MAX,
        ensures
            final(self).image_width == old(self).image_width,
            final(self).frame.y == old(self).frame.y,
            final(self).frame.w == old(self).frame.w,
            final(self).frame.h == old(self).frame.h,
            final(self).frame.x == if old(self).frame.x + w < old(self).image_width {
                old(self).frame.x + 1
            } else {
                old(self).frame.x as int
            },
    {
        if self.frame.x as usize + w < self.image_width {
            self.frame.x = self.frame.x + 1;
        }
    }
}

} // verus!
