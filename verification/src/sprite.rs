//! Movable sprites: an animated rectangle with a velocity.

use vstd::prelude::*;
use crate::animation::Animation;
use crate::animation::AnimationState;
use crate::types::Rect;
use crate::types::Vec2i;

verus! {

/// An index naming a sprite.
#[derive(PartialEq, Eq, Clone, Copy, Debug, Structural)]
pub struct SpriteID(pub usize);

/// A moving body: current rectangle plus velocity, with its animation.
#[derive(Clone, Debug)]
pub struct Sprite {
    pub animation: Animation,
    pub animation_state: AnimationState,
    pub rect: Rect,
    pub vx: i32,
    pub vy: i32,
}

impl Sprite {
    /// Is the sprite's rectangle within the screen: horizontally entirely
    /// inside, vertically at least touching?
    pub open spec fn spec_on_screen(self, camera: Vec2i, height: int, width: int) -> bool {
        &&& self.rect.left() >= camera.0
        &&& self.rect.right() <= camera.0 + width
        &&& self.rect.bottom() >= camera.1
        &&& self.rect.top() <= camera.1 + height
    }

    pub fn new(animation: Animation, state: AnimationState, rect: Rect, vx: i32, vy: i32) -> (r:
        Sprite)
        ensures
            r.animation == animation,
            r.animation_state == state,
            r.rect == rect,
            r.vx == vx,
            r.vy == vy,
    {
        Sprite { animation, animation_state: state, rect, vx, vy }
    }

    /// Advance the animation one tick: wrap around for a looping animation,
    /// mark a finished one done.
    pub fn tick_forward(&mut self)
        requires
            old(self).animation.looping ==> old(self).animation.duration > 0,
            old(self).animation_state.current_tick < usize::MAX,
        ensures
            final(self).animation == old(self).animation,
            final(self).rect == old(self).rect,
            final(self).vx == old(self).vx,
            final(self).vy == old(self).vy,
            ({
                let t = old(self).animation_state.current_tick + 1;
                if old(self).animation.looping {
                    &&& final(self).animation_state.current_tick == t % (
                    old(self).animation.duration as int)
                    &&& final(self).animation_state.done == old(self).animation_state.done
                } else if t > old(self).animation.duration {
                    &&& final(self).animation_state.current_tick == t
                    &&& final(self).animation_state.done
                } else {
                    &&& final(self).animation_state.current_tick == t
                    &&& final(self).animation_state.done == old(self).animation_state.done
                }
            }),
    {
        self.animation_state.current_tick = self.animation_state.current_tick + 1;
        let mut current_tick = self.animation_state.current_tick;
        if self.animation.looping {
            current_tick = current_tick % self.animation.duration;
        } else if current_tick > self.animation.duration {
            self.animation_state.done = true;
        }
        self.animation_state.current_tick = current_tick;
    }

    /// Whether the sprite is still visible from the camera.
    pub fn on_screen(&self, camera_position: Vec2i, screen_height: usize, screen_width: usize) -> (b:
        bool)
        requires
            screen_height <= i32::MAX,
            screen_width <= i32::MAX,
        ensures
            b == self.spec_on_screen(
                camera_position,
                screen_height as int,
                screen_width as int,
            ),
    {
        let x_on = self.rect.x as i64 >= camera_position.0 as i64 && self.rect.x as i64
            + self.rect.w as i64 <= camera_position.0 as i64 + screen_width as i64;
        let y_on = self.rect.y as i64 + self.rect.h as i64 >= camera_position.1 as i64
            && self.rect.y as i64 <= camera_position.1 as i64 + screen_height as i64;
        x_on && y_on
    }
}

} // verus!
