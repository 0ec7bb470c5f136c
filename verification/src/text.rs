//! Bitmap-font text: glyph positions in an ASCII sheet, and measured lines
//! of text.

use vstd::prelude::*;
use crate::types::Rect;
use crate::types::Vec2i;

verus! {

/// Pixel size of one glyph cell in the font sheet.
pub const CHAR_SIZE: usize = 16;

/// Glyphs per row of the font sheet.
pub const COLUMNS: u32 = 16;

/// A fixed-size bitmap font laid out as a 16-column ASCII sheet.
#[derive(PartialEq, Eq, Clone, Copy, Debug, Structural)]
pub struct Font {}

impl Font {
    /// The sheet frame of a printable character: the sheet is filled
    /// row-major from the space character on, sixteen glyphs per row, with
    /// the first column of each row shifted to the row's far end.
    pub fn char_to_pos(&self, c: char) -> (r: Rect)
        requires
            32 <= c as u32,
        ensures
            r.w == CHAR_SIZE as u16,
            r.h == CHAR_SIZE as u16,
            r.y == ((c as u32 - 32) / (COLUMNS as int)) * (CHAR_SIZE as int),
            ({
                let x0 = ((c as u32 - 31) % (COLUMNS as int)) * (CHAR_SIZE as int) - CHAR_SIZE;
                r.x == if x0 < 0 {
                    x0 + CHAR_SIZE * COLUMNS
                } else {
                    x0
                }
            }),
    {
        let n = c as u32;
        let x0 = (((n - 31) % COLUMNS) * (CHAR_SIZE as u32)) as i32 - CHAR_SIZE as i32;
        let x = if x0 < 0 {
            x0 + (CHAR_SIZE as i32) * (COLUMNS as i32)
        } else {
            x0
        };
        let y = (((n - 32) / COLUMNS) * (CHAR_SIZE as u32)) as i32;
        proof {
            assert((n - 31) as u32 % COLUMNS < COLUMNS) by (nonlinear_arith)
                requires COLUMNS > 0;
            assert(((n - 31) as u32 % COLUMNS) * CHAR_SIZE <= 16 * 16) by (nonlinear_arith)
                requires (n - 31) as u32 % COLUMNS < 16, CHAR_SIZE == 16;
            assert(((n - 32) as u32 / COLUMNS) * CHAR_SIZE <= (n - 32) * CHAR_SIZE)
                by (nonlinear_arith)
                requires COLUMNS > 0, CHAR_SIZE > 0, n >= 32;
            assert((n - 32) * CHAR_SIZE <= 0x110000 * 16) by (nonlinear_arith)
                requires 32 <= n <= 0x10FFFF, CHAR_SIZE == 16;
        }
        Rect { x, y, w: CHAR_SIZE as u16, h: CHAR_SIZE as u16 }
    }
}

/// A measured line of text: its message, screen position, and pixel length.
pub struct Text {
    pub font: Font,
    pub message: String,
    pub pos: Vec2i,
    pub length: usize,
}

impl Text {
    /// Measure a line of ASCII text: one glyph cell per character.
    pub fn new(font: Font, message: &str, pos: Vec2i) -> (r: Text)
        requires
            message@.len() * CHAR_SIZE <= usize::MAX,
            message.is_ascii(),
        ensures
            r.font == font,
            r.message@ == message@,
            r.pos == pos,
            r.length == message@.len() * CHAR_SIZE,
    {
        proof {
            vstd::string::is_ascii_spec_bytes(message);
        }
        let length = message.len() * CHAR_SIZE;
        Text { font, message: message.to_owned(), pos, length }
    }
}

} // verus!
