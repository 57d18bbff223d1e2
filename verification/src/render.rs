//! Grids and bit arrays as text, for display.

use crate::bit_array::{bit_or_pad, BitArray};
use crate::board::Board;
use crate::grid::Grid;
use vstd::prelude::*;
use vstd::string::StringExecFns;

verus! {

/// The first `upto` cells of row `y` of `board` as text: `O` for a cell that
/// is on and `.` for one that is off, each followed by a space.
pub open spec fn row_text(board: Board, y: int, upto: int) -> Seq<char>
    decreases upto,
{
    if upto <= 0 {
        Seq::empty()
    } else {
        row_text(board, y, upto - 1) + (if board.on(upto - 1, y) {
            "O "@
        } else {
            ". "@
        })
    }
}

/// The `upto` highest rows of `board` as text, the highest first, each row
/// ended by a line feed.
pub open spec fn rows_text(board: Board, upto: int) -> Seq<char>
    decreases upto,
{
    if upto <= 0 {
        Seq::empty()
    } else {
        rows_text(board, upto - 1) + row_text(board, board.height - upto, board.width) + "\n"@
    }
}

/// The first `upto` digits of the group that the text of a bit array has for
/// its byte `j`: the bits of the byte from the highest to the lowest, `1` for
/// a bit that is on.
pub open spec fn digits_text(bits: Seq<bool>, j: int, upto: int) -> Seq<char>
    decreases upto,
{
    if upto <= 0 {
        Seq::empty()
    } else {
        digits_text(bits, j, upto - 1) + (if bit_or_pad(bits, 8 * j + 8 - upto) {
            "1"@
        } else {
            "0"@
        })
    }
}

/// How many digits the group of byte `j` has: eight, but no more than there
/// are bits from the first bit of the byte on, and one.
pub open spec fn digits_len(bits: Seq<bool>, j: int) -> int {
    if bits.len() - 8 * j + 1 < 8 {
        bits.len() - 8 * j + 1
    } else {
        8
    }
}

/// The groups of the first `upto` bytes of a bit array as text, each group
/// followed by a space.
pub open spec fn groups_text(bits: Seq<bool>, upto: int) -> Seq<char>
    decreases upto,
{
    if upto <= 0 {
        Seq::empty()
    } else {
        groups_text(bits, upto - 1) + digits_text(bits, upto - 1, digits_len(bits, upto - 1))
            + " "@
    }
}

impl Grid {
    /// The grid as text: one line for each row, the highest row first.
    pub fn render(&self) -> (text: String)
        requires
            self.wf(),
        ensures
            text@ == rows_text(self@, self@.height),
    {
        let mut text = String::new();
        let height = self.height();
        let width = self.width();
        proof {
            self.lemma_view_wf();
        }
        let mut y: i32 = 0;
        while y < height
            invariant
                self.wf(),
                height == self@.height,
                width == self@.width,
                0 <= width,
                0 <= y <= height,
                text@ == rows_text(self@, y as int),
            decreases height - y,
        {
            let inv_y = height - y - 1;
            let ghost done = text@;
            let mut x: i32 = 0;
            while x < width
                invariant
                    self.wf(),
                    height == self@.height,
                    width == self@.width,
                    0 <= y < height,
                    inv_y == height - y - 1,
                    0 <= x <= width,
                    text@ == done + row_text(self@, inv_y as int, x as int),
                decreases width - x,
            {
                if self.get_cell(x, inv_y) {
                    text.append("O ");
                } else {
                    text.append(". ");
                }
                x += 1;
            }
            text.append("\n");
            y += 1;
        }
        text
    }
}

impl BitArray {
    /// The array as text: the word `output:`, then for each byte a group of
    /// binary digits, then a line feed. A group shows the bits of its byte
    /// from the highest to the lowest.
    pub fn render(&self) -> (text: String)
        requires
            self.wf(),
        ensures
            text@ == "output: "@ + groups_text(self@, (self@.len() + 7) as int / 8) + "\n"@,
    {
        let mut text = String::new();
        text.append("output: ");
        let len = self.len();
        let bytes: usize = len / 8 + if len % 8 != 0 { 1 } else { 0 };
        let mut i: usize = 0;
        while i < bytes
            invariant
                self.wf(),
                len == self@.len(),
                bytes == (len + 7) / 8,
                0 <= i <= bytes,
                text@ == "output: "@ + groups_text(self@, i as int),
            decreases bytes - i,
        {
            let ghost done = text@;
            let mut k: usize = 0;
            while k < 8 && i * 8 + k <= len
                invariant
                    self.wf(),
                    len == self@.len(),
                    0 <= i < bytes,
                    bytes == (len + 7) / 8,
                    0 <= k <= 8,
                    k <= digits_len(self@, i as int),
                    text@ == done + digits_text(self@, i as int, k as int),
                decreases 8 - k,
            {
                let pos = i * 8 + 7 - k;
                let bit = pos < len && self.get(pos);
                if bit {
                    text.append("1");
                } else {
                    text.append("0");
                }
                k += 1;
            }
            text.append(" ");
            i += 1;
        }
        text.append("\n");
        text
    }
}

} // verus!
