//! The description of a level and the decoder of its wire format.
//!
//! A level travels as text: the base64 form of a raw DEFLATE stream. Expanded,
//! it is one version byte followed by records, each a tag byte and a payload:
//!
//! | tag | payload |
//! |---|---|
//! | 1 | the width, one byte |
//! | 2 | the height, one byte |
//! | 3 | `width * height` rule selectors, the one of cell `(x, y)` at `y * width + x` |
//! | 4 | `ceil(width * height / 8)` bytes of packed states, the one of cell `(x, y)` at bit `x * height + y` |
//! | 5 | the least number of clicks that the author knows of, four bytes, least significant first |
//! | 6 | none; the stream ends here |
//!
//! Any other tag byte is skipped.

use crate::bit_array::{unpacked, BitArray};
use crate::board::Board;
use crate::button::function_of_subtype;
use crate::codec::{base64_bytes, decode_base64, inflate, inflated, trim, trimmed};
use vstd::prelude::*;
use vstd::slice::slice_subrange;
use vstd::utf8::encode_utf8;

verus! {

/// Why a text or a byte stream is not a level.
#[derive(Debug, Clone, Copy, PartialEq, Eq, Structural)]
pub enum ParseError {
    /// The text is too long for the base64 decoder to take.
    TooLong,
    /// The text is not base64.
    Base64,
    /// The bytes are not a complete DEFLATE stream.
    Deflate,
    /// A record's payload runs past the end of the stream.
    Truncated,
}

/// A level as a mathematical value.
pub struct LevelModel {
    pub width: nat,
    pub height: nat,
    pub subtypes: Seq<u8>,
    pub states: Seq<bool>,
    pub min_clicks: nat,
}

impl LevelModel {
    /// The level holds a rule selector and a state for each cell, and its
    /// sizes and the number of its cells fit `i32`.
    pub open spec fn describes_grid(self) -> bool {
        &&& self.width <= i32::MAX
        &&& self.height <= i32::MAX
        &&& self.width * self.height <= i32::MAX
        &&& self.subtypes.len() >= self.width * self.height
        &&& self.states.len() >= self.width * self.height
    }

    /// The board that the level starts from.
    pub open spec fn board(self) -> Board {
        Board {
            width: self.width as int,
            height: self.height as int,
            funcs: Seq::new(
                self.width * self.height,
                |i: int| function_of_subtype(self.subtypes[i]),
            ),
            cells: self.states.take((self.width * self.height) as int),
        }
    }
}

/// A level: the size of its grid, the rule selector of each cell, the initial
/// states, and the author's hint of how few clicks solve it.
#[derive(Debug)]
pub struct ToggleLevel {
    pub width: u32,
    pub height: u32,
    pub subtypes: Vec<u8>,
    pub states: BitArray,
    pub min_clicks: u32,
}

impl View for ToggleLevel {
    type V = LevelModel;

    open spec fn view(&self) -> LevelModel {
        LevelModel {
            width: self.width as nat,
            height: self.height as nat,
            subtypes: self.subtypes@,
            states: self.states@,
            min_clicks: self.min_clicks as nat,
        }
    }
}

impl ToggleLevel {
    /// The level can be made into a grid.
    pub open spec fn wf(&self) -> bool {
        self.states.wf() && self@.describes_grid()
    }

    /// A level without cells.
    pub fn new() -> (level: ToggleLevel)
        ensures
            level.states.wf(),
            level@ == (LevelModel {
                width: 0,
                height: 0,
                subtypes: Seq::empty(),
                states: Seq::empty(),
                min_clicks: 0,
            }),
    {
        let level = ToggleLevel {
            width: 0,
            height: 0,
            min_clicks: 0,
            subtypes: Vec::new(),
            states: BitArray::new(0),
        };
        proof {
            assert(level.states@ =~= Seq::empty());
        }
        level
    }

    /// Whether the level can be made into a grid.
    pub fn is_valid(&self) -> (valid: bool)
        requires
            self.states.wf(),
        ensures
            valid == self.wf(),
    {
        proof {
            assert(self.width * self.height <= 0xffff_ffff * 0xffff_ffff) by (nonlinear_arith)
                requires
                    0 <= self.width <= 0xffff_ffff,
                    0 <= self.height <= 0xffff_ffff,
            ;
        }
        let cells: u64 = (self.width as u64) * (self.height as u64);
        self.width <= 0x7fff_ffff && self.height <= 0x7fff_ffff && cells <= 0x7fff_ffff
            && self.subtypes.len() as u64 >= cells && self.states.len() as u64 >= cells
    }
}

/// The number that four bytes stand for, least significant byte first.
pub open spec fn le_u32(b0: u8, b1: u8, b2: u8, b3: u8) -> nat {
    (b0 + 256 * b1 + 65536 * b2 + 16777216 * b3) as nat
}

/// The level that stands before any record is read: one cell wide and high.
pub open spec fn blank_level() -> LevelModel {
    LevelModel { width: 1, height: 1, subtypes: Seq::empty(), states: Seq::empty(), min_clicks: 0 }
}

/// What the records of `x` from index `i` on make of the level `so_far`, or
/// `Truncated` where a payload runs past the end of `x`.
pub open spec fn decode_records(x: Seq<u8>, i: int, so_far: LevelModel) -> Result<
    LevelModel,
    ParseError,
>
    decreases x.len() - i,
{
    let cells = so_far.width * so_far.height;
    let packed_len = (cells + 7) / 8;
    if i < 0 || i >= x.len() {
        Ok(so_far)
    } else if x[i] == 1 {
        if i + 1 >= x.len() {
            Err(ParseError::Truncated)
        } else {
            decode_records(x, i + 2, LevelModel { width: x[i + 1] as nat, ..so_far })
        }
    } else if x[i] == 2 {
        if i + 1 >= x.len() {
            Err(ParseError::Truncated)
        } else {
            decode_records(x, i + 2, LevelModel { height: x[i + 1] as nat, ..so_far })
        }
    } else if x[i] == 3 {
        if i + 1 + cells > x.len() {
            Err(ParseError::Truncated)
        } else {
            decode_records(
                x,
                i + 1 + cells,
                LevelModel {
                    subtypes: so_far.subtypes + x.subrange(i + 1, i + 1 + cells),
                    ..so_far
                },
            )
        }
    } else if x[i] == 4 {
        if i + 1 + packed_len > x.len() {
            Err(ParseError::Truncated)
        } else {
            decode_records(
                x,
                i + 1 + packed_len,
                LevelModel { states: unpacked(x.subrange(i + 1, i + 1 + packed_len)), ..so_far },
            )
        }
    } else if x[i] == 5 {
        if i + 5 > x.len() {
            Err(ParseError::Truncated)
        } else {
            decode_records(
                x,
                i + 5,
                LevelModel { min_clicks: le_u32(x[i + 1], x[i + 2], x[i + 3], x[i + 4]), ..so_far },
            )
        }
    } else if x[i] == 6 {
        Ok(so_far)
    } else {
        decode_records(x, i + 1, so_far)
    }
}

/// The level that the byte stream `x` describes: its first byte, the version
/// of the format, is skipped, and the records that follow are read in turn.
/// A stream may leave records out; whether the level holds a rule selector and
/// a state for each cell is a question for `ToggleLevel::is_valid`.
pub open spec fn decode_level(x: Seq<u8>) -> Result<LevelModel, ParseError> {
    decode_records(x, 1, blank_level())
}

/// The length of `text` in bytes, as `str::len` reports it.
pub open spec fn text_len(text: Seq<char>) -> usize {
    encode_utf8(text).len() as usize
}

/// The level that the text `text` describes: the text is trimmed, read as
/// base64, expanded as a DEFLATE stream and decoded. A text within eight bytes
/// of the largest length there is is not read at all.
pub open spec fn decode_text(text: Seq<char>) -> Result<LevelModel, ParseError> {
    if text_len(text) + 8 > usize::MAX {
        Err(ParseError::TooLong)
    } else {
        match base64_bytes(trimmed(text)) {
            None => Err(ParseError::Base64),
            Some(compressed) => match inflated(compressed) {
                None => Err(ParseError::Deflate),
                Some(raw) => decode_level(raw),
            },
        }
    }
}

/// Whether `result` is the decoder's way to hand `outcome` back: the same
/// error, or a level whose model is the one of `outcome`.
pub open spec fn hands_back(
    result: Result<ToggleLevel, ParseError>,
    outcome: Result<LevelModel, ParseError>,
) -> bool {
    match result {
        Ok(level) => outcome == Ok::<LevelModel, ParseError>(level@) && level.states.wf(),
        Err(e) => outcome == Err::<LevelModel, ParseError>(e),
    }
}

/// Decodes the byte stream of a level. The level is what the records say,
/// whether or not they describe a whole grid: `ToggleLevel::is_valid` tests
/// that.
pub fn parse_toggle(x: &Vec<u8>) -> (result: Result<ToggleLevel, ParseError>)
    ensures
        hands_back(result, decode_level(x@)),
{
    let mut result = ToggleLevel::new();
    result.width = 1;
    result.height = 1;
    let mut i: usize = 1;
    let mut should_escape = false;
    while i < x.len() && !should_escape
        invariant
            1 <= i,
            result.states.wf(),
            result.width <= 255,
            result.height <= 255,
            decode_records(x@, 1, blank_level()) == (if should_escape {
                Ok::<LevelModel, ParseError>(result@)
            } else {
                decode_records(x@, i as int, result@)
            }),
        decreases x.len() - i + (if should_escape { 0int } else { 1int }),
    {
        proof {
            assert(result.width * result.height <= 255 * 255) by (nonlinear_arith)
                requires
                    0 <= result.width <= 255,
                    0 <= result.height <= 255,
            ;
        }
        let tag = x[i];
        let cells: usize = (result.width * result.height) as usize;
        let rest: usize = x.len() - i - 1;
        if tag == 1 {
            if rest < 1 {
                return Err(ParseError::Truncated);
            }
            result.width = x[i + 1] as u32;
            i += 2;
        } else if tag == 2 {
            if rest < 1 {
                return Err(ParseError::Truncated);
            }
            result.height = x[i + 1] as u32;
            i += 2;
        } else if tag == 3 {
            if rest < cells {
                return Err(ParseError::Truncated);
            }
            let ghost before = result.subtypes@;
            let ghost level_before = result@;
            let mut k: usize = 0;
            while k < cells
                invariant
                    k <= cells,
                    i + 1 + cells <= x.len(),
                    result.subtypes@ == before + x@.subrange(i + 1, i + 1 + k),
                    result.states.wf(),
                    result@ == (LevelModel { subtypes: result.subtypes@, ..level_before }),
                decreases cells - k,
            {
                result.subtypes.push(x[i + 1 + k]);
                k += 1;
                proof {
                    assert(result.subtypes@ =~= before + x@.subrange(i + 1, i + 1 + k));
                }
            }
            i += 1 + cells;
        } else if tag == 4 {
            let packed_len: usize = (cells + 7) / 8;
            if rest < packed_len {
                return Err(ParseError::Truncated);
            }
            let payload = slice_subrange(x.as_slice(), i + 1, i + 1 + packed_len);
            result.states = BitArray::from(payload);
            i += 1 + packed_len;
        } else if tag == 5 {
            if rest < 4 {
                return Err(ParseError::Truncated);
            }
            result.min_clicks = x[i + 1] as u32 + 256 * (x[i + 2] as u32) + 65536 * (x[i + 3] as u32)
                + 16777216 * (x[i + 4] as u32);
            i += 5;
        } else if tag == 6 {
            should_escape = true;
        } else {
            i += 1;
        }
    }
    Ok(result)
}

/// Decodes the text of a level. As with `parse_toggle`, the level is what the
/// records say.
pub fn parse(text: String) -> (result: Result<ToggleLevel, ParseError>)
    ensures
        hands_back(result, decode_text(text@)),
{
    let whole = text.as_str();
    if whole.len() > usize::MAX - 8 {
        return Err(ParseError::TooLong);
    }
    match decode_base64(trim(whole)) {
        Err(_) => Err(ParseError::Base64),
        Ok(compressed) => match inflate(&compressed) {
            Err(_) => Err(ParseError::Deflate),
            Ok(raw) => parse_toggle(&raw),
        },
    }
}

} // verus!
