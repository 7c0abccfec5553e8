//! Byte positions and the per-character records that a source file keeps.

use vstd::prelude::*;

verus! {

/// An absolute byte position inside a source map.
#[derive(Clone, Copy, PartialEq, Eq, Structural, Hash, PartialOrd, Ord, Debug)]
pub struct BytePos(pub u32);

impl Default for BytePos {
    fn default() -> (r: BytePos)
        ensures
            r.0 == 0,
    {
        BytePos(0)
    }
}

/// Conversions between a position type and plain integers.
pub trait Pos: Sized {
    fn from_usize(n: usize) -> Self;

    fn to_usize(&self) -> usize;

    fn from_u32(n: u32) -> Self;

    fn to_u32(&self) -> u32;
}

impl Pos for BytePos {
    /// Keeps the low 32 bits of `n`.
    fn from_usize(n: usize) -> (r: BytePos)
        ensures
            r.0 == n as u32,
    {
        BytePos(n as u32)
    }

    fn to_usize(&self) -> (r: usize)
        ensures
            r == self.0,
    {
        self.0 as usize
    }

    fn from_u32(n: u32) -> (r: BytePos)
        ensures
            r.0 == n,
    {
        BytePos(n)
    }

    fn to_u32(&self) -> (r: u32)
        ensures
            r == self.0,
    {
        self.0
    }
}

/// The sum of two positions, modulo 2^32.
pub open spec fn pos_add(a: BytePos, b: BytePos) -> BytePos {
    BytePos(((a.0 as int + b.0 as int) % 0x1_0000_0000) as u32)
}

impl core::ops::Add for BytePos {
    type Output = BytePos;

    fn add(self, rhs: BytePos) -> (r: BytePos) {
        let sum: u64 = self.0 as u64 + rhs.0 as u64;
        BytePos((sum % 0x1_0000_0000) as u32)
    }
}

impl vstd::std_specs::ops::AddSpecImpl for BytePos {
    open spec fn obeys_add_spec() -> bool {
        true
    }

    open spec fn add_req(self, rhs: BytePos) -> bool {
        true
    }

    open spec fn add_spec(self, rhs: BytePos) -> BytePos {
        pos_add(self, rhs)
    }
}

impl core::ops::Sub for BytePos {
    type Output = BytePos;

    fn sub(self, rhs: BytePos) -> (r: BytePos) {
        BytePos(self.0 - rhs.0)
    }
}

impl vstd::std_specs::ops::SubSpecImpl for BytePos {
    open spec fn obeys_sub_spec() -> bool {
        true
    }

    /// Subtracting a larger position underflows.
    open spec fn sub_req(self, rhs: BytePos) -> bool {
        rhs.0 <= self.0
    }

    open spec fn sub_spec(self, rhs: BytePos) -> BytePos {
        BytePos((self.0 - rhs.0) as u32)
    }
}

/// The cache that speeds up repeated offset queries on one source file:
/// the last queried position, the extra bytes of the multi-byte characters
/// before it, and how many multi-byte characters lie before it.
#[derive(Debug, Clone)]
pub struct ByteToCharPosState {
    pub pos: BytePos,
    pub total_extra_bytes: u32,
    pub mbc_index: usize,
}

impl Default for ByteToCharPosState {
    fn default() -> (r: ByteToCharPosState)
        ensures
            r.pos.0 == 0,
            r.total_extra_bytes == 0,
            r.mbc_index == 0,
    {
        ByteToCharPosState { pos: BytePos(0), total_extra_bytes: 0, mbc_index: 0 }
    }
}

/// A character whose UTF-8 encoding takes more than one byte.
#[derive(Copy, Clone, PartialEq, Eq, Structural, Debug)]
pub struct MultiByteChar {
    pub pos: BytePos,
    pub bytes: u8,
}

/// How many more UTF-8 bytes than UTF-16 code units a character of
/// `bytes` UTF-8 bytes takes.
pub open spec fn extra_units(bytes: u8) -> int {
    if bytes == 4 {
        2
    } else {
        bytes - 1
    }
}

impl MultiByteChar {
    pub fn byte_to_char_diff(&self) -> (r: u8)
        requires
            self.bytes >= 1,
        ensures
            r == extra_units(self.bytes),
    {
        if self.bytes == 4 {
            2
        } else {
            self.bytes - 1
        }
    }
}

/// A character whose display width is not one column.
#[derive(Copy, Clone, Eq, PartialEq, Structural, Debug)]
pub enum NonNarrowChar {
    /// Represents a zero-width character
    ZeroWidth(BytePos),
    /// Represents a wide (fullwidth) character
    Wide(BytePos),
    /// Represents a tab character, represented visually with a width of 4
    /// characters
    Tab(BytePos),
}

impl NonNarrowChar {
    pub open spec fn spec_pos(self) -> BytePos {
        match self {
            NonNarrowChar::ZeroWidth(p) => p,
            NonNarrowChar::Wide(p) => p,
            NonNarrowChar::Tab(p) => p,
        }
    }

    pub open spec fn spec_width(self) -> usize {
        match self {
            NonNarrowChar::ZeroWidth(_) => 0,
            NonNarrowChar::Wide(_) => 2,
            NonNarrowChar::Tab(_) => 4,
        }
    }

    /// The record of a character at `pos` that is `width` columns wide;
    /// only the widths 0, 2 and 4 have one.
    pub fn new(pos: BytePos, width: usize) -> (r: NonNarrowChar)
        requires
            width == 0 || width == 2 || width == 4,
        ensures
            r.spec_pos() == pos,
            r.spec_width() == width,
    {
        match width {
            0 => NonNarrowChar::ZeroWidth(pos),
            2 => NonNarrowChar::Wide(pos),
            _ => NonNarrowChar::Tab(pos),
        }
    }

    /// Returns the absolute offset of the character in the SourceMap
    pub fn pos(self) -> (r: BytePos)
        ensures
            r == self.spec_pos(),
    {
        match self {
            NonNarrowChar::ZeroWidth(p) | NonNarrowChar::Wide(p) | NonNarrowChar::Tab(p) => p,
        }
    }

    /// Returns the width of the character, 0 (zero-width) or 2 (wide)
    pub fn width(self) -> (r: usize)
        ensures
            r == self.spec_width(),
    {
        match self {
            NonNarrowChar::ZeroWidth(_) => 0,
            NonNarrowChar::Wide(_) => 2,
            NonNarrowChar::Tab(_) => 4,
        }
    }

    /// The same kind of record at another position.
    pub open spec fn with_pos(self, p: BytePos) -> NonNarrowChar {
        match self {
            NonNarrowChar::ZeroWidth(_) => NonNarrowChar::ZeroWidth(p),
            NonNarrowChar::Wide(_) => NonNarrowChar::Wide(p),
            NonNarrowChar::Tab(_) => NonNarrowChar::Tab(p),
        }
    }
}

impl core::ops::Add<BytePos> for NonNarrowChar {
    type Output = Self;

    fn add(self, rhs: BytePos) -> (r: Self) {
        match self {
            NonNarrowChar::ZeroWidth(pos) => NonNarrowChar::ZeroWidth(pos + rhs),
            NonNarrowChar::Wide(pos) => NonNarrowChar::Wide(pos + rhs),
            NonNarrowChar::Tab(pos) => NonNarrowChar::Tab(pos + rhs),
        }
    }
}

impl vstd::std_specs::ops::AddSpecImpl<BytePos> for NonNarrowChar {
    open spec fn obeys_add_spec() -> bool {
        true
    }

    open spec fn add_req(self, rhs: BytePos) -> bool {
        true
    }

    open spec fn add_spec(self, rhs: BytePos) -> NonNarrowChar {
        self.with_pos(pos_add(self.spec_pos(), rhs))
    }
}

impl core::ops::Sub<BytePos> for NonNarrowChar {
    type Output = Self;

    fn sub(self, rhs: BytePos) -> (r: Self) {
        match self {
            NonNarrowChar::ZeroWidth(pos) => NonNarrowChar::ZeroWidth(pos - rhs),
            NonNarrowChar::Wide(pos) => NonNarrowChar::Wide(pos - rhs),
            NonNarrowChar::Tab(pos) => NonNarrowChar::Tab(pos - rhs),
        }
    }
}

impl vstd::std_specs::ops::SubSpecImpl<BytePos> for NonNarrowChar {
    open spec fn obeys_sub_spec() -> bool {
        true
    }

    open spec fn sub_req(self, rhs: BytePos) -> bool {
        rhs.0 <= self.spec_pos().0
    }

    open spec fn sub_spec(self, rhs: BytePos) -> NonNarrowChar {
        self.with_pos(BytePos((self.spec_pos().0 - rhs.0) as u32))
    }
}

/// A range of byte positions.
pub struct Span {
    pub lo: BytePos,
    pub hi: BytePos,
}

} // verus!
