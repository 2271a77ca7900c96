//! The fixed part of the LZ4 frame header: the flag byte and the
//! block descriptor byte.
use vstd::prelude::*;

verus! {

/// Errors when parsing the frame header's fixed bytes.
#[derive(Clone, Copy, Debug, PartialEq, Eq, Structural)]
pub enum ParseError {
    /// The block-maxsize code is one the spec reserves.
    UnimplementedBlocksize(u8),
    /// The version bits name a version other than one.
    UnsupportedVersion(u8),
    /// A reserved bit of the flag byte is set.
    ReservedFlagBitsSet,
    /// A reserved bit of the block descriptor byte is set.
    ReservedBdBitsSet,
}

/// The feature bits of the frame flag byte, with the version bits
/// stripped.
#[derive(Clone, Copy, Debug, PartialEq, Eq, Structural)]
pub struct Flags {
    bits: u8,
}

impl View for Flags {
    type V = u8;

    closed spec fn view(&self) -> u8 {
        self.bits
    }
}

/// The mask of the five feature bits a version-1 frame may set.
pub open spec fn spec_flag_mask() -> u8 {
    0b00111101
}

impl Flags {
    /// Parses a flag byte: the version bits must name version one and
    /// the reserved bit below them must be clear; the feature bits
    /// are kept.
    pub fn parse(i: u8) -> (r: Result<Flags, ParseError>)
        ensures
            i >> 6 != 1 ==> r == Err::<Flags, ParseError>(ParseError::UnsupportedVersion(i >> 6)),
            i >> 6 == 1 && i & 0b10 != 0 ==> r == Err::<Flags, ParseError>(
                ParseError::ReservedFlagBitsSet,
            ),
            i >> 6 == 1 && i & 0b10 == 0 ==> (r matches Ok(f) && f@ == i & spec_flag_mask()),
    {
        let version = i >> 6;
        if version != 1 {
            return Err(ParseError::UnsupportedVersion(version));
        }
        if (i & 0b10) != 0 {
            return Err(ParseError::ReservedFlagBitsSet);
        }
        Ok(Flags { bits: i & 0b00111101 })
    }

    /// The raw feature bits.
    pub fn bits(&self) -> (r: u8)
        ensures
            r == self@,
    {
        self.bits
    }

    pub fn independent_blocks(&self) -> (r: bool)
        ensures
            r == (self@ & 0b00100000 != 0),
    {
        self.bits & 0b00100000 != 0
    }

    pub fn block_checksums(&self) -> (r: bool)
        ensures
            r == (self@ & 0b00010000 != 0),
    {
        self.bits & 0b00010000 != 0
    }

    pub fn content_size(&self) -> (r: bool)
        ensures
            r == (self@ & 0b00001000 != 0),
    {
        self.bits & 0b00001000 != 0
    }

    pub fn content_checksum(&self) -> (r: bool)
        ensures
            r == (self@ & 0b00000100 != 0),
    {
        self.bits & 0b00000100 != 0
    }

    pub fn dictionary_id(&self) -> (r: bool)
        ensures
            r == (self@ & 0b00000001 != 0),
    {
        self.bits & 0b00000001 != 0
    }
}

/// The block maxsize a descriptor code stands for, for codes four to
/// seven.
pub open spec fn spec_block_maxsize(code: u8) -> usize {
    if code == 4 {
        65536
    } else if code == 5 {
        262144
    } else if code == 6 {
        1048576
    } else {
        4194304
    }
}

/// The frame header's block descriptor byte.
#[derive(Clone, Copy, Debug, PartialEq, Eq, Structural)]
pub struct BlockDescriptor(pub u8);

impl BlockDescriptor {
    /// The descriptor for a block maxsize, or `None` for a size the
    /// format cannot express.
    pub fn new(block_maxsize: usize) -> (r: Option<BlockDescriptor>)
        ensures
            block_maxsize == 65536 ==> r == Some(BlockDescriptor(0x40)),
            block_maxsize == 262144 ==> r == Some(BlockDescriptor(0x50)),
            block_maxsize == 1048576 ==> r == Some(BlockDescriptor(0x60)),
            block_maxsize == 4194304 ==> r == Some(BlockDescriptor(0x70)),
            block_maxsize != 65536 && block_maxsize != 262144 && block_maxsize != 1048576
                && block_maxsize != 4194304 ==> r is None,
    {
        if block_maxsize == 65536 {
            Some(BlockDescriptor(0x40))
        } else if block_maxsize == 262144 {
            Some(BlockDescriptor(0x50))
        } else if block_maxsize == 1048576 {
            Some(BlockDescriptor(0x60))
        } else if block_maxsize == 4194304 {
            Some(BlockDescriptor(0x70))
        } else {
            None
        }
    }

    /// Parses a descriptor byte, rejecting set reserved bits.
    pub fn parse(i: u8) -> (r: Result<BlockDescriptor, ParseError>)
        ensures
            i & 0b10001111 != 0 ==> r == Err::<BlockDescriptor, ParseError>(
                ParseError::ReservedBdBitsSet,
            ),
            i & 0b10001111 == 0 ==> r == Ok::<BlockDescriptor, ParseError>(BlockDescriptor(i)),
    {
        if (i & 0b10001111) != 0 {
            return Err(ParseError::ReservedBdBitsSet);
        }
        Ok(BlockDescriptor(i))
    }

    /// The block maxsize this descriptor names, or an error for a
    /// reserved code.
    pub fn block_maxsize(&self) -> (r: Result<usize, ParseError>)
        ensures
            4 <= ((self.0 >> 4) & 0b111) < 8 ==> r == Ok::<usize, ParseError>(
                spec_block_maxsize((self.0 >> 4) & 0b111),
            ),
            !(4 <= ((self.0 >> 4) & 0b111) < 8) ==> r == Err::<usize, ParseError>(
                ParseError::UnimplementedBlocksize((self.0 >> 4) & 0b111),
            ),
    {
        let size = (self.0 >> 4) & 0b111;
        if size == 4 {
            Ok(65536)
        } else if size == 5 {
            Ok(262144)
        } else if size == 6 {
            Ok(1048576)
        } else if size == 7 {
            Ok(4194304)
        } else {
            Err(ParseError::UnimplementedBlocksize(size))
        }
    }
}

} // verus!
