//! The tags of the wire format: how a header is encoded, what a frame is
//! for, and how a data subpacket ends.

use vstd::prelude::*;
use crate::InvalidData;

verus! {

/// Frame encodings.
#[allow(clippy::upper_case_acronyms)]
#[derive(Clone, Copy, Debug, PartialEq, Eq, Structural)]
pub enum Encoding {
    /// Binary, 16-bit frame check.
    ZBIN,
    /// ASCII hex, 16-bit frame check.
    ZHEX,
    /// Binary, 32-bit frame check.
    ZBIN32,
}

impl Encoding {
    /// The tag byte on the wire.
    pub open spec fn byte(self) -> u8 {
        match self {
            Encoding::ZBIN => 0x41,
            Encoding::ZHEX => 0x42,
            Encoding::ZBIN32 => 0x43,
        }
    }

    /// The encoding that a tag byte names, if any.
    pub open spec fn of_byte(b: u8) -> Option<Encoding> {
        if b == 0x41 {
            Some(Encoding::ZBIN)
        } else if b == 0x42 {
            Some(Encoding::ZHEX)
        } else if b == 0x43 {
            Some(Encoding::ZBIN32)
        } else {
            None
        }
    }

    /// The tag byte on the wire.
    pub fn as_u8(self) -> (b: u8)
        ensures
            b == self.byte(),
    {
        match self {
            Encoding::ZBIN => 0x41,
            Encoding::ZHEX => 0x42,
            Encoding::ZBIN32 => 0x43,
        }
    }

    /// The encoding that a tag byte names; any other byte is refused.
    pub fn try_from(value: u8) -> (r: Result<Encoding, InvalidData>)
        ensures
            match Encoding::of_byte(value) {
                Some(e) => r == Ok::<Encoding, InvalidData>(e),
                None => r is Err,
            },
    {
        if value == 0x41 {
            Ok(Encoding::ZBIN)
        } else if value == 0x42 {
            Ok(Encoding::ZHEX)
        } else if value == 0x43 {
            Ok(Encoding::ZBIN32)
        } else {
            Err(InvalidData)
        }
    }
}

/// Frame types.
#[allow(clippy::upper_case_acronyms)]
#[derive(Clone, Copy, Debug, PartialEq, Eq, Structural)]
pub enum Frame {
    /// Request receive init
    ZRQINIT,
    /// Receiver capabilities and packet size
    ZRINIT,
    /// Send init sequence (optional)
    ZSINIT,
    /// Acknowledgement
    ZACK,
    /// File name from sender
    ZFILE,
    /// To sender: skip this file
    ZSKIP,
    /// Last packet was garbled
    ZNAK,
    /// Abort batch transfers
    ZABORT,
    /// Finish session
    ZFIN,
    /// Resume data transfer at this position
    ZRPOS,
    /// Data packet(s) follow
    ZDATA,
    /// End of file
    ZEOF,
    /// Fatal read or write error detected
    ZFERR,
    /// Request for file CRC and response
    ZCRC,
    /// Receiver's challenge
    ZCHALLENGE,
    /// Request is complete
    ZCOMPL,
    /// Other end cancelled the session
    ZCAN,
    /// Request for free bytes on filesystem
    ZFREECNT,
    /// Command from sending program
    ZCOMMAND,
    /// Output to standard error, data follows
    ZSTDERR,
}

impl Frame {
    /// The tag byte on the wire.
    pub open spec fn byte(self) -> u8 {
        match self {
            Frame::ZRQINIT => 0,
            Frame::ZRINIT => 1,
            Frame::ZSINIT => 2,
            Frame::ZACK => 3,
            Frame::ZFILE => 4,
            Frame::ZSKIP => 5,
            Frame::ZNAK => 6,
            Frame::ZABORT => 7,
            Frame::ZFIN => 8,
            Frame::ZRPOS => 9,
            Frame::ZDATA => 10,
            Frame::ZEOF => 11,
            Frame::ZFERR => 12,
            Frame::ZCRC => 13,
            Frame::ZCHALLENGE => 14,
            Frame::ZCOMPL => 15,
            Frame::ZCAN => 16,
            Frame::ZFREECNT => 17,
            Frame::ZCOMMAND => 18,
            Frame::ZSTDERR => 19,
        }
    }

    /// The frame type that a tag byte names, if any.
    pub open spec fn of_byte(b: u8) -> Option<Frame> {
        match b {
            0u8 => Some(Frame::ZRQINIT),
            1u8 => Some(Frame::ZRINIT),
            2u8 => Some(Frame::ZSINIT),
            3u8 => Some(Frame::ZACK),
            4u8 => Some(Frame::ZFILE),
            5u8 => Some(Frame::ZSKIP),
            6u8 => Some(Frame::ZNAK),
            7u8 => Some(Frame::ZABORT),
            8u8 => Some(Frame::ZFIN),
            9u8 => Some(Frame::ZRPOS),
            10u8 => Some(Frame::ZDATA),
            11u8 => Some(Frame::ZEOF),
            12u8 => Some(Frame::ZFERR),
            13u8 => Some(Frame::ZCRC),
            14u8 => Some(Frame::ZCHALLENGE),
            15u8 => Some(Frame::ZCOMPL),
            16u8 => Some(Frame::ZCAN),
            17u8 => Some(Frame::ZFREECNT),
            18u8 => Some(Frame::ZCOMMAND),
            19u8 => Some(Frame::ZSTDERR),
            _ => None,
        }
    }

    /// The tag byte on the wire.
    pub fn as_u8(self) -> (b: u8)
        ensures
            b == self.byte(),
    {
        match self {
            Frame::ZRQINIT => 0,
            Frame::ZRINIT => 1,
            Frame::ZSINIT => 2,
            Frame::ZACK => 3,
            Frame::ZFILE => 4,
            Frame::ZSKIP => 5,
            Frame::ZNAK => 6,
            Frame::ZABORT => 7,
            Frame::ZFIN => 8,
            Frame::ZRPOS => 9,
            Frame::ZDATA => 10,
            Frame::ZEOF => 11,
            Frame::ZFERR => 12,
            Frame::ZCRC => 13,
            Frame::ZCHALLENGE => 14,
            Frame::ZCOMPL => 15,
            Frame::ZCAN => 16,
            Frame::ZFREECNT => 17,
            Frame::ZCOMMAND => 18,
            Frame::ZSTDERR => 19,
        }
    }

    /// The frame type that a tag byte names; any other byte is refused.
    pub fn try_from(value: u8) -> (r: Result<Frame, InvalidData>)
        ensures
            match Frame::of_byte(value) {
                Some(kind) => r == Ok::<Frame, InvalidData>(kind),
                None => r is Err,
            },
    {
        match value {
            0u8 => Ok(Frame::ZRQINIT),
            1u8 => Ok(Frame::ZRINIT),
            2u8 => Ok(Frame::ZSINIT),
            3u8 => Ok(Frame::ZACK),
            4u8 => Ok(Frame::ZFILE),
            5u8 => Ok(Frame::ZSKIP),
            6u8 => Ok(Frame::ZNAK),
            7u8 => Ok(Frame::ZABORT),
            8u8 => Ok(Frame::ZFIN),
            9u8 => Ok(Frame::ZRPOS),
            10u8 => Ok(Frame::ZDATA),
            11u8 => Ok(Frame::ZEOF),
            12u8 => Ok(Frame::ZFERR),
            13u8 => Ok(Frame::ZCRC),
            14u8 => Ok(Frame::ZCHALLENGE),
            15u8 => Ok(Frame::ZCOMPL),
            16u8 => Ok(Frame::ZCAN),
            17u8 => Ok(Frame::ZFREECNT),
            18u8 => Ok(Frame::ZCOMMAND),
            19u8 => Ok(Frame::ZSTDERR),
            _ => Err(InvalidData),
        }
    }
}

/// A tag byte names the type that it is the tag of, and no other.
pub proof fn lemma_frame_tag(kind: Frame)
    ensures
        Frame::of_byte(kind.byte()) == Some(kind),
{
}

/// A tag byte names the encoding that it is the tag of, and no other.
pub proof fn lemma_encoding_tag(encoding: Encoding)
    ensures
        Encoding::of_byte(encoding.byte()) == Some(encoding),
{
}

/// How a data subpacket ends.
#[allow(clippy::upper_case_acronyms)]
#[derive(Clone, Copy, Debug, PartialEq, Eq, Structural)]
pub enum Packet {
    /// End of frame, no response expected.
    ZCRCE,
    /// Middle of frame, no response expected.
    ZCRCG,
    /// Middle of frame, ZACK requested.
    ZCRCQ,
    /// End of frame, ZACK requested; the sender waits.
    ZCRCW,
}

impl Packet {
    /// The tag byte on the wire.
    pub open spec fn byte(self) -> u8 {
        match self {
            Packet::ZCRCE => 0x68,
            Packet::ZCRCG => 0x69,
            Packet::ZCRCQ => 0x6a,
            Packet::ZCRCW => 0x6b,
        }
    }

    /// The terminator that a tag byte names, if any.
    pub open spec fn of_byte(b: u8) -> Option<Packet> {
        if b == 0x68 {
            Some(Packet::ZCRCE)
        } else if b == 0x69 {
            Some(Packet::ZCRCG)
        } else if b == 0x6a {
            Some(Packet::ZCRCQ)
        } else if b == 0x6b {
            Some(Packet::ZCRCW)
        } else {
            None
        }
    }

    /// The tag byte on the wire.
    pub fn as_u8(self) -> (b: u8)
        ensures
            b == self.byte(),
    {
        match self {
            Packet::ZCRCE => 0x68,
            Packet::ZCRCG => 0x69,
            Packet::ZCRCQ => 0x6a,
            Packet::ZCRCW => 0x6b,
        }
    }

    /// The terminator that a tag byte names; any other byte is refused.
    pub fn try_from(value: u8) -> (r: Result<Packet, InvalidData>)
        ensures
            match Packet::of_byte(value) {
                Some(kind) => r == Ok::<Packet, InvalidData>(kind),
                None => r is Err,
            },
    {
        if value == 0x68 {
            Ok(Packet::ZCRCE)
        } else if value == 0x69 {
            Ok(Packet::ZCRCG)
        } else if value == 0x6a {
            Ok(Packet::ZCRCQ)
        } else if value == 0x6b {
            Ok(Packet::ZCRCW)
        } else {
            Err(InvalidData)
        }
    }
}

/// A tag byte names the terminator that it is the tag of, and no other.
pub proof fn lemma_packet_tag(kind: Packet)
    ensures
        Packet::of_byte(kind.byte()) == Some(kind),
{
}

} // verus!
