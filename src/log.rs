use vstd::prelude::*;
use crate::util::coding::spec_fixed32;
use crate::util::crc32c::{crc32c_of, spec_mask};

pub mod reader;
pub mod writer;

verus! {

/// The log is a sequence of blocks of this many bytes.
pub const BLOCK_SIZE: usize = 32768;

/// A physical record's header: checksum (4 bytes), length (2 bytes), type (1 byte).
pub const HEADER_SIZE: usize = 7;

/// The type of a physical record.
#[derive(Clone, Copy, PartialEq, Eq, Debug, Structural)]
pub enum RecordType {
    /// Reserved for preallocated (zeroed) file regions.
    Zero,
    /// A whole logical record.
    Full,
    /// The first fragment of a logical record.
    First,
    /// A fragment strictly inside a logical record.
    Middle,
    /// The last fragment of a logical record.
    Last,
}

/// The largest record type byte.
pub const MAX_RECORD_TYPE: u8 = 4;

impl RecordType {
    pub open spec fn spec_byte(self) -> u8 {
        match self {
            RecordType::Zero => 0,
            RecordType::Full => 1,
            RecordType::First => 2,
            RecordType::Middle => 3,
            RecordType::Last => 4,
        }
    }

    pub fn as_byte(self) -> (r: u8)
        ensures
            r == self.spec_byte(),
    {
        match self {
            RecordType::Zero => 0,
            RecordType::Full => 1,
            RecordType::First => 2,
            RecordType::Middle => 3,
            RecordType::Last => 4,
        }
    }

    pub open spec fn spec_from_byte(b: u8) -> Option<RecordType> {
        if b == 0 {
            Some(RecordType::Zero)
        } else if b == 1 {
            Some(RecordType::Full)
        } else if b == 2 {
            Some(RecordType::First)
        } else if b == 3 {
            Some(RecordType::Middle)
        } else if b == 4 {
            Some(RecordType::Last)
        } else {
            None
        }
    }

    /// The type whose byte is `b`, if any.
    pub fn from_byte(b: u8) -> (r: Option<RecordType>)
        ensures
            r == Self::spec_from_byte(b),
    {
        if b == 0 {
            Some(RecordType::Zero)
        } else if b == 1 {
            Some(RecordType::Full)
        } else if b == 2 {
            Some(RecordType::First)
        } else if b == 3 {
            Some(RecordType::Middle)
        } else if b == 4 {
            Some(RecordType::Last)
        } else {
            None
        }
    }
}

/// The checksum stored for a fragment: the masked CRC-32C of its type byte
/// followed by its bytes.
pub open spec fn spec_record_crc(t: u8, data: Seq<u8>) -> u32 {
    spec_mask(crc32c_of(seq![t] + data))
}

/// The header of a physical record of type `t` holding `data`.
pub open spec fn spec_header(t: u8, data: Seq<u8>) -> Seq<u8> {
    spec_fixed32(spec_record_crc(t, data)) + seq![
        (data.len() % 256) as u8,
        (data.len() / 256) as u8,
        t,
    ]
}

} // verus!
