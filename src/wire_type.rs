use vstd::prelude::*;

verus! {

/// How the payload of a field is framed on the wire.
#[derive(Clone, Copy, Debug, PartialEq, Eq, Structural)]
pub enum WireType {
    Varint,
    SixtyFourBit,
    LengthDelimited,
    StartGroup,
    EndGroup,
    ThirtyTwoBit,
}

impl WireType {
    /// The three-bit code of the wire type.
    pub open spec fn spec_code(self) -> u32 {
        match self {
            WireType::Varint => 0,
            WireType::SixtyFourBit => 1,
            WireType::LengthDelimited => 2,
            WireType::StartGroup => 3,
            WireType::EndGroup => 4,
            WireType::ThirtyTwoBit => 5,
        }
    }

    /// The wire type whose code is `c`, for `c <= 5`.
    pub open spec fn spec_from_code(c: u32) -> WireType {
        if c == 0 {
            WireType::Varint
        } else if c == 1 {
            WireType::SixtyFourBit
        } else if c == 2 {
            WireType::LengthDelimited
        } else if c == 3 {
            WireType::StartGroup
        } else if c == 4 {
            WireType::EndGroup
        } else {
            WireType::ThirtyTwoBit
        }
    }

    /// Whether this engine can read and write fields of this wire type.
    pub open spec fn is_supported(self) -> bool {
        self == WireType::Varint || self == WireType::LengthDelimited
    }

    pub fn code(self) -> (r: u32)
        ensures
            r == self.spec_code(),
    {
        match self {
            WireType::Varint => 0,
            WireType::SixtyFourBit => 1,
            WireType::LengthDelimited => 2,
            WireType::StartGroup => 3,
            WireType::EndGroup => 4,
            WireType::ThirtyTwoBit => 5,
        }
    }

    /// The wire type whose code is `val`, if any.
    pub fn from_u32(val: u32) -> (r: Option<WireType>)
        ensures
            r is Some <==> val <= 5,
            r matches Some(w) ==> w.spec_code() == val && w == WireType::spec_from_code(val),
    {
        match val {
            0 => Some(WireType::Varint),
            1 => Some(WireType::SixtyFourBit),
            2 => Some(WireType::LengthDelimited),
            3 => Some(WireType::StartGroup),
            4 => Some(WireType::EndGroup),
            5 => Some(WireType::ThirtyTwoBit),
            _ => None,
        }
    }
}

} // verus!
