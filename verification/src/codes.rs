//! Command and status bytes of the card protocol.
use vstd::prelude::*;

verus! {

/// A command byte sent to the card.
#[derive(Debug, Clone, Copy, PartialEq, Eq, Structural)]
pub enum Req {
    Access,
    Read,
    Write,
}

impl Req {
    /// The byte that stands for this command on the wire.
    pub open spec fn spec_code(self) -> u8 {
        match self {
            Req::Access => 0x81,
            Req::Read => 0x52,
            Req::Write => 0x57,
        }
    }

    #[verifier::when_used_as_spec(spec_code)]
    pub fn code(self) -> (b: u8)
        ensures
            b == self.spec_code(),
    {
        match self {
            Req::Access => 0x81,
            Req::Read => 0x52,
            Req::Write => 0x57,
        }
    }
}

/// A status byte received from the card. Any byte outside the known set is
/// `Unknown`: an unrecognised byte is valid input, never an error.
#[allow(non_camel_case_types)]
#[derive(Debug, Clone, Copy, PartialEq, Eq, Structural)]
pub enum Res {
    Unknown,
    MemCard1,
    Ack1,
    MemCard2_Ack2,
    Good,
    BadChecksum,
    BadSector,
}

impl Res {
    /// The status that the byte `b` stands for.
    pub open spec fn spec_from_u8(b: u8) -> Res {
        if b == 0x5A {
            Res::MemCard1
        } else if b == 0x5C {
            Res::Ack1
        } else if b == 0x5D {
            Res::MemCard2_Ack2
        } else if b == 0x47 {
            Res::Good
        } else if b == 0x4E {
            Res::BadChecksum
        } else if b == 0xFF {
            Res::BadSector
        } else {
            Res::Unknown
        }
    }

    #[verifier::when_used_as_spec(spec_from_u8)]
    pub fn from_u8(b: u8) -> (r: Res)
        ensures
            r == Res::spec_from_u8(b),
    {
        match b {
            0x5A => Res::MemCard1,
            0x5C => Res::Ack1,
            0x5D => Res::MemCard2_Ack2,
            0x47 => Res::Good,
            0x4E => Res::BadChecksum,
            0xFF => Res::BadSector,
            _ => Res::Unknown,
        }
    }
}

/// The places in a sector read where a particular status is expected.
#[derive(Debug, Clone, Copy, PartialEq, Eq, Structural)]
pub enum Step {
    CardId1,
    CardId2,
    Ack1,
    Ack2,
    End,
}

impl Step {
    /// The status that a well-behaved card sends at this step.
    pub open spec fn spec_expected(self) -> Res {
        match self {
            Step::CardId1 => Res::MemCard1,
            Step::CardId2 => Res::MemCard2_Ack2,
            Step::Ack1 => Res::Ack1,
            Step::Ack2 => Res::MemCard2_Ack2,
            Step::End => Res::Good,
        }
    }

    #[verifier::when_used_as_spec(spec_expected)]
    pub fn expected(self) -> (r: Res)
        ensures
            r == self.spec_expected(),
    {
        match self {
            Step::CardId1 => Res::MemCard1,
            Step::CardId2 => Res::MemCard2_Ack2,
            Step::Ack1 => Res::Ack1,
            Step::Ack2 => Res::MemCard2_Ack2,
            Step::End => Res::Good,
        }
    }
}

/// A status that differs from the expected one. It is reported, and the read
/// goes on.
#[derive(Debug, Clone, Copy, PartialEq, Eq, Structural)]
pub struct Anomaly {
    pub step: Step,
    pub received: Res,
}

} // verus!
