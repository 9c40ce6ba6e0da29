//! Delivery guarantees a frame can ask for.

use vstd::prelude::*;

verus! {

/// The eight delivery modes of the wire protocol, in the order of their wire values.
#[derive(Debug, Clone, Copy, PartialEq, Eq, Hash, Structural)]
pub enum Reliability {
    Unreliable,
    UnreliableSequenced,
    Reliable,
    ReliableOrdered,
    ReliableSequenced,
    UnreliableWithAckReceipt,
    ReliableWithAckReceipt,
    ReliableOrderedWithAckReceipt,
}

impl Reliability {
    /// The three-bit wire value of the mode.
    pub open spec fn spec_to_u8(&self) -> u8 {
        match self {
            Reliability::Unreliable => 0,
            Reliability::UnreliableSequenced => 1,
            Reliability::Reliable => 2,
            Reliability::ReliableOrdered => 3,
            Reliability::ReliableSequenced => 4,
            Reliability::UnreliableWithAckReceipt => 5,
            Reliability::ReliableWithAckReceipt => 6,
            Reliability::ReliableOrderedWithAckReceipt => 7,
        }
    }

    /// The mode with the given wire value; values above seven read as `Unreliable`.
    pub open spec fn spec_from_u8(value: u8) -> Reliability {
        match value {
            1 => Reliability::UnreliableSequenced,
            2 => Reliability::Reliable,
            3 => Reliability::ReliableOrdered,
            4 => Reliability::ReliableSequenced,
            5 => Reliability::UnreliableWithAckReceipt,
            6 => Reliability::ReliableWithAckReceipt,
            7 => Reliability::ReliableOrderedWithAckReceipt,
            _ => Reliability::Unreliable,
        }
    }

    /// The modes under which a frame carries a reliable index.
    pub open spec fn spec_is_reliable(&self) -> bool {
        let v = self.spec_to_u8();
        v == 2 || v == 3 || v == 4 || v == 6 || v == 7
    }

    /// The modes under which a frame carries a sequence index.
    pub open spec fn spec_is_sequenced(&self) -> bool {
        let v = self.spec_to_u8();
        v == 1 || v == 4
    }

    /// The modes under which a frame carries an ordered index and a channel.
    pub open spec fn spec_is_ordered(&self) -> bool {
        let v = self.spec_to_u8();
        v == 3 || v == 7
    }

    pub fn to_u8(&self) -> (value: u8)
        ensures
            value == self.spec_to_u8(),
            value < 8,
    {
        match self {
            Reliability::Unreliable => 0,
            Reliability::UnreliableSequenced => 1,
            Reliability::Reliable => 2,
            Reliability::ReliableOrdered => 3,
            Reliability::ReliableSequenced => 4,
            Reliability::UnreliableWithAckReceipt => 5,
            Reliability::ReliableWithAckReceipt => 6,
            Reliability::ReliableOrderedWithAckReceipt => 7,
        }
    }

    pub fn from_u8(value: u8) -> (mode: Reliability)
        ensures
            mode == Reliability::spec_from_u8(value),
            value < 8 ==> mode.spec_to_u8() == value,
    {
        match value {
            1 => Reliability::UnreliableSequenced,
            2 => Reliability::Reliable,
            3 => Reliability::ReliableOrdered,
            4 => Reliability::ReliableSequenced,
            5 => Reliability::UnreliableWithAckReceipt,
            6 => Reliability::ReliableWithAckReceipt,
            7 => Reliability::ReliableOrderedWithAckReceipt,
            _ => Reliability::Unreliable,
        }
    }

    #[verifier::when_used_as_spec(spec_is_reliable)]
    pub fn is_reliable(&self) -> (b: bool)
        ensures
            b == self.spec_is_reliable(),
    {
        matches!(
            self,
            Reliability::Reliable | Reliability::ReliableOrdered | Reliability::ReliableSequenced
                | Reliability::ReliableWithAckReceipt | Reliability::ReliableOrderedWithAckReceipt
        )
    }

    #[verifier::when_used_as_spec(spec_is_sequenced)]
    pub fn is_sequenced(&self) -> (b: bool)
        ensures
            b == self.spec_is_sequenced(),
    {
        matches!(self, Reliability::ReliableSequenced | Reliability::UnreliableSequenced)
    }

    #[verifier::when_used_as_spec(spec_is_ordered)]
    pub fn is_ordered(&self) -> (b: bool)
        ensures
            b == self.spec_is_ordered(),
    {
        matches!(self, Reliability::ReliableOrdered | Reliability::ReliableOrderedWithAckReceipt)
    }
}

} // verus!
