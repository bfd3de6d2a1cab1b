//! The operations a front end offers, and the kind of ring each needs.
use vstd::prelude::*;

verus! {

/// An operation on two or more polynomials.
#[derive(Debug, Clone, Copy, PartialEq, Eq, Structural)]
pub enum Operation {
    Add,
    Sub,
    Mul,
    Div,
    Gcd,
}

/// The kind of ring an operation's operands must come from.
#[derive(Debug, Clone, Copy, PartialEq, Eq, Structural)]
pub enum OperandRingType {
    /// Any ring.
    Normal,
    /// A field: division needs inverses of the leading coefficient.
    Field,
    /// A Euclidean ring: the gcd comes from repeated division.
    Euclidean,
}

impl Operation {
    /// The kind of ring whose elements the operation takes.
    pub fn operand_ring_type(&self) -> (r: OperandRingType)
        ensures
            r == (match *self {
                Operation::Div => OperandRingType::Field,
                Operation::Gcd => OperandRingType::Euclidean,
                _ => OperandRingType::Normal,
            }),
    {
        match self {
            Operation::Add => OperandRingType::Normal,
            Operation::Sub => OperandRingType::Normal,
            Operation::Mul => OperandRingType::Normal,
            Operation::Div => OperandRingType::Field,
            Operation::Gcd => OperandRingType::Euclidean,
        }
    }
}

} // verus!
