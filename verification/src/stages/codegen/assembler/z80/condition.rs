//! The flag conditions of conditional jumps.
use vstd::prelude::*;

verus! {

#[derive(Clone, Copy, Debug, PartialEq, Eq, Structural)]
pub enum Z80Condition {
    C,
    Nc,
    Nz,
    Z,
}

/// How a condition is written in assembly source.
pub open spec fn condition_text(c: Z80Condition) -> Seq<char> {
    match c {
        Z80Condition::C => "c"@,
        Z80Condition::Nc => "nc"@,
        Z80Condition::Nz => "nz"@,
        Z80Condition::Z => "z"@,
    }
}

impl Z80Condition {
    /// The condition as written in assembly source.
    pub fn text(&self) -> (r: &'static str)
        ensures
            r@ == condition_text(*self),
    {
        match self {
            Z80Condition::C => "c",
            Z80Condition::Nc => "nc",
            Z80Condition::Nz => "nz",
            Z80Condition::Z => "z",
        }
    }
}

} // verus!
