//! The registers of the Z80.
use vstd::prelude::*;

verus! {

#[derive(Clone, Copy, Debug, PartialEq, Eq, Structural)]
pub enum Z80Register {
    A,
    B,
    C,
    D,
    E,
    H,
    L,
    AF,
    BC,
    DE,
    HL,
    IX,
}

/// How a register is written in assembly source.
pub open spec fn register_text(r: Z80Register) -> Seq<char> {
    match r {
        Z80Register::A => "a"@,
        Z80Register::B => "b"@,
        Z80Register::C => "c"@,
        Z80Register::D => "d"@,
        Z80Register::E => "e"@,
        Z80Register::H => "h"@,
        Z80Register::L => "l"@,
        Z80Register::AF => "af"@,
        Z80Register::BC => "bc"@,
        Z80Register::DE => "de"@,
        Z80Register::HL => "hl"@,
        Z80Register::IX => "ix"@,
    }
}

impl Z80Register {
    /// The register as written in assembly source.
    pub fn text(&self) -> (r: &'static str)
        ensures
            r@ == register_text(*self),
    {
        match self {
            Z80Register::A => "a",
            Z80Register::B => "b",
            Z80Register::C => "c",
            Z80Register::D => "d",
            Z80Register::E => "e",
            Z80Register::H => "h",
            Z80Register::L => "l",
            Z80Register::AF => "af",
            Z80Register::BC => "bc",
            Z80Register::DE => "de",
            Z80Register::HL => "hl",
            Z80Register::IX => "ix",
        }
    }
}

} // verus!
