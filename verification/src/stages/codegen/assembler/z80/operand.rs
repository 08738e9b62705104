//! Instruction operands.
use vstd::prelude::*;

use crate::stages::codegen::assembler::z80::condition::{Z80Condition, condition_text};
use crate::stages::codegen::assembler::z80::register::{Z80Register, register_text};
use crate::text::{decimal_chars, isize_to_string, signed_decimal_chars, string_extend, usize_to_string};

verus! {

/// A number written as an operand.
#[derive(Clone, Copy, Debug, PartialEq, Eq, Structural)]
pub struct Z80Immediate(pub isize);

/// A name in the assembly source.
#[derive(Clone, Debug)]
pub struct Z80Label(pub String);

impl Z80Label {
    pub fn new(name: &str) -> (r: Self)
        ensures
            r.0@ == name@,
    {
        Z80Label(String::from_str(name))
    }
}

#[derive(Clone, Debug)]
pub enum Z80Operand {
    Register(Z80Register),
    Condition(Z80Condition),
    Immediate(Z80Immediate),
    Label(Z80Label),
    /// `label+offset`, or `label-offset` for a negative offset.
    LabelOffset { label: Z80Label, offset: isize },
    /// `(register)`
    Indirect(Z80Register),
    /// `(label)`
    IndirectLabel(Z80Label),
    /// `(base+offset)`, or `(base-offset)` for a negative offset.
    Indexed { base: Z80Register, offset: isize },
}

/// An offset after a base: `+n`, or `-n` when negative.
pub open spec fn offset_text(offset: int) -> Seq<char> {
    if offset < 0 {
        signed_decimal_chars(offset)
    } else {
        "+"@ + decimal_chars(offset as nat)
    }
}

/// How an operand is written in assembly source.
pub open spec fn operand_text(o: Z80Operand) -> Seq<char> {
    match o {
        Z80Operand::Register(r) => register_text(r),
        Z80Operand::Condition(c) => condition_text(c),
        Z80Operand::Immediate(i) => signed_decimal_chars(i.0 as int),
        Z80Operand::Label(l) => l.0@,
        Z80Operand::LabelOffset { label, offset } => label.0@ + offset_text(offset as int),
        Z80Operand::Indirect(r) => "("@ + register_text(r) + ")"@,
        Z80Operand::IndirectLabel(l) => "("@ + l.0@ + ")"@,
        Z80Operand::Indexed { base, offset } => "("@ + register_text(base) + offset_text(
            offset as int,
        ) + ")"@,
    }
}

fn push_offset(s: &mut String, offset: isize)
    ensures
        final(s)@ == old(s)@ + offset_text(offset as int),
{
    if offset < 0 {
        let t = isize_to_string(offset);
        string_extend(s, t.as_str());
    } else {
        string_extend(s, "+");
        let t = usize_to_string(offset as usize);
        string_extend(s, t.as_str());
        assert(final(s)@ =~= old(s)@ + offset_text(offset as int));
    }
}

impl Z80Operand {
    pub fn indirect(register: Z80Register) -> (r: Self)
        ensures
            r == Z80Operand::Indirect(register),
    {
        Z80Operand::Indirect(register)
    }

    pub fn indirect_label(label: Z80Label) -> (r: Self)
        ensures
            r == Z80Operand::IndirectLabel(label),
    {
        Z80Operand::IndirectLabel(label)
    }

    pub fn indexed(base: Z80Register, offset: isize) -> (r: Self)
        ensures
            r == (Z80Operand::Indexed { base, offset }),
    {
        Z80Operand::Indexed { base, offset }
    }

    pub fn label_offset(label: Z80Label, offset: isize) -> (r: Self)
        ensures
            r == (Z80Operand::LabelOffset { label, offset }),
    {
        Z80Operand::LabelOffset { label, offset }
    }

    /// Appends the operand as written in assembly source.
    pub fn write_to(&self, s: &mut String)
        ensures
            final(s)@ == old(s)@ + operand_text(*self),
    {
        match self {
            Z80Operand::Register(r) => string_extend(s, r.text()),
            Z80Operand::Condition(c) => string_extend(s, c.text()),
            Z80Operand::Immediate(i) => {
                let t = isize_to_string(i.0);
                string_extend(s, t.as_str());
            },
            Z80Operand::Label(l) => string_extend(s, l.0.as_str()),
            Z80Operand::LabelOffset { label, offset } => {
                string_extend(s, label.0.as_str());
                push_offset(s, *offset);
                assert(final(s)@ =~= old(s)@ + operand_text(*self));
            },
            Z80Operand::Indirect(r) => {
                string_extend(s, "(");
                string_extend(s, r.text());
                string_extend(s, ")");
                assert(final(s)@ =~= old(s)@ + operand_text(*self));
            },
            Z80Operand::IndirectLabel(l) => {
                string_extend(s, "(");
                string_extend(s, l.0.as_str());
                string_extend(s, ")");
                assert(final(s)@ =~= old(s)@ + operand_text(*self));
            },
            Z80Operand::Indexed { base, offset } => {
                string_extend(s, "(");
                string_extend(s, base.text());
                push_offset(s, *offset);
                string_extend(s, ")");
                assert(final(s)@ =~= old(s)@ + operand_text(*self));
            },
        }
    }
}

} // verus!
