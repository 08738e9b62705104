//! Builds Z80 assembly lines.
use vstd::prelude::*;

use crate::stages::codegen::assembler::z80::assembly::Z80Assembly;
use crate::stages::codegen::assembler::z80::condition::Z80Condition;
use crate::stages::codegen::assembler::z80::operand::{Z80Label, Z80Operand};
use crate::stages::codegen::assembler::z80::register::Z80Register;

verus! {

/// Whether `a` is the instruction `mnemonic` with these operands.
pub open spec fn is_instruction(a: Z80Assembly, mnemonic: Seq<char>, operands: Seq<Z80Operand>) -> bool {
    a matches Z80Assembly::Instruction { mnemonic: m, operands: ops } && m@ == mnemonic && ops@
        == operands
}

/// The constructors of Z80 assembly lines.
#[derive(Debug)]
pub struct Z80;

impl Z80 {
    pub fn comment(comment: &str) -> (r: Z80Assembly)
        ensures
            r matches Z80Assembly::Comment(c) && c@ == comment@,
    {
        Z80Assembly::Comment(String::from_str(comment))
    }

    pub fn label(label: Z80Label) -> (r: Z80Assembly)
        ensures
            r == Z80Assembly::Label(label),
    {
        Z80Assembly::Label(label)
    }

    pub fn org(address: isize) -> (r: Z80Assembly)
        ensures
            r == Z80Assembly::Org(address),
    {
        Z80Assembly::Org(address)
    }

    pub fn db(byte: u8) -> (r: Z80Assembly)
        ensures
            r == Z80Assembly::Db(byte),
    {
        Z80Assembly::Db(byte)
    }

    pub fn defs(size: usize) -> (r: Z80Assembly)
        ensures
            r == Z80Assembly::Defs(size),
    {
        Z80Assembly::Defs(size)
    }

    pub fn ld(destination: Z80Operand, source: Z80Operand) -> (r: Z80Assembly)
        ensures
            is_instruction(r, "ld"@, seq![destination, source]),
    {
        let mut operands: Vec<Z80Operand> = Vec::new();
        operands.push(destination);
        operands.push(source);
        assert(operands@ =~= seq![destination, source]);
        Z80Assembly::Instruction { mnemonic: "ld", operands }
    }

    pub fn add(destination: Z80Operand, source: Z80Operand) -> (r: Z80Assembly)
        ensures
            is_instruction(r, "add"@, seq![destination, source]),
    {
        let mut operands: Vec<Z80Operand> = Vec::new();
        operands.push(destination);
        operands.push(source);
        assert(operands@ =~= seq![destination, source]);
        Z80Assembly::Instruction { mnemonic: "add", operands }
    }

    pub fn sbc(destination: Z80Operand, source: Z80Operand) -> (r: Z80Assembly)
        ensures
            is_instruction(r, "sbc"@, seq![destination, source]),
    {
        let mut operands: Vec<Z80Operand> = Vec::new();
        operands.push(destination);
        operands.push(source);
        assert(operands@ =~= seq![destination, source]);
        Z80Assembly::Instruction { mnemonic: "sbc", operands }
    }

    pub fn inc(operand: Z80Operand) -> (r: Z80Assembly)
        ensures
            is_instruction(r, "inc"@, seq![operand]),
    {
        let mut operands: Vec<Z80Operand> = Vec::new();
        operands.push(operand);
        Z80Assembly::Instruction { mnemonic: "inc", operands }
    }

    pub fn dec(operand: Z80Operand) -> (r: Z80Assembly)
        ensures
            is_instruction(r, "dec"@, seq![operand]),
    {
        let mut operands: Vec<Z80Operand> = Vec::new();
        operands.push(operand);
        Z80Assembly::Instruction { mnemonic: "dec", operands }
    }

    pub fn sub(operand: Z80Operand) -> (r: Z80Assembly)
        ensures
            is_instruction(r, "sub"@, seq![operand]),
    {
        let mut operands: Vec<Z80Operand> = Vec::new();
        operands.push(operand);
        Z80Assembly::Instruction { mnemonic: "sub", operands }
    }

    pub fn and(operand: Z80Operand) -> (r: Z80Assembly)
        ensures
            is_instruction(r, "and"@, seq![operand]),
    {
        let mut operands: Vec<Z80Operand> = Vec::new();
        operands.push(operand);
        Z80Assembly::Instruction { mnemonic: "and", operands }
    }

    pub fn or(operand: Z80Operand) -> (r: Z80Assembly)
        ensures
            is_instruction(r, "or"@, seq![operand]),
    {
        let mut operands: Vec<Z80Operand> = Vec::new();
        operands.push(operand);
        Z80Assembly::Instruction { mnemonic: "or", operands }
    }

    pub fn cp(operand: Z80Operand) -> (r: Z80Assembly)
        ensures
            is_instruction(r, "cp"@, seq![operand]),
    {
        let mut operands: Vec<Z80Operand> = Vec::new();
        operands.push(operand);
        Z80Assembly::Instruction { mnemonic: "cp", operands }
    }

    pub fn call(target: Z80Operand) -> (r: Z80Assembly)
        ensures
            is_instruction(r, "call"@, seq![target]),
    {
        let mut operands: Vec<Z80Operand> = Vec::new();
        operands.push(target);
        Z80Assembly::Instruction { mnemonic: "call", operands }
    }

    pub fn push(register: Z80Register) -> (r: Z80Assembly)
        ensures
            is_instruction(r, "push"@, seq![Z80Operand::Register(register)]),
    {
        let mut operands: Vec<Z80Operand> = Vec::new();
        operands.push(Z80Operand::Register(register));
        Z80Assembly::Instruction { mnemonic: "push", operands }
    }

    pub fn pop(register: Z80Register) -> (r: Z80Assembly)
        ensures
            is_instruction(r, "pop"@, seq![Z80Operand::Register(register)]),
    {
        let mut operands: Vec<Z80Operand> = Vec::new();
        operands.push(Z80Operand::Register(register));
        Z80Assembly::Instruction { mnemonic: "pop", operands }
    }

    /// `jp target`, or `jp condition, target`.
    pub fn jp(condition: Option<Z80Condition>, target: Z80Operand) -> (r: Z80Assembly)
        ensures
            is_instruction(
                r,
                "jp"@,
                match condition {
                    Some(c) => seq![Z80Operand::Condition(c), target],
                    None => seq![target],
                },
            ),
    {
        let mut operands: Vec<Z80Operand> = Vec::new();
        match condition {
            Some(c) => operands.push(Z80Operand::Condition(c)),
            None => {},
        }
        operands.push(target);
        assert(operands@ =~= match condition {
            Some(c) => seq![Z80Operand::Condition(c), target],
            None => seq![target],
        });
        Z80Assembly::Instruction { mnemonic: "jp", operands }
    }

    pub fn jr(condition: Z80Condition, target: Z80Operand) -> (r: Z80Assembly)
        ensures
            is_instruction(r, "jr"@, seq![Z80Operand::Condition(condition), target]),
    {
        let mut operands: Vec<Z80Operand> = Vec::new();
        operands.push(Z80Operand::Condition(condition));
        operands.push(target);
        assert(operands@ =~= seq![Z80Operand::Condition(condition), target]);
        Z80Assembly::Instruction { mnemonic: "jr", operands }
    }

    pub fn ret() -> (r: Z80Assembly)
        ensures
            is_instruction(r, "ret"@, seq![]),
    {
        Z80Assembly::Instruction { mnemonic: "ret", operands: Vec::new() }
    }
}

} // verus!
