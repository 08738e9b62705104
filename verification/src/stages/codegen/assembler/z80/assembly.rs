//! One line of Z80 assembly source.
use vstd::prelude::*;

use crate::stages::codegen::assembler::emitter::Assembly;
use crate::stages::codegen::assembler::z80::operand::{Z80Label, Z80Operand, operand_text};
use crate::text::{decimal_chars, hex_chars, string_extend, usize_to_hex, usize_to_string};

verus! {

#[derive(Clone, Debug)]
pub enum Z80Assembly {
    Comment(String),
    Label(Z80Label),
    Org(isize),
    Db(u8),
    Defs(usize),
    Instruction { mnemonic: &'static str, operands: Vec<Z80Operand> },
}

/// Operands separated by `, `.
pub open spec fn operands_text(ops: Seq<Z80Operand>) -> Seq<char>
    decreases ops.len(),
{
    if ops.len() == 0 {
        Seq::empty()
    } else if ops.len() == 1 {
        operand_text(ops[0])
    } else {
        operands_text(ops.drop_last()) + ", "@ + operand_text(ops.last())
    }
}

/// How a line is written in assembly source.
pub open spec fn assembly_text(a: Z80Assembly) -> Seq<char> {
    match a {
        Z80Assembly::Comment(c) => "; "@ + c@,
        Z80Assembly::Label(l) => l.0@ + ":"@,
        Z80Assembly::Org(address) => "ORG 0x"@ + hex_chars((address as usize) as nat),
        Z80Assembly::Db(byte) => "\tdb "@ + decimal_chars(byte as nat),
        Z80Assembly::Defs(size) => "\tdefs "@ + decimal_chars(size as nat),
        Z80Assembly::Instruction { mnemonic, operands } => "\t"@ + mnemonic@ + if operands@.len()
            == 0 {
            Seq::empty()
        } else {
            " "@ + operands_text(operands@)
        },
    }
}

fn write_operands(ops: &Vec<Z80Operand>, s: &mut String)
    ensures
        final(s)@ == old(s)@ + operands_text(ops@),
{
    let mut i: usize = 0;
    assert(old(s)@ + operands_text(ops@.subrange(0, 0)) =~= old(s)@);
    while i < ops.len()
        invariant
            i <= ops@.len(),
            s@ == old(s)@ + operands_text(ops@.subrange(0, i as int)),
        decreases ops@.len() - i,
    {
        let ghost before = s@;
        if i > 0 {
            string_extend(s, ", ");
        }
        ops[i].write_to(s);
        proof {
            let sub = ops@.subrange(0, i + 1);
            assert(sub.drop_last() =~= ops@.subrange(0, i as int));
            if i == 0 {
                assert(s@ =~= old(s)@ + operands_text(sub));
            } else {
                assert(s@ =~= old(s)@ + operands_text(sub));
            }
        }
        i += 1;
    }
    assert(ops@.subrange(0, ops@.len() as int) =~= ops@);
}

impl Assembly for Z80Assembly {
    open spec fn text(&self) -> Seq<char> {
        assembly_text(*self)
    }

    fn write_to(self, output: &mut String) {
        match self {
            Z80Assembly::Comment(comment) => {
                string_extend(output, "; ");
                string_extend(output, comment.as_str());
            },
            Z80Assembly::Label(label) => {
                string_extend(output, label.0.as_str());
                string_extend(output, ":");
            },
            Z80Assembly::Org(address) => {
                string_extend(output, "ORG 0x");
                let t = usize_to_hex(address as usize);
                string_extend(output, t.as_str());
            },
            Z80Assembly::Db(byte) => {
                string_extend(output, "\tdb ");
                let t = usize_to_string(byte as usize);
                string_extend(output, t.as_str());
            },
            Z80Assembly::Defs(size) => {
                string_extend(output, "\tdefs ");
                let t = usize_to_string(size);
                string_extend(output, t.as_str());
            },
            Z80Assembly::Instruction { mnemonic, operands } => {
                string_extend(output, "\t");
                string_extend(output, mnemonic);
                if operands.len() > 0 {
                    string_extend(output, " ");
                    write_operands(&operands, output);
                }
            },
        }
        assert(final(output)@ =~= old(output)@ + assembly_text(self));
    }
}

} // verus!
