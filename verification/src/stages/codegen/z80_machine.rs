//! What the Z80 does with the lines that arithmetic, comparisons, casts and
//! memory access compile to: the registers A, D, E, H and L, the carry and
//! zero flags, IX and memory, and the instructions `ld`, `add`, `sub`,
//! `sbc`, `and`, `or`, `cp`, `inc` and `dec` on them. A jump (`jr`, `jp`)
//! is followed forward: the lines up to its label are passed over, and a
//! run that ends in the middle of a jump ends going to that label. The data stack
//! is addressed by IX: the top byte at `ix+0`, the one below it at `ix+1`;
//! a `u16` is two bytes with the low byte nearer the top. Addresses are
//! integers: the model leaves out IX wrapping around the ends of memory.
use vstd::prelude::*;

use crate::stages::codegen::assembler::z80::condition::Z80Condition;
use crate::stages::codegen::assembler::z80::register::Z80Register;
use crate::stages::codegen::z80_cpm::{Line, Op, block_label_text, copy_lines, eq_u16_lines, eq_u8_lines, i1, i2, instruction_lines, local_label_text, lt_u16_lines, move_lines, ra, size_of, terminator_lines, xo};
use crate::stages::interpreter::executor::{
    ValueView, effect, goes_on, law_arith_bytes, law_arith_words, law_casts_keep_the_value, law_compare_bytes,
    law_compare_words, leaves,
};
use crate::stages::lower::context::IRContext;
use crate::stages::lower::ir::{BasicBlockId, IRConstant, IRInstruction, IRTerminator, IRType, ir_type_view};

verus! {

/// The part of the machine that the compiled words read and write. `skip`
/// holds the label that a taken forward jump is going to.
pub struct Machine {
    pub a: u8,
    pub d: u8,
    pub e: u8,
    pub h: u8,
    pub l: u8,
    pub carry: bool,
    pub zero: bool,
    pub ix: int,
    pub mem: Map<int, u8>,
    pub skip: Option<Seq<char>>,
}

/// The address in DE.
pub open spec fn de(m: Machine) -> int {
    m.d * 256 + m.e
}

/// The byte an 8-bit source operand reads: a register, a number, `(ix+k)`
/// or `(de)`; `None` for an operand outside this model or an address not in
/// memory.
pub open spec fn byte_of(m: Machine, o: Op) -> Option<u8> {
    match o {
        Op::Reg(Z80Register::A) => Some(m.a),
        Op::Reg(Z80Register::D) => Some(m.d),
        Op::Reg(Z80Register::E) => Some(m.e),
        Op::Reg(Z80Register::H) => Some(m.h),
        Op::Reg(Z80Register::L) => Some(m.l),
        Op::Imm(n) => if 0 <= n < 256 {
            Some(n as u8)
        } else {
            None
        },
        Op::Idx(Z80Register::IX, k) => if m.mem.dom().contains(m.ix + k) {
            Some(m.mem[m.ix + k])
        } else {
            None
        },
        Op::Ind(Z80Register::DE) => if m.mem.dom().contains(de(m)) {
            Some(m.mem[de(m)])
        } else {
            None
        },
        _ => None,
    }
}

/// The byte written to an 8-bit destination operand.
pub open spec fn put_byte(m: Machine, o: Op, v: u8) -> Option<Machine> {
    match o {
        Op::Reg(Z80Register::A) => Some(Machine { a: v, ..m }),
        Op::Reg(Z80Register::D) => Some(Machine { d: v, ..m }),
        Op::Reg(Z80Register::E) => Some(Machine { e: v, ..m }),
        Op::Reg(Z80Register::H) => Some(Machine { h: v, ..m }),
        Op::Reg(Z80Register::L) => Some(Machine { l: v, ..m }),
        Op::Idx(Z80Register::IX, k) => if m.mem.dom().contains(m.ix + k) {
            Some(Machine { mem: m.mem.insert(m.ix + k, v), ..m })
        } else {
            None
        },
        Op::Ind(Z80Register::DE) => if m.mem.dom().contains(de(m)) {
            Some(Machine { mem: m.mem.insert(de(m), v), ..m })
        } else {
            None
        },
        _ => None,
    }
}

/// The accumulator and both flags set from a result.
pub open spec fn set_a(m: Machine, a: u8, carry: bool) -> Machine {
    Machine { a, carry, zero: a == 0, ..m }
}

/// Whether a jump condition holds.
pub open spec fn holds(m: Machine, c: Z80Condition) -> bool {
    match c {
        Z80Condition::C => m.carry,
        Z80Condition::Nc => !m.carry,
        Z80Condition::Z => m.zero,
        Z80Condition::Nz => !m.zero,
    }
}

/// A 16-bit value read as a signed offset.
pub open spec fn signed16(v: int) -> int {
    if v >= 32768 {
        v - 65536
    } else {
        v
    }
}

/// One instruction with one operand.
pub open spec fn step1(m: Machine, mnemonic: Seq<char>, o: Op) -> Option<Machine> {
    if mnemonic == "inc"@ && o == Op::Reg(Z80Register::IX) {
        Some(Machine { ix: m.ix + 1, ..m })
    } else if mnemonic == "dec"@ && o == Op::Reg(Z80Register::IX) {
        Some(Machine { ix: m.ix - 1, ..m })
    } else if mnemonic == "inc"@ && o == Op::Reg(Z80Register::A) {
        // inc leaves the carry as it was
        let r = ((m.a + 1) % 256) as u8;
        Some(Machine { a: r, zero: r == 0, ..m })
    } else if mnemonic == "jr"@ || mnemonic == "jp"@ {
        match o {
            Op::Lbl(target) => Some(Machine { skip: Some(target), ..m }),
            _ => None,
        }
    } else {
        match byte_of(m, o) {
            Some(v) => if mnemonic == "sub"@ {
                // a := a - v, borrowing when v is the larger
                Some(set_a(m, ((m.a - v) % 256) as u8, m.a < v))
            } else if mnemonic == "cp"@ {
                // the flags of a - v, with a kept
                Some(Machine { carry: m.a < v, zero: m.a == v, ..m })
            } else if mnemonic == "and"@ {
                Some(set_a(m, m.a & v, false))
            } else if mnemonic == "or"@ {
                Some(set_a(m, m.a | v, false))
            } else {
                None
            },
            None => None,
        }
    }
}

/// One instruction with two operands; the first is where the result goes.
pub open spec fn step2(m: Machine, mnemonic: Seq<char>, dst: Op, src: Op) -> Option<Machine> {
    if mnemonic == "jr"@ || mnemonic == "jp"@ {
        match (dst, src) {
            (Op::Cond(c), Op::Lbl(target)) => if holds(m, c) {
                Some(Machine { skip: Some(target), ..m })
            } else {
                Some(m)
            },
            _ => None,
        }
    } else if mnemonic == "ld"@ && dst == Op::Reg(Z80Register::DE) {
        match src {
            Op::Imm(n) => if -32768 <= n < 65536 {
                let w = n % 65536;
                Some(Machine { d: (w / 256) as u8, e: (w % 256) as u8, ..m })
            } else {
                None
            },
            _ => None,
        }
    } else if mnemonic == "add"@ && dst == Op::Reg(Z80Register::IX) && src == Op::Reg(Z80Register::DE) {
        Some(Machine { ix: m.ix + signed16(de(m)), ..m })
    } else if mnemonic == "add"@ && dst == Op::Reg(Z80Register::HL) && src == Op::Reg(Z80Register::DE) {
        // hl := hl + de modulo 65536, the carry out of the top bit
        let s = m.h * 256 + m.l + de(m);
        Some(Machine { h: ((s % 65536) / 256) as u8, l: (s % 256) as u8, carry: s >= 65536, ..m })
    } else {
        match byte_of(m, src) {
            Some(v) => if mnemonic == "ld"@ {
                put_byte(m, dst, v)
            } else if mnemonic == "add"@ && dst == Op::Reg(Z80Register::A) {
                Some(set_a(m, ((m.a + v) % 256) as u8, m.a + v >= 256))
            } else if mnemonic == "sbc"@ && dst == Op::Reg(Z80Register::A) {
                // a := a - v - carry, borrowing when v + carry is the larger
                let c: int = if m.carry {
                    1
                } else {
                    0
                };
                Some(set_a(m, ((m.a - v - c) % 256) as u8, m.a < v + c))
            } else {
                None
            },
            None => None,
        }
    }
}

/// One line. While a forward jump is under way, lines are passed over up
/// to its label; labels and comments otherwise change nothing; `None` for
/// a line this model does not cover.
pub open spec fn step(m: Machine, line: Line) -> Option<Machine> {
    match m.skip {
        Some(target) => if line == Line::Label(target) {
            Some(Machine { skip: None, ..m })
        } else {
            Some(m)
        },
        None => match line {
            Line::Instr(mnemonic, Some(o), None) => step1(m, mnemonic, o),
            Line::Instr(mnemonic, Some(dst), Some(src)) => step2(m, mnemonic, dst, src),
            Line::Label(_) => Some(m),
            Line::Comment(_) => Some(m),
            _ => None,
        },
    }
}

/// The lines from the `k`-th on, run one after the other.
pub open spec fn run_from(m: Machine, lines: Seq<Line>, k: int) -> Option<Machine>
    decreases lines.len() - k,
{
    if k < 0 || k >= lines.len() {
        Some(m)
    } else {
        match step(m, lines[k]) {
            Some(n) => run_from(n, lines, k + 1),
            None => None,
        }
    }
}

/// The lines run one after the other from the first.
pub open spec fn run(m: Machine, lines: Seq<Line>) -> Option<Machine> {
    run_from(m, lines, 0)
}

/// A machine that is not in the middle of a jump.
pub open spec fn ready(m: Machine) -> bool {
    m.skip is None
}

#[verifier::spinoff_prover]
proof fn lemma_mnemonics()
    ensures
        "cp"@ != "ld"@,
        "jr"@ != "ld"@,
        "jr"@ != "cp"@,
        "jp"@ != "ld"@,
        "jp"@ != "cp"@,
        "jp"@ != "jr"@,
        "or"@ != "ld"@,
        "or"@ != "cp"@,
        "or"@ != "jr"@,
        "or"@ != "jp"@,
        "inc"@ != "ld"@,
        "inc"@ != "cp"@,
        "inc"@ != "jr"@,
        "inc"@ != "jp"@,
        "inc"@ != "or"@,
        "dec"@ != "ld"@,
        "dec"@ != "cp"@,
        "dec"@ != "jr"@,
        "dec"@ != "jp"@,
        "dec"@ != "or"@,
        "dec"@ != "inc"@,
        "sub"@ != "ld"@,
        "sub"@ != "cp"@,
        "sub"@ != "jr"@,
        "sub"@ != "jp"@,
        "sub"@ != "or"@,
        "sub"@ != "inc"@,
        "sub"@ != "dec"@,
        "and"@ != "ld"@,
        "and"@ != "cp"@,
        "and"@ != "jr"@,
        "and"@ != "jp"@,
        "and"@ != "or"@,
        "and"@ != "inc"@,
        "and"@ != "dec"@,
        "and"@ != "sub"@,
        "add"@ != "ld"@,
        "add"@ != "cp"@,
        "add"@ != "jr"@,
        "add"@ != "jp"@,
        "add"@ != "or"@,
        "add"@ != "inc"@,
        "add"@ != "dec"@,
        "add"@ != "sub"@,
        "add"@ != "and"@,
        "sbc"@ != "ld"@,
        "sbc"@ != "cp"@,
        "sbc"@ != "jr"@,
        "sbc"@ != "jp"@,
        "sbc"@ != "or"@,
        "sbc"@ != "inc"@,
        "sbc"@ != "dec"@,
        "sbc"@ != "sub"@,
        "sbc"@ != "and"@,
        "sbc"@ != "add"@,
{
    reveal_strlit("ld");
    reveal_strlit("cp");
    reveal_strlit("jr");
    reveal_strlit("jp");
    reveal_strlit("or");
    reveal_strlit("inc");
    reveal_strlit("dec");
    reveal_strlit("sub");
    reveal_strlit("and");
    reveal_strlit("add");
    reveal_strlit("sbc");
    assert("ld"@.len() == 2);
    assert("cp"@.len() == 2);
    assert("jr"@.len() == 2);
    assert("jp"@.len() == 2);
    assert("or"@.len() == 2);
    assert("inc"@.len() == 3);
    assert("dec"@.len() == 3);
    assert("sub"@.len() == 3);
    assert("and"@.len() == 3);
    assert("add"@.len() == 3);
    assert("sbc"@.len() == 3);
    assert("cp"@[0] != "ld"@[0]);
    assert("jr"@[0] != "ld"@[0]);
    assert("jr"@[0] != "cp"@[0]);
    assert("jp"@[0] != "ld"@[0]);
    assert("jp"@[0] != "cp"@[0]);
    assert("jp"@[1] != "jr"@[1]);
    assert("or"@[0] != "ld"@[0]);
    assert("or"@[0] != "cp"@[0]);
    assert("or"@[0] != "jr"@[0]);
    assert("or"@[0] != "jp"@[0]);
    assert("dec"@[0] != "inc"@[0]);
    assert("sub"@[0] != "inc"@[0]);
    assert("sub"@[0] != "dec"@[0]);
    assert("and"@[0] != "inc"@[0]);
    assert("and"@[0] != "dec"@[0]);
    assert("and"@[0] != "sub"@[0]);
    assert("add"@[0] != "inc"@[0]);
    assert("add"@[0] != "dec"@[0]);
    assert("add"@[0] != "sub"@[0]);
    assert("add"@[1] != "and"@[1]);
    assert("sbc"@[0] != "inc"@[0]);
    assert("sbc"@[0] != "dec"@[0]);
    assert("sbc"@[1] != "sub"@[1]);
    assert("sbc"@[0] != "and"@[0]);
    assert("sbc"@[0] != "add"@[0]);
}

#[verifier::spinoff_prover]
proof fn lemma_end(lines: Seq<Line>, m: Machine)
    ensures
        run_from(m, lines, lines.len() as int) == Some(m),
{
}

#[verifier::spinoff_prover]
proof fn lemma_chain(lines: Seq<Line>, k: int, m: Machine, n: Machine, r: Machine)
    requires
        0 <= k < lines.len(),
        step(m, lines[k]) == Some(n),
        run_from(n, lines, k + 1) == Some(r),
    ensures
        run_from(m, lines, k) == Some(r),
{
}

/// Less-than on bytes compiles to code that compares the lower byte (at
/// `ix+1`) with the top byte (at `ix+0`): it leaves 1 in place of the two
/// exactly when the lower is below the top, 0 otherwise, as the
/// interpreter's `Lt` leaves `true` exactly when the lower value is below the
/// top one. IX moves up one byte, and no other byte of memory changes.
#[verifier::spinoff_prover]
pub proof fn law_z80_lt_u8_compares_lower_with_top(
    ir_ctx: &IRContext,
    id: int,
    block: int,
    index: int,
    m: Machine,
    s: Seq<ValueView>,
    heap: Seq<u8>,
    h: int,
    types: Seq<IRType>,
)
    requires
        ready(m),
        m.mem.dom().contains(m.ix),
        m.mem.dom().contains(m.ix + 1),
    ensures
        ({
            let lower = m.mem[m.ix + 1];
            let top = m.mem[m.ix];
            let flag: u8 = if lower < top {
                1
            } else {
                0
            };
            &&& run(m, instruction_lines(ir_ctx, id, block, index, IRInstruction::Lt { ty: IRType::U8 }))
                matches Some(r) && r.ix == m.ix + 1 && r.mem == m.mem.insert(m.ix + 1, flag)
            &&& (flag == 1) == (lower < top)
            &&& leaves(
                effect(s.push(ValueView::U8(lower)).push(ValueView::U8(top)), heap, h, types, IRInstruction::Lt { ty: IRType::U8 }),
                s,
                heap,
                h,
                ValueView::Bool(flag == 1),
            )
        }),
{
    lemma_mnemonics();
    let lower = m.mem[m.ix + 1];
    let top = m.mem[m.ix];
    let borrow = lower < top;
    let flag: u8 = if borrow {
        1
    } else {
        0
    };
    let full: u8 = if borrow {
        255
    } else {
        0
    };
    assert(255u8 & 1u8 == 1u8) by (bit_vector);
    assert(0u8 & 1u8 == 0u8) by (bit_vector);
    let lines = instruction_lines(ir_ctx, id, block, index, IRInstruction::Lt { ty: IRType::U8 });
    // ld a,(ix+1); sub (ix+0): the carry is the borrow of lower - top
    let m1 = Machine { a: lower, ..m };
    let m2 = set_a(m1, ((lower - top) % 256) as u8, borrow);
    // ld a,0; sbc a,a: 0 - 0 - carry, so 255 after a borrow, else 0; and 1
    let m3 = Machine { a: 0, ..m2 };
    let m4 = set_a(m3, full, borrow);
    let m5 = set_a(m4, flag, false);
    // ld (ix+1),a; inc ix
    let m6 = Machine { mem: m.mem.insert(m.ix + 1, flag), ..m5 };
    let m7 = Machine { ix: m.ix + 1, ..m6 };
    lemma_end(lines, m7);
    lemma_chain(lines, 6, m6, m7, m7);
    lemma_chain(lines, 5, m5, m6, m7);
    lemma_chain(lines, 4, m4, m5, m7);
    lemma_chain(lines, 3, m3, m4, m7);
    lemma_chain(lines, 2, m2, m3, m7);
    lemma_chain(lines, 1, m1, m2, m7);
    lemma_chain(lines, 0, m, m1, m7);
    law_compare_bytes(s, heap, h, types, IRType::U8, lower, top);
}

/// Addition on bytes compiles to code that leaves, in place of the two top
/// bytes, their sum modulo 256, as the interpreter's `Add` does; IX moves up
/// one byte, and no other byte of memory changes.
#[verifier::spinoff_prover]
pub proof fn law_z80_add_u8_adds_the_two_top_bytes(
    ir_ctx: &IRContext,
    id: int,
    block: int,
    index: int,
    m: Machine,
    s: Seq<ValueView>,
    heap: Seq<u8>,
    h: int,
    types: Seq<IRType>,
)
    requires
        ready(m),
        m.mem.dom().contains(m.ix),
        m.mem.dom().contains(m.ix + 1),
    ensures
        ({
            let lower = m.mem[m.ix + 1];
            let top = m.mem[m.ix];
            let sum = ((lower + top) % 256) as u8;
            &&& run(m, instruction_lines(ir_ctx, id, block, index, IRInstruction::Add { ty: IRType::U8 }))
                matches Some(r) && r.ix == m.ix + 1 && r.mem == m.mem.insert(m.ix + 1, sum)
            &&& leaves(
                effect(s.push(ValueView::U8(lower)).push(ValueView::U8(top)), heap, h, types, IRInstruction::Add { ty: IRType::U8 }),
                s,
                heap,
                h,
                ValueView::U8(sum),
            )
        }),
{
    lemma_mnemonics();
    reveal_with_fuel(run_from, 5);
    law_arith_bytes(s, heap, h, types, IRType::U8, m.mem[m.ix + 1], m.mem[m.ix]);
}

/// Equality on bytes compiles to code that leaves 1 in place of the two top
/// bytes exactly when they are equal, 0 otherwise, as the interpreter's
/// `Eq` does; IX moves up one byte, and no other byte of memory changes.
#[verifier::spinoff_prover]
pub proof fn law_z80_eq_u8_compares_the_two_top_bytes(
    ir_ctx: &IRContext,
    id: int,
    block: int,
    index: int,
    m: Machine,
    s: Seq<ValueView>,
    heap: Seq<u8>,
    h: int,
    types: Seq<IRType>,
)
    requires
        ready(m),
        m.mem.dom().contains(m.ix),
        m.mem.dom().contains(m.ix + 1),
    ensures
        ({
            let lower = m.mem[m.ix + 1];
            let top = m.mem[m.ix];
            let flag: u8 = if lower == top {
                1
            } else {
                0
            };
            &&& run(m, instruction_lines(ir_ctx, id, block, index, IRInstruction::Eq { ty: IRType::U8 }))
                matches Some(r) && r.ix == m.ix + 1 && r.mem == m.mem.insert(m.ix + 1, flag)
            &&& leaves(
                effect(s.push(ValueView::U8(lower)).push(ValueView::U8(top)), heap, h, types, IRInstruction::Eq { ty: IRType::U8 }),
                s,
                heap,
                h,
                ValueView::Bool(flag == 1),
            )
        }),
{
    lemma_mnemonics();
    let lower = m.mem[m.ix + 1];
    let top = m.mem[m.ix];
    let same = lower == top;
    let flag: u8 = if same {
        1
    } else {
        0
    };
    let label = local_label_text(id, block, "_eq_u8_"@, index, "_not_equal"@);
    let lines = eq_u8_lines(label);
    assert(instruction_lines(ir_ctx, id, block, index, IRInstruction::Eq { ty: IRType::U8 }) == lines);
    // ld a,(ix+1); cp (ix+0); ld a,0
    let m1 = Machine { a: lower, ..m };
    let m2 = Machine { carry: lower < top, zero: same, ..m1 };
    let m3 = Machine { a: 0, ..m2 };
    // jr nz past `inc a` unless equal; at the label a is the flag
    let m6 = if same {
        Machine { a: 1, zero: false, ..m3 }
    } else {
        m3
    };
    // ld (ix+1),a; inc ix
    let m7 = Machine { mem: m.mem.insert(m.ix + 1, flag), ..m6 };
    let m8 = Machine { ix: m.ix + 1, ..m7 };
    lemma_end(lines, m8);
    lemma_chain(lines, 7, m7, m8, m8);
    lemma_chain(lines, 6, m6, m7, m8);
    if same {
        lemma_chain(lines, 5, m6, m6, m8);
        lemma_chain(lines, 4, m3, m6, m8);
        lemma_chain(lines, 3, m3, m3, m8);
    } else {
        let jumping = Machine { skip: Some(label), ..m3 };
        lemma_chain(lines, 5, jumping, m6, m8);
        lemma_chain(lines, 4, jumping, jumping, m8);
        lemma_chain(lines, 3, m3, jumping, m8);
    }
    lemma_chain(lines, 2, m2, m3, m8);
    lemma_chain(lines, 1, m1, m2, m8);
    lemma_chain(lines, 0, m, m1, m8);
    law_compare_bytes(s, heap, h, types, IRType::U8, lower, top);
}

/// Less-than on 16-bit values compiles to code that compares the lower value
/// (high byte at `ix+3`, low byte at `ix+2`) with the top one (high byte at
/// `ix+1`, low byte at `ix+0`): it leaves 1 in place of the four bytes
/// exactly when the lower value is below the top one, as the interpreter's
/// `Lt` does; IX moves up three bytes, and no other byte of memory changes.
#[verifier::spinoff_prover]
#[verifier::rlimit(80)]
pub proof fn law_z80_lt_u16_compares_lower_with_top(
    ir_ctx: &IRContext,
    id: int,
    block: int,
    index: int,
    m: Machine,
    s: Seq<ValueView>,
    heap: Seq<u8>,
    h: int,
    types: Seq<IRType>,
)
    requires
        ready(m),
        m.mem.dom().contains(m.ix),
        m.mem.dom().contains(m.ix + 1),
        m.mem.dom().contains(m.ix + 2),
        m.mem.dom().contains(m.ix + 3),
    ensures
        ({
            let lower = m.mem[m.ix + 3] * 256 + m.mem[m.ix + 2];
            let top = m.mem[m.ix + 1] * 256 + m.mem[m.ix];
            let flag: u8 = if lower < top {
                1
            } else {
                0
            };
            &&& run(m, instruction_lines(ir_ctx, id, block, index, IRInstruction::Lt { ty: IRType::U16 }))
                matches Some(r) && r.ix == m.ix + 3 && r.mem == m.mem.insert(m.ix + 3, flag)
            &&& leaves(
                effect(s.push(ValueView::U16(lower as u16)).push(ValueView::U16(top as u16)), heap, h, types, IRInstruction::Lt { ty: IRType::U16 }),
                s,
                heap,
                h,
                ValueView::Bool(flag == 1),
            )
        }),
{
    lemma_mnemonics();
    let ll = m.mem[m.ix + 2];
    let lh = m.mem[m.ix + 3];
    let tl = m.mem[m.ix];
    let th = m.mem[m.ix + 1];
    let lower = lh * 256 + ll;
    let top = th * 256 + tl;
    let borrow = lower < top;
    let flag: u8 = if borrow {
        1
    } else {
        0
    };
    let full: u8 = if borrow {
        255
    } else {
        0
    };
    assert(255u8 & 1u8 == 1u8) by (bit_vector);
    assert(0u8 & 1u8 == 0u8) by (bit_vector);
    let label = local_label_text(id, block, "_lt_u16_"@, index, "_compare_done"@);
    let lines = lt_u16_lines(label);
    assert(instruction_lines(ir_ctx, id, block, index, IRInstruction::Lt { ty: IRType::U16 }) == lines);
    // ld a,(ix+3); cp (ix+1): the high bytes
    let m1 = Machine { a: lh, ..m };
    let m2 = Machine { carry: lh < th, zero: lh == th, ..m1 };
    // jr nz to the label when they differ, else ld a,(ix+2); cp (ix+0): the
    // low bytes; either way the carry is the borrow of lower - top
    let m4 = Machine { a: ll, ..m2 };
    let m5 = Machine { carry: ll < tl, zero: ll == tl, ..m4 };
    let m6 = if lh != th {
        m2
    } else {
        m5
    };
    assert(m6.carry == borrow);
    // ld a,0; sbc a,a; and 1; ld (ix+3),a; ld de,3; add ix,de
    let m7 = Machine { a: 0, ..m6 };
    let m8 = set_a(m7, full, borrow);
    let m9 = set_a(m8, flag, false);
    let m10 = Machine { mem: m.mem.insert(m.ix + 3, flag), ..m9 };
    let m11 = Machine { d: 0, e: 3, ..m10 };
    let m12 = Machine { ix: m.ix + 3, ..m11 };
    lemma_end(lines, m12);
    lemma_chain(lines, 11, m11, m12, m12);
    lemma_chain(lines, 10, m10, m11, m12);
    lemma_chain(lines, 9, m9, m10, m12);
    lemma_chain(lines, 8, m8, m9, m12);
    lemma_chain(lines, 7, m7, m8, m12);
    lemma_chain(lines, 6, m6, m7, m12);
    if lh != th {
        let jumping = Machine { skip: Some(label), ..m2 };
        lemma_chain(lines, 5, jumping, m6, m12);
        lemma_chain(lines, 4, jumping, jumping, m12);
        lemma_chain(lines, 3, jumping, jumping, m12);
        lemma_chain(lines, 2, m2, jumping, m12);
    } else {
        lemma_chain(lines, 5, m5, m6, m12);
        lemma_chain(lines, 4, m4, m5, m12);
        lemma_chain(lines, 3, m2, m4, m12);
        lemma_chain(lines, 2, m2, m2, m12);
    }
    lemma_chain(lines, 1, m1, m2, m12);
    lemma_chain(lines, 0, m, m1, m12);
    law_compare_words(s, heap, h, types, IRType::U16, lower as u16, top as u16);
}

/// Equality on 16-bit values compiles to code that leaves 1 in place of the
/// four top bytes exactly when the two values are equal, as the
/// interpreter's `Eq` does; IX moves up three bytes, and no other byte of
/// memory changes.
#[verifier::spinoff_prover]
#[verifier::rlimit(80)]
pub proof fn law_z80_eq_u16_compares_the_two_top_values(
    ir_ctx: &IRContext,
    id: int,
    block: int,
    index: int,
    m: Machine,
    s: Seq<ValueView>,
    heap: Seq<u8>,
    h: int,
    types: Seq<IRType>,
)
    requires
        ready(m),
        m.mem.dom().contains(m.ix),
        m.mem.dom().contains(m.ix + 1),
        m.mem.dom().contains(m.ix + 2),
        m.mem.dom().contains(m.ix + 3),
    ensures
        ({
            let lower = m.mem[m.ix + 3] * 256 + m.mem[m.ix + 2];
            let top = m.mem[m.ix + 1] * 256 + m.mem[m.ix];
            let flag: u8 = if lower == top {
                1
            } else {
                0
            };
            &&& run(m, instruction_lines(ir_ctx, id, block, index, IRInstruction::Eq { ty: IRType::U16 }))
                matches Some(r) && r.ix == m.ix + 3 && r.mem == m.mem.insert(m.ix + 3, flag)
            &&& leaves(
                effect(s.push(ValueView::U16(lower as u16)).push(ValueView::U16(top as u16)), heap, h, types, IRInstruction::Eq { ty: IRType::U16 }),
                s,
                heap,
                h,
                ValueView::Bool(flag == 1),
            )
        }),
{
    lemma_mnemonics();
    let ll = m.mem[m.ix + 2];
    let lh = m.mem[m.ix + 3];
    let tl = m.mem[m.ix];
    let th = m.mem[m.ix + 1];
    let lower = lh * 256 + ll;
    let top = th * 256 + tl;
    let same = lower == top;
    let flag: u8 = if same {
        1
    } else {
        0
    };
    let label = local_label_text(id, block, "_eq_u16_"@, index, "_not_equal"@);
    let lines = eq_u16_lines(label);
    assert(instruction_lines(ir_ctx, id, block, index, IRInstruction::Eq { ty: IRType::U16 }) == lines);
    // ld a,(ix+3); cp (ix+1); ld a,0: the high bytes
    let m1 = Machine { a: lh, ..m };
    let m2 = Machine { carry: lh < th, zero: lh == th, ..m1 };
    let m3 = Machine { a: 0, ..m2 };
    // then, when they are equal, ld a,(ix+2); cp (ix+0); ld a,0: the low bytes
    let m5 = Machine { a: ll, ..m3 };
    let m6 = Machine { carry: ll < tl, zero: ll == tl, ..m5 };
    let m7 = Machine { a: 0, ..m6 };
    // inc a when both are equal; at the label a is the flag
    let m10 = if lh != th {
        m3
    } else if ll != tl {
        m7
    } else {
        Machine { a: 1, zero: false, ..m7 }
    };
    // ld (ix+3),a; ld de,3; add ix,de
    let m11 = Machine { mem: m.mem.insert(m.ix + 3, flag), ..m10 };
    let m12 = Machine { d: 0, e: 3, ..m11 };
    let m13 = Machine { ix: m.ix + 3, ..m12 };
    lemma_end(lines, m13);
    lemma_chain(lines, 12, m12, m13, m13);
    lemma_chain(lines, 11, m11, m12, m13);
    lemma_chain(lines, 10, m10, m11, m13);
    if lh != th {
        let jumping = Machine { skip: Some(label), ..m3 };
        lemma_chain(lines, 9, jumping, m10, m13);
        lemma_chain(lines, 8, jumping, jumping, m13);
        lemma_chain(lines, 7, jumping, jumping, m13);
        lemma_chain(lines, 6, jumping, jumping, m13);
        lemma_chain(lines, 5, jumping, jumping, m13);
        lemma_chain(lines, 4, jumping, jumping, m13);
        lemma_chain(lines, 3, m3, jumping, m13);
    } else {
        if ll != tl {
            let jumping = Machine { skip: Some(label), ..m7 };
            lemma_chain(lines, 9, jumping, m10, m13);
            lemma_chain(lines, 8, jumping, jumping, m13);
            lemma_chain(lines, 7, m7, jumping, m13);
        } else {
            lemma_chain(lines, 9, m10, m10, m13);
            lemma_chain(lines, 8, m7, m10, m13);
            lemma_chain(lines, 7, m7, m7, m13);
        }
        lemma_chain(lines, 6, m6, m7, m13);
        lemma_chain(lines, 5, m5, m6, m13);
        lemma_chain(lines, 4, m3, m5, m13);
        lemma_chain(lines, 3, m3, m3, m13);
    }
    lemma_chain(lines, 2, m2, m3, m13);
    lemma_chain(lines, 1, m1, m2, m13);
    lemma_chain(lines, 0, m, m1, m13);
    law_compare_words(s, heap, h, types, IRType::U16, lower as u16, top as u16);
}

#[verifier::spinoff_prover]
proof fn lemma_add_u16_bytes(lh: u8, ll: u8, th: u8, tl: u8)
    ensures
        ({
            let total = lh * 256 + ll + (th * 256 + tl);
            let sum = (lh * 256 + ll + th * 256 + tl) % 65536;
            &&& ((total % 65536) / 256) as u8 == (sum / 256) as u8
            &&& (total % 256) as u8 == (sum % 256) as u8
        }),
{
    let total = lh * 256 + ll + (th * 256 + tl);
    let sum = (lh * 256 + ll + th * 256 + tl) % 65536;
    if total >= 65536 {
        assert(sum == total - 65536);
    } else {
        assert(sum == total);
    }
}

#[verifier::spinoff_prover]
#[verifier::rlimit(40)]
proof fn lemma_add_u16_run(ir_ctx: &IRContext, id: int, block: int, index: int, m: Machine)
    requires
        ready(m),
        m.mem.dom().contains(m.ix),
        m.mem.dom().contains(m.ix + 1),
        m.mem.dom().contains(m.ix + 2),
        m.mem.dom().contains(m.ix + 3),
    ensures
        ({
            let lower = m.mem[m.ix + 3] * 256 + m.mem[m.ix + 2];
            let top = m.mem[m.ix + 1] * 256 + m.mem[m.ix];
            let sum = (lower + top) % 65536;
            run(m, instruction_lines(ir_ctx, id, block, index, IRInstruction::Add { ty: IRType::U16 }))
                matches Some(r) && r.ix == m.ix + 2
                && r.mem == m.mem.insert(m.ix + 2, (sum % 256) as u8).insert(m.ix + 3, (sum / 256) as u8)
        }),
{
    lemma_mnemonics();
    let ll = m.mem[m.ix + 2];
    let lh = m.mem[m.ix + 3];
    let tl = m.mem[m.ix];
    let th = m.mem[m.ix + 1];
    lemma_add_u16_bytes(lh, ll, th, tl);
    let lines = instruction_lines(ir_ctx, id, block, index, IRInstruction::Add { ty: IRType::U16 });
    // the top value into DE, the lower one into HL, one byte at a time
    let m1 = Machine { a: tl, ..m };
    let m2 = Machine { e: tl, ..m1 };
    let m3 = Machine { a: th, ..m2 };
    let m4 = Machine { d: th, ..m3 };
    let m5 = Machine { a: ll, ..m4 };
    let m6 = Machine { l: ll, ..m5 };
    let m7 = Machine { a: lh, ..m6 };
    let m8 = Machine { h: lh, ..m7 };
    // add hl,de
    let total = m8.h * 256 + m8.l + de(m8);
    let hi = ((total % 65536) / 256) as u8;
    let lo = (total % 256) as u8;
    let m9 = Machine { h: hi, l: lo, carry: total >= 65536, ..m8 };
    // HL back in place of the lower value, then IX up two bytes
    let m10 = Machine { a: lo, ..m9 };
    let m11 = Machine { mem: m.mem.insert(m.ix + 2, lo), ..m10 };
    let m12 = Machine { a: hi, ..m11 };
    let m13 = Machine { mem: m.mem.insert(m.ix + 2, lo).insert(m.ix + 3, hi), ..m12 };
    let m14 = Machine { d: 0, e: 2, ..m13 };
    let m15 = Machine { ix: m.ix + 2, ..m14 };
    lemma_end(lines, m15);
    lemma_chain(lines, 14, m14, m15, m15);
    lemma_chain(lines, 13, m13, m14, m15);
    lemma_chain(lines, 12, m12, m13, m15);
    lemma_chain(lines, 11, m11, m12, m15);
    lemma_chain(lines, 10, m10, m11, m15);
    lemma_chain(lines, 9, m9, m10, m15);
    lemma_chain(lines, 8, m8, m9, m15);
    lemma_chain(lines, 7, m7, m8, m15);
    lemma_chain(lines, 6, m6, m7, m15);
    lemma_chain(lines, 5, m5, m6, m15);
    lemma_chain(lines, 4, m4, m5, m15);
    lemma_chain(lines, 3, m3, m4, m15);
    lemma_chain(lines, 2, m2, m3, m15);
    lemma_chain(lines, 1, m1, m2, m15);
    lemma_chain(lines, 0, m, m1, m15);
}

/// Addition on 16-bit values compiles to code that leaves, in place of the
/// four top bytes, the sum of the two values modulo 65536 (low byte at
/// `ix+2`, high byte at `ix+3`), as the interpreter's `Add` does; IX moves
/// up two bytes, and no other byte of memory changes.
#[verifier::spinoff_prover]
pub proof fn law_z80_add_u16_adds_the_two_top_values(
    ir_ctx: &IRContext,
    id: int,
    block: int,
    index: int,
    m: Machine,
    s: Seq<ValueView>,
    heap: Seq<u8>,
    h: int,
    types: Seq<IRType>,
)
    requires
        ready(m),
        m.mem.dom().contains(m.ix),
        m.mem.dom().contains(m.ix + 1),
        m.mem.dom().contains(m.ix + 2),
        m.mem.dom().contains(m.ix + 3),
    ensures
        ({
            let lower = m.mem[m.ix + 3] * 256 + m.mem[m.ix + 2];
            let top = m.mem[m.ix + 1] * 256 + m.mem[m.ix];
            let sum = (lower + top) % 65536;
            &&& run(m, instruction_lines(ir_ctx, id, block, index, IRInstruction::Add { ty: IRType::U16 }))
                matches Some(r) && r.ix == m.ix + 2
                && r.mem == m.mem.insert(m.ix + 2, (sum % 256) as u8).insert(m.ix + 3, (sum / 256) as u8)
            &&& leaves(
                effect(s.push(ValueView::U16(lower as u16)).push(ValueView::U16(top as u16)), heap, h, types, IRInstruction::Add { ty: IRType::U16 }),
                s,
                heap,
                h,
                ValueView::U16(sum as u16),
            )
        }),
{
    let lower = m.mem[m.ix + 3] * 256 + m.mem[m.ix + 2];
    let top = m.mem[m.ix + 1] * 256 + m.mem[m.ix];
    lemma_add_u16_run(ir_ctx, id, block, index, m);
    law_arith_words(s, heap, h, types, IRType::U16, lower as u16, top as u16);
}

#[verifier::spinoff_prover]
proof fn lemma_widen(ir_ctx: &IRContext, id: int, block: int, index: int, m: Machine)
    requires
        ready(m),
        m.mem.dom().contains(m.ix - 1),
        m.mem.dom().contains(m.ix),
    ensures
        run(m, instruction_lines(ir_ctx, id, block, index, IRInstruction::Cast { from: IRType::U8, to: IRType::U16 }))
            matches Some(r) && r.ix == m.ix - 1 && r.mem == m.mem.insert(m.ix - 1, m.mem[m.ix]).insert(m.ix, 0u8),
{
    lemma_mnemonics();
    let v = m.mem[m.ix];
    let widen = instruction_lines(ir_ctx, id, block, index, IRInstruction::Cast { from: IRType::U8, to: IRType::U16 });
    // ld a,(ix+0); dec ix; ld (ix+0),a; ld (ix+1),0
    let w1 = Machine { a: v, ..m };
    let w2 = Machine { ix: m.ix - 1, ..w1 };
    let w3 = Machine { mem: m.mem.insert(m.ix - 1, v), ..w2 };
    let w4 = Machine { mem: m.mem.insert(m.ix - 1, v).insert(m.ix, 0u8), ..w3 };
    lemma_end(widen, w4);
    lemma_chain(widen, 3, w3, w4, w4);
    lemma_chain(widen, 2, w2, w3, w4);
    lemma_chain(widen, 1, w1, w2, w4);
    lemma_chain(widen, 0, m, w1, w4);
}

#[verifier::spinoff_prover]
proof fn lemma_narrow(ir_ctx: &IRContext, id: int, block: int, index: int, m: Machine)
    requires
        ready(m),
        m.mem.dom().contains(m.ix),
        m.mem.dom().contains(m.ix + 1),
    ensures
        run(m, instruction_lines(ir_ctx, id, block, index, IRInstruction::Cast { from: IRType::U16, to: IRType::U8 }))
            matches Some(r) && r.ix == m.ix + 1 && r.mem == m.mem.insert(m.ix + 1, m.mem[m.ix]),
{
    lemma_mnemonics();
    let v = m.mem[m.ix];
    let narrow = instruction_lines(ir_ctx, id, block, index, IRInstruction::Cast { from: IRType::U16, to: IRType::U8 });
    // ld a,(ix+0); inc ix; ld (ix+0),a
    let n1 = Machine { a: v, ..m };
    let n2 = Machine { ix: m.ix + 1, ..n1 };
    let n3 = Machine { mem: m.mem.insert(m.ix + 1, v), ..n2 };
    lemma_end(narrow, n3);
    lemma_chain(narrow, 2, n2, n3, n3);
    lemma_chain(narrow, 1, n1, n2, n3);
    lemma_chain(narrow, 0, m, n1, n3);
}

/// Widening a byte compiles to code that leaves a 16-bit value equal to the
/// byte: the byte as the low byte, 0 as the high byte, one byte deeper;
/// narrowing compiles to code that keeps the low byte and drops the high
/// one. The interpreter's casts keep the value in the same way.
#[verifier::spinoff_prover]
pub proof fn law_z80_casts_keep_the_value(
    ir_ctx: &IRContext,
    id: int,
    block: int,
    index: int,
    m: Machine,
    s: Seq<ValueView>,
    heap: Seq<u8>,
    h: int,
    types: Seq<IRType>,
)
    requires
        ready(m),
        m.mem.dom().contains(m.ix - 1),
        m.mem.dom().contains(m.ix),
        m.mem.dom().contains(m.ix + 1),
    ensures
        ({
            let v = m.mem[m.ix];
            &&& run(m, instruction_lines(ir_ctx, id, block, index, IRInstruction::Cast { from: IRType::U8, to: IRType::U16 }))
                matches Some(r) && r.ix == m.ix - 1 && r.mem == m.mem.insert(m.ix - 1, v).insert(m.ix, 0u8)
            &&& goes_on(
                effect(s.push(ValueView::U8(v)), heap, h, types, IRInstruction::Cast { from: IRType::U8, to: IRType::U16 }),
                s.push(ValueView::U16((0 * 256 + v) as u16)),
                heap,
                h,
            )
        }),
        ({
            let w = m.mem[m.ix + 1] * 256 + m.mem[m.ix];
            &&& run(m, instruction_lines(ir_ctx, id, block, index, IRInstruction::Cast { from: IRType::U16, to: IRType::U8 }))
                matches Some(r) && r.ix == m.ix + 1 && r.mem == m.mem.insert(m.ix + 1, (w % 256) as u8)
            &&& goes_on(
                effect(s.push(ValueView::U16(w as u16)), heap, h, types, IRInstruction::Cast { from: IRType::U16, to: IRType::U8 }),
                s.push(ValueView::U8((w % 256) as u8)),
                heap,
                h,
            )
        }),
{
    lemma_widen(ir_ctx, id, block, index, m);
    lemma_narrow(ir_ctx, id, block, index, m);
    let v = m.mem[m.ix];
    let w = m.mem[m.ix + 1] * 256 + m.mem[m.ix];
    assert((w % 256) as u8 == v);
    law_casts_keep_the_value(s, heap, h, types, v, w as u16);
}

/// A byte constant compiles to code that pushes it: IX moves down one byte
/// and the byte is written there, as the interpreter pushes the constant.
#[verifier::spinoff_prover]
pub proof fn law_z80_push_byte_constant(
    ir_ctx: &IRContext,
    id: int,
    block: int,
    index: int,
    m: Machine,
    v: u8,
)
    requires
        ready(m),
        m.mem.dom().contains(m.ix - 1),
    ensures
        run(m, instruction_lines(ir_ctx, id, block, index, IRInstruction::PushConstant { value: IRConstant::U8(v) }))
            matches Some(r) && r.ix == m.ix - 1 && r.mem == m.mem.insert(m.ix - 1, v),
{
    lemma_mnemonics();
    let lines = instruction_lines(ir_ctx, id, block, index, IRInstruction::PushConstant { value: IRConstant::U8(v) });
    let m1 = Machine { ix: m.ix - 1, ..m };
    let m2 = Machine { mem: m.mem.insert(m.ix - 1, v), ..m1 };
    lemma_end(lines, m2);
    lemma_chain(lines, 1, m1, m2, m2);
    lemma_chain(lines, 0, m, m1, m2);
}

#[verifier::spinoff_prover]
proof fn lemma_load_run(ir_ctx: &IRContext, id: int, block: int, index: int, m: Machine)
    requires
        ready(m),
        m.mem.dom().contains(m.ix),
        m.mem.dom().contains(m.ix + 1),
        m.mem.dom().contains(m.mem[m.ix + 1] * 256 + m.mem[m.ix]),
    ensures
        run(m, instruction_lines(ir_ctx, id, block, index, IRInstruction::Load)) matches Some(r)
            && r.ix == m.ix + 1 && r.mem == m.mem.insert(m.ix + 1, m.mem[m.mem[m.ix + 1] * 256 + m.mem[m.ix]]),
{
    lemma_mnemonics();
    let address = m.mem[m.ix + 1] * 256 + m.mem[m.ix];
    let lines = seq![
        i2("ld"@, Op::Reg(Z80Register::E), xo(0)),
        i2("ld"@, Op::Reg(Z80Register::D), xo(1)),
        i2("ld"@, ra(), Op::Ind(Z80Register::DE)),
        i2("ld"@, xo(1), ra()),
        i1("inc"@, Op::Reg(Z80Register::IX)),
    ];
    assert(instruction_lines(ir_ctx, id, block, index, IRInstruction::Load) == lines);
    // ld e,(ix+0); ld d,(ix+1); ld a,(de); ld (ix+1),a; inc ix
    let m1 = Machine { e: m.mem[m.ix], ..m };
    let m2 = Machine { d: m.mem[m.ix + 1], ..m1 };
    let m3 = Machine { a: m.mem[address], ..m2 };
    let m4 = Machine { mem: m.mem.insert(m.ix + 1, m.mem[address]), ..m3 };
    let m5 = Machine { ix: m.ix + 1, ..m4 };
    lemma_end(lines, m5);
    lemma_chain(lines, 4, m4, m5, m5);
    lemma_chain(lines, 3, m3, m4, m5);
    lemma_chain(lines, 2, m2, m3, m5);
    lemma_chain(lines, 1, m1, m2, m5);
    lemma_chain(lines, 0, m, m1, m5);
}

#[verifier::spinoff_prover]
proof fn lemma_store_run(ir_ctx: &IRContext, id: int, block: int, index: int, m: Machine)
    requires
        ready(m),
        m.mem.dom().contains(m.ix),
        m.mem.dom().contains(m.ix + 1),
        m.mem.dom().contains(m.ix + 2),
        m.mem.dom().contains(m.mem[m.ix + 2] * 256 + m.mem[m.ix + 1]),
    ensures
        run(m, instruction_lines(ir_ctx, id, block, index, IRInstruction::Store)) matches Some(r)
            && r.ix == m.ix + 3 && r.mem == m.mem.insert(m.mem[m.ix + 2] * 256 + m.mem[m.ix + 1], m.mem[m.ix]),
{
    lemma_mnemonics();
    let target = m.mem[m.ix + 2] * 256 + m.mem[m.ix + 1];
    let v = m.mem[m.ix];
    let lines = seq![
        i2("ld"@, ra(), xo(0)),
        i2("ld"@, Op::Reg(Z80Register::E), xo(1)),
        i2("ld"@, Op::Reg(Z80Register::D), xo(2)),
        i2("ld"@, Op::Ind(Z80Register::DE), ra()),
    ] + move_lines(3);
    assert(instruction_lines(ir_ctx, id, block, index, IRInstruction::Store) == lines);
    // ld a,(ix+0); ld e,(ix+1); ld d,(ix+2); ld (de),a; ld de,3; add ix,de
    let m1 = Machine { a: v, ..m };
    let m2 = Machine { e: m.mem[m.ix + 1], ..m1 };
    let m3 = Machine { d: m.mem[m.ix + 2], ..m2 };
    let m4 = Machine { mem: m.mem.insert(target, v), ..m3 };
    let m5 = Machine { d: 0, e: 3, ..m4 };
    let m6 = Machine { ix: m.ix + 3, ..m5 };
    lemma_end(lines, m6);
    lemma_chain(lines, 5, m5, m6, m6);
    lemma_chain(lines, 4, m4, m5, m6);
    lemma_chain(lines, 3, m3, m4, m6);
    lemma_chain(lines, 2, m2, m3, m6);
    lemma_chain(lines, 1, m1, m2, m6);
    lemma_chain(lines, 0, m, m1, m6);
}

/// Memory access compiles to code that reads and writes the byte at the
/// address on the stack (high byte deeper, low byte nearer the top): `Load`
/// replaces the address with the byte stored there; `Store` writes the byte
/// on top at the address below it and drops both. So a load after a store to
/// the same address reads back the byte that was stored.
#[verifier::spinoff_prover]
pub proof fn law_z80_load_and_store_use_the_address(
    ir_ctx: &IRContext,
    id: int,
    block: int,
    index: int,
    m: Machine,
)
    requires
        ready(m),
        m.mem.dom().contains(m.ix),
        m.mem.dom().contains(m.ix + 1),
        m.mem.dom().contains(m.ix + 2),
    ensures
        ({
            let address = m.mem[m.ix + 1] * 256 + m.mem[m.ix];
            m.mem.dom().contains(address) ==> (run(m, instruction_lines(ir_ctx, id, block, index, IRInstruction::Load))
                matches Some(r) && r.ix == m.ix + 1 && r.mem == m.mem.insert(m.ix + 1, m.mem[address]))
        }),
        ({
            let address = m.mem[m.ix + 2] * 256 + m.mem[m.ix + 1];
            let v = m.mem[m.ix];
            m.mem.dom().contains(address) ==> (run(m, instruction_lines(ir_ctx, id, block, index, IRInstruction::Store))
                matches Some(r) && r.ix == m.ix + 3 && r.mem == m.mem.insert(address, v)
                && r.mem[address] == v)
        }),
{
    let address = m.mem[m.ix + 1] * 256 + m.mem[m.ix];
    if m.mem.dom().contains(address) {
        lemma_load_run(ir_ctx, id, block, index, m);
    }
    let target = m.mem[m.ix + 2] * 256 + m.mem[m.ix + 1];
    if m.mem.dom().contains(target) {
        lemma_store_run(ir_ctx, id, block, index, m);
    }
}

/// The machine after `ld de,n; add ix,de`.
pub open spec fn after_move(m: Machine, n: int) -> Machine {
    let w = n % 65536;
    Machine { d: (w / 256) as u8, e: (w % 256) as u8, ix: m.ix + n, ..m }
}

#[verifier::spinoff_prover]
proof fn lemma_move(m: Machine, n: int)
    requires
        ready(m),
        -32768 <= n < 32768,
    ensures
        run(m, move_lines(n)) == Some(after_move(m, n)),
{
    lemma_mnemonics();
    let lines = move_lines(n);
    let w = n % 65536;
    if n < 0 {
        assert(w == n + 65536);
    } else {
        assert(w == n);
    }
    let m1 = Machine { d: (w / 256) as u8, e: (w % 256) as u8, ..m };
    let m2 = after_move(m, n);
    assert(de(m1) == w);
    assert(signed16(w) == n);
    lemma_end(lines, m2);
    lemma_chain(lines, 1, m1, m2, m2);
    lemma_chain(lines, 0, m, m1, m2);
}

/// Dropping a value compiles to code that moves IX up past its bytes and
/// changes no byte of memory (for a value of fewer than 32768 bytes, which
/// the model adds to IX without wrapping around).
#[verifier::spinoff_prover]
pub proof fn law_z80_drop_moves_past_the_value(
    ir_ctx: &IRContext,
    id: int,
    block: int,
    index: int,
    m: Machine,
    ty: IRType,
)
    requires
        ready(m),
        size_of(ir_type_view(ty)) < 32768,
    ensures
        run(m, instruction_lines(ir_ctx, id, block, index, IRInstruction::Drop { ty }))
            matches Some(r) && r.ix == m.ix + size_of(ir_type_view(ty)) && r.mem == m.mem,
{
    let n = size_of(ir_type_view(ty)) as int;
    assert(instruction_lines(ir_ctx, id, block, index, IRInstruction::Drop { ty }) == move_lines(n));
    lemma_move(m, n);
    assert(after_move(m, n).ix == m.ix + n);
}

/// Duplicating a byte or a 16-bit value compiles to code that moves IX down
/// past a new copy of the value's bytes, in the same order; `over` on two
/// bytes copies the lower one to a new top. The bytes already on the stack
/// are unchanged.
#[verifier::spinoff_prover]
pub proof fn law_z80_dup_and_over_copy(
    ir_ctx: &IRContext,
    id: int,
    block: int,
    index: int,
    m: Machine,
)
    requires
        ready(m),
        m.mem.dom().contains(m.ix - 2),
        m.mem.dom().contains(m.ix - 1),
        m.mem.dom().contains(m.ix),
        m.mem.dom().contains(m.ix + 1),
    ensures
        run(m, instruction_lines(ir_ctx, id, block, index, IRInstruction::Dup { ty: IRType::U8 }))
            matches Some(r) && r.ix == m.ix - 1 && r.mem == m.mem.insert(m.ix - 1, m.mem[m.ix]),
        run(m, instruction_lines(ir_ctx, id, block, index, IRInstruction::Dup { ty: IRType::U16 }))
            matches Some(r) && r.ix == m.ix - 2
            && r.mem == m.mem.insert(m.ix - 2, m.mem[m.ix]).insert(m.ix - 1, m.mem[m.ix + 1]),
        run(m, instruction_lines(ir_ctx, id, block, index, IRInstruction::Over { lower: IRType::U8, upper: IRType::U8 }))
            matches Some(r) && r.ix == m.ix - 1 && r.mem == m.mem.insert(m.ix - 1, m.mem[m.ix + 1]),
{
    lemma_dup_u8(ir_ctx, id, block, index, m);
    lemma_dup_u16(ir_ctx, id, block, index, m);
    lemma_over_u8(ir_ctx, id, block, index, m);
}

#[verifier::spinoff_prover]
proof fn lemma_dup_u8(ir_ctx: &IRContext, id: int, block: int, index: int, m: Machine)
    requires
        ready(m),
        m.mem.dom().contains(m.ix - 1),
        m.mem.dom().contains(m.ix),
    ensures
        run(m, instruction_lines(ir_ctx, id, block, index, IRInstruction::Dup { ty: IRType::U8 }))
            matches Some(r) && r.ix == m.ix - 1 && r.mem == m.mem.insert(m.ix - 1, m.mem[m.ix]),
{
    lemma_mnemonics();
    let lines = instruction_lines(ir_ctx, id, block, index, IRInstruction::Dup { ty: IRType::U8 });
    reveal_with_fuel(copy_lines, 2);
    assert(lines == move_lines(-1) + seq![i2("ld"@, ra(), xo(1)), i2("ld"@, xo(0), ra())]);
    lemma_move(m, -1);
    let m2 = after_move(m, -1);
    let v = m.mem[m.ix];
    let m3 = Machine { a: v, ..m2 };
    let m4 = Machine { mem: m.mem.insert(m.ix - 1, v), ..m3 };
    lemma_end(lines, m4);
    lemma_chain(lines, 3, m3, m4, m4);
    lemma_chain(lines, 2, m2, m3, m4);
    lemma_prefix(lines, move_lines(-1), m, m2, m4);
}

#[verifier::spinoff_prover]
proof fn lemma_dup_u16(ir_ctx: &IRContext, id: int, block: int, index: int, m: Machine)
    requires
        ready(m),
        m.mem.dom().contains(m.ix - 2),
        m.mem.dom().contains(m.ix - 1),
        m.mem.dom().contains(m.ix),
        m.mem.dom().contains(m.ix + 1),
    ensures
        run(m, instruction_lines(ir_ctx, id, block, index, IRInstruction::Dup { ty: IRType::U16 }))
            matches Some(r) && r.ix == m.ix - 2
            && r.mem == m.mem.insert(m.ix - 2, m.mem[m.ix]).insert(m.ix - 1, m.mem[m.ix + 1]),
{
    lemma_mnemonics();
    let lines = instruction_lines(ir_ctx, id, block, index, IRInstruction::Dup { ty: IRType::U16 });
    reveal_with_fuel(copy_lines, 3);
    assert(lines == move_lines(-2) + seq![
        i2("ld"@, ra(), xo(2)),
        i2("ld"@, xo(0), ra()),
        i2("ld"@, ra(), xo(3)),
        i2("ld"@, xo(1), ra()),
    ]);
    lemma_move(m, -2);
    let m2 = after_move(m, -2);
    let lo = m.mem[m.ix];
    let hi = m.mem[m.ix + 1];
    let m3 = Machine { a: lo, ..m2 };
    let m4 = Machine { mem: m.mem.insert(m.ix - 2, lo), ..m3 };
    let m5 = Machine { a: hi, ..m4 };
    let m6 = Machine { mem: m.mem.insert(m.ix - 2, lo).insert(m.ix - 1, hi), ..m5 };
    lemma_end(lines, m6);
    lemma_chain(lines, 5, m5, m6, m6);
    lemma_chain(lines, 4, m4, m5, m6);
    lemma_chain(lines, 3, m3, m4, m6);
    lemma_chain(lines, 2, m2, m3, m6);
    lemma_prefix(lines, move_lines(-2), m, m2, m6);
}

#[verifier::spinoff_prover]
proof fn lemma_over_u8(ir_ctx: &IRContext, id: int, block: int, index: int, m: Machine)
    requires
        ready(m),
        m.mem.dom().contains(m.ix - 1),
        m.mem.dom().contains(m.ix + 1),
    ensures
        run(m, instruction_lines(ir_ctx, id, block, index, IRInstruction::Over { lower: IRType::U8, upper: IRType::U8 }))
            matches Some(r) && r.ix == m.ix - 1 && r.mem == m.mem.insert(m.ix - 1, m.mem[m.ix + 1]),
{
    lemma_mnemonics();
    let lines = instruction_lines(ir_ctx, id, block, index, IRInstruction::Over { lower: IRType::U8, upper: IRType::U8 });
    reveal_with_fuel(copy_lines, 2);
    assert(lines == move_lines(-1) + seq![i2("ld"@, ra(), xo(2)), i2("ld"@, xo(0), ra())]);
    lemma_move(m, -1);
    let m2 = after_move(m, -1);
    let v = m.mem[m.ix + 1];
    let m3 = Machine { a: v, ..m2 };
    let m4 = Machine { mem: m.mem.insert(m.ix - 1, v), ..m3 };
    lemma_end(lines, m4);
    lemma_chain(lines, 3, m3, m4, m4);
    lemma_chain(lines, 2, m2, m3, m4);
    lemma_prefix(lines, move_lines(-1), m, m2, m4);
}

/// Running a two-line prefix, then the rest from the third line on.
#[verifier::spinoff_prover]
proof fn lemma_prefix(lines: Seq<Line>, first: Seq<Line>, m: Machine, n: Machine, r: Machine)
    requires
        first.len() == 2,
        lines.len() >= 2,
        lines[0] == first[0],
        lines[1] == first[1],
        run_from(m, first, 0) == Some(n),
        run_from(n, lines, 2) == Some(r),
    ensures
        run_from(m, lines, 0) == Some(r),
{
    let m1 = step(m, first[0]).unwrap();
    assert(run_from(m1, first, 1) == Some(n));
    let m2 = step(m1, first[1]).unwrap();
    assert(run_from(m2, first, 2) == Some(n));
    assert(m2 == n);
    lemma_chain(lines, 1, m1, n, r);
    lemma_chain(lines, 0, m, m1, r);
}

/// A conditional branch compiles to code that pops the condition byte and
/// goes to the `then` block exactly when the byte is not zero (true is 1,
/// false 0), to the `else` block otherwise, as the interpreter takes the
/// `then` block exactly when the condition is true. No byte of memory
/// changes.
#[verifier::spinoff_prover]
pub proof fn law_z80_branch_goes_where_the_condition_says(id: int, then_branch: BasicBlockId, else_branch: BasicBlockId, m: Machine)
    requires
        ready(m),
        m.mem.dom().contains(m.ix),
    ensures
        run(m, terminator_lines(id, IRTerminator::BranchIfZero { then_branch, else_branch })) matches Some(r)
            && r.ix == m.ix + 1 && r.mem == m.mem
            && r.skip == Some(
            if m.mem[m.ix] != 0 {
                block_label_text(id, then_branch.0 as int)
            } else {
                block_label_text(id, else_branch.0 as int)
            },
        ),
{
    lemma_mnemonics();
    let b = m.mem[m.ix];
    assert(b | b == b) by (bit_vector);
    let lines = terminator_lines(id, IRTerminator::BranchIfZero { then_branch, else_branch });
    let then_label = block_label_text(id, then_branch.0 as int);
    let else_label = block_label_text(id, else_branch.0 as int);
    // ld a,(ix+0); inc ix; or a: the zero flag is whether the byte is 0
    let m1 = Machine { a: b, ..m };
    let m2 = Machine { ix: m.ix + 1, ..m1 };
    let m3 = set_a(m2, b, false);
    // jp nz to the then block, else jp to the else block
    let m4 = if b != 0 {
        Machine { skip: Some(then_label), ..m3 }
    } else {
        m3
    };
    let m5 = Machine { skip: Some(if b != 0 {
        then_label
    } else {
        else_label
    }), ..m3 };
    lemma_end(lines, m5);
    lemma_chain(lines, 4, m4, m5, m5);
    lemma_chain(lines, 3, m3, m4, m5);
    lemma_chain(lines, 2, m2, m3, m5);
    lemma_chain(lines, 1, m1, m2, m5);
    lemma_chain(lines, 0, m, m1, m5);
}

} // verus!
