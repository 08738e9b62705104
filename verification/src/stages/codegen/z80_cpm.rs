//! Z80 assembly for CP/M: a data stack addressed by IX that grows down,
//! one byte per `u8` or `bool` and two (low byte on top) per `u16` or code
//! address.
use vstd::prelude::*;
use vstd::utf8::encode_utf8;

use crate::stages::codegen::assembler::emitter::{Emitter, lines_text};
use crate::stages::codegen::assembler::z80::assembly::Z80Assembly;
use crate::stages::codegen::assembler::z80::builder::Z80;
use crate::stages::codegen::assembler::z80::condition::Z80Condition;
use crate::stages::codegen::assembler::z80::operand::{Z80Immediate, Z80Label, Z80Operand};
use crate::stages::codegen::assembler::z80::register::Z80Register;
use crate::common::{CompileContext, Spanned};
use crate::error::{CompileError, Diagnostics, errors_only, lemma_emit_keeps_errors_only};
use crate::pipeline::{Stage, StageResult};
use crate::stages::lower::context::{IRContext, TypeId, WordId};
use crate::stages::lower::ir::{
    IRBasicBlock, IRConstant, IRInstruction, IRProgram, IRTerminator, IRType, IRWord, block_ok, word_ok, words_ok, IRTypeView, ir_type_view, ir_types_view, lemma_ir_types_view,
};
use crate::text::{decimal_chars, string_extend, usize_to_string};

verus! {

/// The label a line defines, if it is a label.
pub open spec fn label_of(a: Z80Assembly) -> Option<Seq<char>> {
    match a {
        Z80Assembly::Label(l) => Some(l.0@),
        _ => None,
    }
}

/// The label an operand names, if any.
pub open spec fn operand_label(o: Z80Operand) -> Option<Seq<char>> {
    match o {
        Z80Operand::Label(l) => Some(l.0@),
        Z80Operand::LabelOffset { label, .. } => Some(label.0@),
        Z80Operand::IndirectLabel(l) => Some(l.0@),
        _ => None,
    }
}

/// The label an instruction other than a call refers to by its first or
/// second operand: where a jump goes, or an address a load takes.
pub open spec fn label_ref(a: Z80Assembly) -> Option<Seq<char>> {
    match a {
        Z80Assembly::Instruction { mnemonic, operands } => if mnemonic@ == "call"@ {
            None
        } else if operands@.len() >= 1 && operand_label(operands@[0]) is Some {
            operand_label(operands@[0])
        } else if operands@.len() >= 2 {
            operand_label(operands@[1])
        } else {
            None
        },
        _ => None,
    }
}

/// An operand as a mathematical value.
pub enum Op {
    Reg(Z80Register),
    Cond(Z80Condition),
    Imm(int),
    Lbl(Seq<char>),
    LblOff(Seq<char>, int),
    Ind(Z80Register),
    IndLbl(Seq<char>),
    Idx(Z80Register, int),
}

/// A line as a mathematical value; an instruction has at most two
/// operands here.
pub enum Line {
    Instr(Seq<char>, Option<Op>, Option<Op>),
    Label(Seq<char>),
    Comment(Seq<char>),
    Org(int),
    Db(u8),
    Defs(int),
}

pub open spec fn op_of(o: Z80Operand) -> Op {
    match o {
        Z80Operand::Register(r) => Op::Reg(r),
        Z80Operand::Condition(c) => Op::Cond(c),
        Z80Operand::Immediate(i) => Op::Imm(i.0 as int),
        Z80Operand::Label(l) => Op::Lbl(l.0@),
        Z80Operand::LabelOffset { label, offset } => Op::LblOff(label.0@, offset as int),
        Z80Operand::Indirect(r) => Op::Ind(r),
        Z80Operand::IndirectLabel(l) => Op::IndLbl(l.0@),
        Z80Operand::Indexed { base, offset } => Op::Idx(base, offset as int),
    }
}

pub open spec fn line_of(a: Z80Assembly) -> Line {
    match a {
        Z80Assembly::Instruction { mnemonic, operands } => Line::Instr(
            mnemonic@,
            if operands@.len() >= 1 {
                Some(op_of(operands@[0]))
            } else {
                None
            },
            if operands@.len() >= 2 {
                Some(op_of(operands@[1]))
            } else {
                None
            },
        ),
        Z80Assembly::Label(l) => Line::Label(l.0@),
        Z80Assembly::Comment(c) => Line::Comment(c@),
        Z80Assembly::Org(address) => Line::Org(address as int),
        Z80Assembly::Db(b) => Line::Db(b),
        Z80Assembly::Defs(n) => Line::Defs(n as int),
    }
}

/// The lines written, as values.
pub open spec fn abstract_lines(lines: Seq<Z80Assembly>) -> Seq<Line>
    decreases lines.len(),
{
    if lines.len() == 0 {
        Seq::empty()
    } else {
        abstract_lines(lines.drop_last()).push(line_of(lines.last()))
    }
}

proof fn lemma_abstract_push(lines: Seq<Z80Assembly>, a: Z80Assembly)
    ensures
        abstract_lines(lines.push(a)) == abstract_lines(lines).push(line_of(a)),
{
    assert(lines.push(a).drop_last() =~= lines);
}

/// An instruction without operands.
pub open spec fn i0(m: Seq<char>) -> Line {
    Line::Instr(m, None, None)
}

/// An instruction with one operand.
pub open spec fn i1(m: Seq<char>, a: Op) -> Line {
    Line::Instr(m, Some(a), None)
}

/// An instruction with two operands.
pub open spec fn i2(m: Seq<char>, a: Op, b: Op) -> Line {
    Line::Instr(m, Some(a), Some(b))
}

/// `(ix+d)`
pub open spec fn xo(d: int) -> Op {
    Op::Idx(Z80Register::IX, d)
}

/// `a` register.
pub open spec fn ra() -> Op {
    Op::Reg(Z80Register::A)
}

/// Some line defines the label.
pub open spec fn defines(lines: Seq<Z80Assembly>, l: Seq<char>) -> bool {
    exists|j: int| 0 <= j < lines.len() && #[trigger] label_of(lines[j]) == Some(l)
}

/// The label of a word.
pub open spec fn word_label_text(id: int) -> Seq<char> {
    "__word_"@ + decimal_chars(id as nat)
}

/// The label of a block of a word.
pub open spec fn block_label_text(id: int, block: int) -> Seq<char> {
    word_label_text(id) + "_bb"@ + decimal_chars(block as nat)
}

/// `l` is the label of one of the first `nb` blocks of word `id`.
pub open spec fn block_label_of(l: Seq<char>, id: int, nb: int) -> bool {
    exists|t: int| 0 <= t < nb && l == #[trigger] block_label_text(id, t)
}

/// The labels that the end of the program defines.
pub open spec fn runtime_label(l: Seq<char>) -> bool {
    l == "__heap"@ || l == "__data_stack_end"@ || l == "__heap_ptr"@ || l == "__static_data"@
}

/// Line `k` refers to no label, or to one that is defined, or will be: a
/// block of the word being written, a label of the program's end, or one of
/// `extra`.
pub open spec fn ref_ok(lines: Seq<Z80Assembly>, k: int, id: int, nb: int, extra: Set<Seq<char>>) -> bool {
    match label_ref(lines[k]) {
        Some(l) => defines(lines, l) || block_label_of(l, id, nb) || runtime_label(l) || extra.contains(l),
        None => true,
    }
}

pub open spec fn refs_ok(lines: Seq<Z80Assembly>, id: int, nb: int, extra: Set<Seq<char>>) -> bool {
    forall|k: int| 0 <= k < lines.len() ==> #[trigger] ref_ok(lines, k, id, nb, extra)
}

proof fn lemma_defines_push(lines: Seq<Z80Assembly>, a: Z80Assembly, l: Seq<char>)
    requires
        defines(lines, l),
    ensures
        defines(lines.push(a), l),
{
    let j = choose|j: int| 0 <= j < lines.len() && #[trigger] label_of(lines[j]) == Some(l);
    assert(label_of(lines.push(a)[j]) == Some(l));
}

/// Adding a line keeps what the earlier lines refer to resolved.
proof fn lemma_refs_ok_push(lines: Seq<Z80Assembly>, a: Z80Assembly, id: int, nb: int, extra: Set<Seq<char>>)
    requires
        refs_ok(lines, id, nb, extra),
    ensures
        forall|k: int| 0 <= k < lines.len() ==> #[trigger] ref_ok(lines.push(a), k, id, nb, extra),
{
    assert forall|k: int| 0 <= k < lines.len() implies #[trigger] ref_ok(lines.push(a), k, id, nb, extra) by {
        assert(ref_ok(lines, k, id, nb, extra));
        assert(lines.push(a)[k] == lines[k]);
        match label_ref(lines[k]) {
            Some(l) => {
                if defines(lines, l) {
                    lemma_defines_push(lines, a, l);
                }
            },
            None => {},
        }
    }
}

/// Widens what may stay unresolved.
proof fn lemma_refs_ok_widen(
    lines: Seq<Z80Assembly>,
    id: int,
    nb: int,
    extra: Set<Seq<char>>,
    id2: int,
    nb2: int,
    extra2: Set<Seq<char>>,
)
    requires
        refs_ok(lines, id, nb, extra),
        forall|l: Seq<char>| block_label_of(l, id, nb) ==> defines(lines, l) || block_label_of(l, id2, nb2),
        forall|l: Seq<char>| extra.contains(l) ==> defines(lines, l) || extra2.contains(l),
    ensures
        refs_ok(lines, id2, nb2, extra2),
{
    assert forall|k: int| 0 <= k < lines.len() implies #[trigger] ref_ok(lines, k, id2, nb2, extra2) by {
        assert(ref_ok(lines, k, id, nb, extra));
    }
}

/// Writes a line that refers to no label.
fn emit_plain(
    e: &mut Emitter<Z80Assembly>,
    a: Z80Assembly,
    Ghost(id): Ghost<int>,
    Ghost(nb): Ghost<int>,
    Ghost(extra): Ghost<Set<Seq<char>>>,
)
    requires
        old(e).wf(),
        refs_ok(old(e).lines@, id, nb, extra),
        label_ref(a) is None,
    ensures
        final(e).wf(),
        final(e).lines@ == old(e).lines@.push(a),
        refs_ok(final(e).lines@, id, nb, extra),
        abstract_lines(final(e).lines@) == abstract_lines(old(e).lines@).push(line_of(a)),
{
    let ghost before = e.lines@;
    proof {
        lemma_refs_ok_push(before, a, id, nb, extra);
        lemma_abstract_push(before, a);
    }
    e.emit(a);
    assert(ref_ok(e.lines@, before.len() as int, id, nb, extra));
}

/// Writes a line that refers to a label that is defined or will be.
fn emit_ref(
    e: &mut Emitter<Z80Assembly>,
    a: Z80Assembly,
    Ghost(id): Ghost<int>,
    Ghost(nb): Ghost<int>,
    Ghost(extra): Ghost<Set<Seq<char>>>,
)
    requires
        old(e).wf(),
        refs_ok(old(e).lines@, id, nb, extra),
        label_ref(a) matches Some(l) && (block_label_of(l, id, nb) || runtime_label(l) || extra.contains(l)),
    ensures
        final(e).wf(),
        final(e).lines@ == old(e).lines@.push(a),
        refs_ok(final(e).lines@, id, nb, extra),
        keeps(old(e).lines@, final(e).lines@),
        abstract_lines(final(e).lines@) == abstract_lines(old(e).lines@).push(line_of(a)),
{
    let ghost before = e.lines@;
    proof {
        lemma_refs_ok_push(before, a, id, nb, extra);
        lemma_abstract_push(before, a);
    }
    e.emit(a);
    assert(ref_ok(e.lines@, before.len() as int, id, nb, extra));
    proof {
        assert forall|l: Seq<char>| defines(before, l) implies #[trigger] defines(e.lines@, l) by {
            lemma_defines_push(before, a, l);
        }
    }
}

/// Writes a label; it is then defined.
fn emit_label(
    e: &mut Emitter<Z80Assembly>,
    label: Z80Label,
    Ghost(id): Ghost<int>,
    Ghost(nb): Ghost<int>,
    Ghost(extra): Ghost<Set<Seq<char>>>,
)
    requires
        old(e).wf(),
        refs_ok(old(e).lines@, id, nb, extra),
    ensures
        final(e).wf(),
        final(e).lines@ == old(e).lines@.push(Z80Assembly::Label(label)),
        refs_ok(final(e).lines@, id, nb, extra),
        defines(final(e).lines@, label.0@),
        keeps(old(e).lines@, final(e).lines@),
        abstract_lines(final(e).lines@) == abstract_lines(old(e).lines@).push(Line::Label(label.0@)),
{
    let ghost l = label.0@;
    let ghost before = e.lines@;
    let line = Z80::label(label);
    emit_plain(e, line, Ghost(id), Ghost(nb), Ghost(extra));
    assert(label_of(e.lines@[e.lines@.len() - 1]) == Some(l));
    proof {
        assert forall|l2: Seq<char>| defines(before, l2) implies #[trigger] defines(e.lines@, l2) by {
            lemma_defines_push(before, line, l2);
        }
    }
}

fn reg(r: Z80Register) -> (o: Z80Operand)
    ensures
        o == Z80Operand::Register(r),
{
    Z80Operand::Register(r)
}

fn ix(offset: isize) -> (o: Z80Operand)
    ensures
        o == (Z80Operand::Indexed { base: Z80Register::IX, offset }),
{
    Z80Operand::Indexed { base: Z80Register::IX, offset }
}

fn imm(value: isize) -> (o: Z80Operand)
    ensures
        o == Z80Operand::Immediate(Z80Immediate(value)),
{
    Z80Operand::Immediate(Z80Immediate(value))
}

/// The label of a word: `__word_` and its id.
pub fn word_label(word_id: WordId) -> (r: Z80Label)
    ensures
        r.0@ == word_label_text(word_id.0 as int),
{
    let mut s = String::from_str("__word_");
    let digits = usize_to_string(word_id.0);
    proof {
        reveal_strlit("__word_");
    }
    string_extend(&mut s, digits.as_str());
    Z80Label(s)
}

/// The label of a block: the word's label, `_bb` and the block's index.
pub fn block_label(word_id: WordId, block_id: usize) -> (r: Z80Label)
    ensures
        r.0@ == block_label_text(word_id.0 as int, block_id as int),
{
    let mut s = word_label(word_id).0;
    string_extend(&mut s, "_bb");
    let digits = usize_to_string(block_id);
    string_extend(&mut s, digits.as_str());
    Z80Label(s)
}

/// How many bytes a value of a type takes on the data stack.
pub open spec fn size_of(t: IRTypeView) -> nat
    decreases t,
{
    match t {
        IRTypeView::Bool => 1,
        IRTypeView::U8 => 1,
        IRTypeView::U16 => 2,
        IRTypeView::Lambda => 2,
        IRTypeView::Struct { fields } => sizes_of(fields),
    }
}

/// How many bytes values of types take together.
pub open spec fn sizes_of(ts: Seq<IRTypeView>) -> nat
    decreases ts,
{
    if ts.len() == 0 {
        0
    } else {
        sizes_of(ts.drop_last()) + size_of(ts.last())
    }
}

/// The largest size the machine's memory can hold.
pub open spec fn max_size() -> nat {
    65535
}

/// The size of a type, where it fits in the machine's memory.
pub fn type_size(ty: &IRType) -> (r: Option<usize>)
    ensures
        r matches Some(n) ==> n == size_of(ir_type_view(*ty)) && n <= max_size(),
        r is None ==> size_of(ir_type_view(*ty)) > max_size(),
    decreases ty,
{
    match ty {
        IRType::Bool | IRType::U8 => Some(1),
        IRType::U16 | IRType::Lambda => Some(2),
        IRType::Struct { fields } => {
            let r = types_size(fields, 0);
            proof {
                lemma_ir_types_view(fields@);
                assert(ir_types_view(fields@).subrange(0, fields@.len() as int) =~= ir_types_view(fields@));
            }
            r
        },
    }
}

/// The size of the types of a list from index `from` on, where it fits.
pub fn types_size(ts: &Vec<IRType>, from: usize) -> (r: Option<usize>)
    requires
        from <= ts@.len(),
    ensures
        r matches Some(n) ==> n == sizes_of(ir_types_view(ts@).subrange(from as int, ts@.len() as int))
            && n <= max_size(),
        r is None ==> sizes_of(ir_types_view(ts@).subrange(from as int, ts@.len() as int)) > max_size(),
    decreases ts@,
{
    proof {
        lemma_ir_types_view(ts@);
    }
    let ghost views = ir_types_view(ts@);
    let mut total: usize = 0;
    let mut i: usize = ts.len();
    assert(views.subrange(i as int, i as int) =~= Seq::<IRTypeView>::empty());
    while i > from
        invariant
            from <= i <= ts@.len(),
            views == ir_types_view(ts@),
            views.len() == ts@.len(),
            forall|j: int| 0 <= j < ts@.len() ==> #[trigger] views[j] == ir_type_view(ts@[j]),
            total == sizes_of(views.subrange(i as int, ts@.len() as int)),
            total <= max_size(),
        decreases i - from,
    {
        let size = match type_size(&ts[i - 1]) {
            Some(n) => n,
            None => {
                proof {
                    lemma_sizes_of_split(views.subrange(from as int, ts@.len() as int), i - 1 - from);
                    assert(views.subrange(from as int, ts@.len() as int).subrange(i - 1 - from, ts@.len() - from)
                        =~= views.subrange(i - 1, ts@.len() as int));
                    lemma_sizes_of_first(views.subrange(i - 1, ts@.len() as int));
                    assert(views.subrange(i - 1, ts@.len() as int).drop_first() =~= views.subrange(
                        i as int,
                        ts@.len() as int,
                    ));
                }
                return None;
            },
        };
        proof {
            lemma_sizes_of_first(views.subrange(i - 1, ts@.len() as int));
            assert(views.subrange(i - 1, ts@.len() as int).drop_first() =~= views.subrange(
                i as int,
                ts@.len() as int,
            ));
        }
        if size > 65535 - total {
            proof {
                lemma_sizes_of_split(views.subrange(from as int, ts@.len() as int), i - 1 - from);
                assert(views.subrange(from as int, ts@.len() as int).subrange(i - 1 - from, ts@.len() - from)
                    =~= views.subrange(i - 1, ts@.len() as int));
            }
            return None;
        }
        total = total + size;
        i -= 1;
    }
    Some(total)
}

/// The size of a list is the size of its first type and the rest.
pub proof fn lemma_sizes_of_first(ts: Seq<IRTypeView>)
    requires
        ts.len() > 0,
    ensures
        sizes_of(ts) == size_of(ts[0]) + sizes_of(ts.drop_first()),
    decreases ts.len(),
{
    if ts.len() == 1 {
        assert(ts.drop_first() =~= Seq::<IRTypeView>::empty());
        assert(ts.drop_last() =~= Seq::<IRTypeView>::empty());
    } else {
        lemma_sizes_of_first(ts.drop_last());
        assert(ts.drop_last().drop_first() =~= ts.drop_first().drop_last());
        assert(ts.drop_last()[0] == ts[0]);
    }
}

/// The size of a list is at least the size of any suffix of it.
pub proof fn lemma_sizes_of_split(ts: Seq<IRTypeView>, k: int)
    requires
        0 <= k <= ts.len(),
    ensures
        sizes_of(ts) == sizes_of(ts.subrange(0, k)) + sizes_of(ts.subrange(k, ts.len() as int)),
    decreases ts.len() - k,
{
    if k == ts.len() {
        assert(ts.subrange(0, k) =~= ts);
        assert(ts.subrange(k, ts.len() as int) =~= Seq::<IRTypeView>::empty());
    } else {
        lemma_sizes_of_split(ts, k + 1);
        let tail = ts.subrange(k, ts.len() as int);
        lemma_sizes_of_first(tail);
        assert(tail.drop_first() =~= ts.subrange(k + 1, ts.len() as int));
        let head = ts.subrange(0, k + 1);
        assert(head.drop_last() =~= ts.subrange(0, k));
        assert(head.last() == ts[k]);
        assert(tail[0] == ts[k]);
    }
}

/// The emitter's source is the text of its lines, and what they refer to
/// is resolved or may still be.
pub open spec fn emitter_ok(e: Emitter<Z80Assembly>, id: int, nb: int, extra: Set<Seq<char>>) -> bool {
    e.wf() && refs_ok(e.lines@, id, nb, extra)
}

/// Every label defined in `a` is defined in `b`.
pub open spec fn keeps(a: Seq<Z80Assembly>, b: Seq<Z80Assembly>) -> bool {
    forall|l: Seq<char>| defines(a, l) ==> #[trigger] defines(b, l)
}

/// `ld de, delta` and `add ix, de`.
pub open spec fn move_lines(delta: int) -> Seq<Line> {
    seq![
        i2("ld"@, Op::Reg(Z80Register::DE), Op::Imm(delta)),
        i2("add"@, Op::Reg(Z80Register::IX), Op::Reg(Z80Register::DE)),
    ]
}

/// HL pushed onto the data stack, low byte on top.
pub open spec fn push_hl_lines() -> Seq<Line> {
    seq![
        i2("ld"@, ra(), Op::Reg(Z80Register::H)),
        i1("dec"@, Op::Reg(Z80Register::IX)),
        i2("ld"@, xo(0), ra()),
        i2("ld"@, ra(), Op::Reg(Z80Register::L)),
        i1("dec"@, Op::Reg(Z80Register::IX)),
        i2("ld"@, xo(0), ra()),
    ]
}

/// The byte moved at step `k` of `size`: downwards when `descending`.
pub open spec fn step_byte(size: int, descending: bool, k: int) -> int {
    if descending {
        size - 1 - k
    } else {
        k
    }
}

/// The first `k` steps of copying `size` bytes from `from` to `to`.
pub open spec fn copy_lines(from: int, to: int, size: int, descending: bool, k: int) -> Seq<Line>
    decreases k,
{
    if k <= 0 {
        Seq::empty()
    } else {
        let b = step_byte(size, descending, k - 1);
        copy_lines(from, to, size, descending, k - 1) + seq![
            i2("ld"@, ra(), xo(from + b)),
            i2("ld"@, xo(to + b), ra()),
        ]
    }
}

/// The first `k` steps of saving `size` bytes at `offset` on the machine
/// stack.
pub open spec fn save_lines(offset: int, size: int, descending: bool, k: int) -> Seq<Line>
    decreases k,
{
    if k <= 0 {
        Seq::empty()
    } else {
        let b = step_byte(size, descending, k - 1);
        save_lines(offset, size, descending, k - 1) + seq![
            i2("ld"@, ra(), xo(offset + b)),
            i1("push"@, Op::Reg(Z80Register::AF)),
        ]
    }
}

/// The first `k` steps of restoring `size` bytes to `offset` from the
/// machine stack.
pub open spec fn restore_lines(offset: int, size: int, descending: bool, k: int) -> Seq<Line>
    decreases k,
{
    if k <= 0 {
        Seq::empty()
    } else {
        let b = step_byte(size, descending, k - 1);
        restore_lines(offset, size, descending, k - 1) + seq![
            i1("pop"@, Op::Reg(Z80Register::AF)),
            i2("ld"@, xo(offset + b), ra()),
        ]
    }
}

/// `ld a, (ix+offset)`.
fn load_a(e: &mut Emitter<Z80Assembly>, offset: isize, Ghost(id): Ghost<int>, Ghost(nb): Ghost<int>, Ghost(extra): Ghost<Set<Seq<char>>>)
    requires
        emitter_ok(*old(e), id, nb, extra),
    ensures
        emitter_ok(*final(e), id, nb, extra),
        keeps(old(e).lines@, final(e).lines@),
        abstract_lines(final(e).lines@) == abstract_lines(old(e).lines@).push(i2("ld"@, ra(), xo(offset as int))),
{
    let ghost l0 = e.lines@;
    emit_plain(e, Z80::ld(reg(Z80Register::A), ix(offset)), Ghost(id), Ghost(nb), Ghost(extra));
    proof {
        assert forall|l: Seq<char>| defines(l0, l) implies #[trigger] defines(e.lines@, l) by {
            lemma_defines_push(l0, e.lines@.last(), l);
        }
    }
}

/// `ld (ix+offset), a`.
fn store_a(e: &mut Emitter<Z80Assembly>, offset: isize, Ghost(id): Ghost<int>, Ghost(nb): Ghost<int>, Ghost(extra): Ghost<Set<Seq<char>>>)
    requires
        emitter_ok(*old(e), id, nb, extra),
    ensures
        emitter_ok(*final(e), id, nb, extra),
        keeps(old(e).lines@, final(e).lines@),
        abstract_lines(final(e).lines@) == abstract_lines(old(e).lines@).push(i2("ld"@, xo(offset as int), ra())),
{
    let ghost l0 = e.lines@;
    emit_plain(e, Z80::ld(ix(offset), reg(Z80Register::A)), Ghost(id), Ghost(nb), Ghost(extra));
    proof {
        assert forall|l: Seq<char>| defines(l0, l) implies #[trigger] defines(e.lines@, l) by {
            lemma_defines_push(l0, e.lines@.last(), l);
        }
    }
}

/// Writes an instruction without label operands, keeping what is defined.
fn plain(e: &mut Emitter<Z80Assembly>, a: Z80Assembly, Ghost(id): Ghost<int>, Ghost(nb): Ghost<int>, Ghost(extra): Ghost<Set<Seq<char>>>)
    requires
        emitter_ok(*old(e), id, nb, extra),
        label_ref(a) is None,
    ensures
        emitter_ok(*final(e), id, nb, extra),
        keeps(old(e).lines@, final(e).lines@),
        abstract_lines(final(e).lines@) == abstract_lines(old(e).lines@).push(line_of(a)),
        final(e).lines@ == old(e).lines@.push(a),
{
    let ghost l0 = e.lines@;
    emit_plain(e, a, Ghost(id), Ghost(nb), Ghost(extra));
    proof {
        assert forall|l: Seq<char>| defines(l0, l) implies #[trigger] defines(e.lines@, l) by {
            lemma_defines_push(l0, a, l);
        }
    }
}

/// Moves IX by `delta` bytes: `ld de, delta` and `add ix, de`.
fn move_ix(e: &mut Emitter<Z80Assembly>, delta: isize, Ghost(id): Ghost<int>, Ghost(nb): Ghost<int>, Ghost(extra): Ghost<Set<Seq<char>>>)
    requires
        emitter_ok(*old(e), id, nb, extra),
    ensures
        emitter_ok(*final(e), id, nb, extra),
        keeps(old(e).lines@, final(e).lines@),
        abstract_lines(final(e).lines@) == abstract_lines(old(e).lines@) + move_lines(delta as int),
{
    plain(e, Z80::ld(reg(Z80Register::DE), imm(delta)), Ghost(id), Ghost(nb), Ghost(extra));
    plain(e, Z80::add(reg(Z80Register::IX), reg(Z80Register::DE)), Ghost(id), Ghost(nb), Ghost(extra));
}

/// Pushes a byte: `dec ix` and `ld (ix+0), value`.
fn push_byte(e: &mut Emitter<Z80Assembly>, value: isize, Ghost(id): Ghost<int>, Ghost(nb): Ghost<int>, Ghost(extra): Ghost<Set<Seq<char>>>)
    requires
        emitter_ok(*old(e), id, nb, extra),
    ensures
        emitter_ok(*final(e), id, nb, extra),
        keeps(old(e).lines@, final(e).lines@),
        abstract_lines(final(e).lines@) == abstract_lines(old(e).lines@) + seq![
            i1("dec"@, Op::Reg(Z80Register::IX)),
            i2("ld"@, xo(0), Op::Imm(value as int)),
        ],
{
    plain(e, Z80::dec(reg(Z80Register::IX)), Ghost(id), Ghost(nb), Ghost(extra));
    plain(e, Z80::ld(ix(0), imm(value)), Ghost(id), Ghost(nb), Ghost(extra));
}

/// Pushes HL, high byte first: the low byte ends on top.
fn push_hl(e: &mut Emitter<Z80Assembly>, Ghost(id): Ghost<int>, Ghost(nb): Ghost<int>, Ghost(extra): Ghost<Set<Seq<char>>>)
    requires
        emitter_ok(*old(e), id, nb, extra),
    ensures
        emitter_ok(*final(e), id, nb, extra),
        keeps(old(e).lines@, final(e).lines@),
        abstract_lines(final(e).lines@) == abstract_lines(old(e).lines@) + push_hl_lines(),
{
    plain(e, Z80::ld(reg(Z80Register::A), reg(Z80Register::H)), Ghost(id), Ghost(nb), Ghost(extra));
    plain(e, Z80::dec(reg(Z80Register::IX)), Ghost(id), Ghost(nb), Ghost(extra));
    store_a(e, 0, Ghost(id), Ghost(nb), Ghost(extra));
    plain(e, Z80::ld(reg(Z80Register::A), reg(Z80Register::L)), Ghost(id), Ghost(nb), Ghost(extra));
    plain(e, Z80::dec(reg(Z80Register::IX)), Ghost(id), Ghost(nb), Ghost(extra));
    store_a(e, 0, Ghost(id), Ghost(nb), Ghost(extra));
}

/// Copies `size` bytes from `from` to `to` (offsets from IX), the highest
/// byte first when `descending`.
fn copy_bytes(
    e: &mut Emitter<Z80Assembly>,
    from: usize,
    to: usize,
    size: usize,
    descending: bool,
    Ghost(id): Ghost<int>,
    Ghost(nb): Ghost<int>,
    Ghost(extra): Ghost<Set<Seq<char>>>,
)
    requires
        emitter_ok(*old(e), id, nb, extra),
        from + size <= 3 * max_size(),
        to + size <= 3 * max_size(),
    ensures
        emitter_ok(*final(e), id, nb, extra),
        keeps(old(e).lines@, final(e).lines@),
        abstract_lines(final(e).lines@) == abstract_lines(old(e).lines@) + copy_lines(
            from as int,
            to as int,
            size as int,
            descending,
            size as int,
        ),
{
    let ghost l0 = e.lines@;
    let mut k: usize = 0;
    while k < size
        invariant
            k <= size,
            from + size <= 3 * max_size(),
            to + size <= 3 * max_size(),
            emitter_ok(*e, id, nb, extra),
            keeps(l0, e.lines@),
            abstract_lines(e.lines@) == abstract_lines(l0) + copy_lines(from as int, to as int, size as int, descending, k as int),
        decreases size - k,
    {
        let byte = if descending {
            size - 1 - k
        } else {
            k
        };
        load_a(e, (from + byte) as isize, Ghost(id), Ghost(nb), Ghost(extra));
        store_a(e, (to + byte) as isize, Ghost(id), Ghost(nb), Ghost(extra));
        k += 1;
    }
}

/// Saves `size` bytes at `offset` from IX on the machine stack, the highest
/// byte first when `descending`.
fn save_bytes(
    e: &mut Emitter<Z80Assembly>,
    offset: usize,
    size: usize,
    descending: bool,
    Ghost(id): Ghost<int>,
    Ghost(nb): Ghost<int>,
    Ghost(extra): Ghost<Set<Seq<char>>>,
)
    requires
        emitter_ok(*old(e), id, nb, extra),
        offset + size <= 3 * max_size(),
    ensures
        emitter_ok(*final(e), id, nb, extra),
        keeps(old(e).lines@, final(e).lines@),
        abstract_lines(final(e).lines@) == abstract_lines(old(e).lines@) + save_lines(
            offset as int,
            size as int,
            descending,
            size as int,
        ),
{
    let ghost l0 = e.lines@;
    let mut k: usize = 0;
    while k < size
        invariant
            k <= size,
            offset + size <= 3 * max_size(),
            emitter_ok(*e, id, nb, extra),
            keeps(l0, e.lines@),
            abstract_lines(e.lines@) == abstract_lines(l0) + save_lines(offset as int, size as int, descending, k as int),
        decreases size - k,
    {
        let byte = if descending {
            size - 1 - k
        } else {
            k
        };
        load_a(e, (offset + byte) as isize, Ghost(id), Ghost(nb), Ghost(extra));
        plain(e, Z80::push(Z80Register::AF), Ghost(id), Ghost(nb), Ghost(extra));
        k += 1;
    }
}

/// Restores `size` bytes from the machine stack to `offset` from IX, the
/// highest byte first when `descending`.
fn restore_bytes(
    e: &mut Emitter<Z80Assembly>,
    offset: usize,
    size: usize,
    descending: bool,
    Ghost(id): Ghost<int>,
    Ghost(nb): Ghost<int>,
    Ghost(extra): Ghost<Set<Seq<char>>>,
)
    requires
        emitter_ok(*old(e), id, nb, extra),
        offset + size <= 3 * max_size(),
    ensures
        emitter_ok(*final(e), id, nb, extra),
        keeps(old(e).lines@, final(e).lines@),
        abstract_lines(final(e).lines@) == abstract_lines(old(e).lines@) + restore_lines(
            offset as int,
            size as int,
            descending,
            size as int,
        ),
{
    let ghost l0 = e.lines@;
    let mut k: usize = 0;
    while k < size
        invariant
            k <= size,
            offset + size <= 3 * max_size(),
            emitter_ok(*e, id, nb, extra),
            keeps(l0, e.lines@),
            abstract_lines(e.lines@) == abstract_lines(l0) + restore_lines(offset as int, size as int, descending, k as int),
        decreases size - k,
    {
        let byte = if descending {
            size - 1 - k
        } else {
            k
        };
        plain(e, Z80::pop(Z80Register::AF), Ghost(id), Ghost(nb), Ghost(extra));
        store_a(e, (offset + byte) as isize, Ghost(id), Ghost(nb), Ghost(extra));
        k += 1;
    }
}

/// A label local to one instruction: the block's label, `tag`, the
/// instruction's index and `suffix`.
fn local_label(word_id: WordId, block_id: usize, tag: &str, index: usize, suffix: &str) -> (r: Z80Label)
    ensures
        r.0@ == block_label_text(word_id.0 as int, block_id as int) + tag@ + decimal_chars(index as nat)
            + suffix@,
{
    let mut s = block_label(word_id, block_id).0;
    string_extend(&mut s, tag);
    let digits = usize_to_string(index);
    string_extend(&mut s, digits.as_str());
    string_extend(&mut s, suffix);
    Z80Label(s)
}

fn copy_label(label: &Z80Label) -> (r: Z80Label)
    ensures
        r.0@ == label.0@,
{
    Z80Label(crate::text::copy_string(&label.0))
}

/// `jp label`, or `jp cond, label`.
pub open spec fn jump_line(condition: Option<Z80Condition>, label: Seq<char>) -> Line {
    match condition {
        Some(c) => i2("jp"@, Op::Cond(c), Op::Lbl(label)),
        None => i1("jp"@, Op::Lbl(label)),
    }
}

/// Equality of the two `u8` on top, as a `bool` in their place.
pub open spec fn eq_u8_lines(label: Seq<char>) -> Seq<Line> {
    seq![
        i2("ld"@, ra(), xo(1)),
        i1("cp"@, xo(0)),
        i2("ld"@, ra(), Op::Imm(0)),
        i2("jr"@, Op::Cond(Z80Condition::Nz), Op::Lbl(label)),
        i1("inc"@, ra()),
        Line::Label(label),
        i2("ld"@, xo(1), ra()),
        i1("inc"@, Op::Reg(Z80Register::IX)),
    ]
}

/// Equality of the two `u16` on top, as a `bool` in their place.
pub open spec fn eq_u16_lines(label: Seq<char>) -> Seq<Line> {
    seq![
        i2("ld"@, ra(), xo(3)),
        i1("cp"@, xo(1)),
        i2("ld"@, ra(), Op::Imm(0)),
        i2("jr"@, Op::Cond(Z80Condition::Nz), Op::Lbl(label)),
        i2("ld"@, ra(), xo(2)),
        i1("cp"@, xo(0)),
        i2("ld"@, ra(), Op::Imm(0)),
        i2("jr"@, Op::Cond(Z80Condition::Nz), Op::Lbl(label)),
        i1("inc"@, ra()),
        Line::Label(label),
        i2("ld"@, xo(3), ra()),
    ] + move_lines(3)
}

/// The lower `u16` below the upper one, as a `bool` in their place.
pub open spec fn lt_u16_lines(label: Seq<char>) -> Seq<Line> {
    seq![
        i2("ld"@, ra(), xo(3)),
        i1("cp"@, xo(1)),
        i2("jr"@, Op::Cond(Z80Condition::Nz), Op::Lbl(label)),
        i2("ld"@, ra(), xo(2)),
        i1("cp"@, xo(0)),
        Line::Label(label),
        i2("ld"@, ra(), Op::Imm(0)),
        i2("sbc"@, ra(), ra()),
        i1("and"@, Op::Imm(1)),
        i2("ld"@, xo(3), ra()),
    ] + move_lines(3)
}

/// `jr cond, label` to a label of `extra`.
fn jump_relative(
    e: &mut Emitter<Z80Assembly>,
    condition: Z80Condition,
    label: &Z80Label,
    Ghost(id): Ghost<int>,
    Ghost(nb): Ghost<int>,
    Ghost(extra): Ghost<Set<Seq<char>>>,
)
    requires
        emitter_ok(*old(e), id, nb, extra),
        extra.contains(label.0@),
    ensures
        emitter_ok(*final(e), id, nb, extra),
        keeps(old(e).lines@, final(e).lines@),
        abstract_lines(final(e).lines@) == abstract_lines(old(e).lines@).push(
            i2("jr"@, Op::Cond(condition), Op::Lbl(label.0@)),
        ),
{
    let target = Z80Operand::Label(copy_label(label));
    let line = Z80::jr(condition, target);
    proof {
        reveal_strlit("jr");
        reveal_strlit("call");
        assert("jr"@.len() == 2);
        assert("call"@.len() == 4);
        assert("jr"@ != "call"@);
        assert(operand_label(target) == Some(label.0@));
        assert(label_ref(line) == Some(label.0@));
    }
    emit_ref(e, line, Ghost(id), Ghost(nb), Ghost(extra));
}

/// `jp label` or `jp cond, label` to the label of a block.
fn jump_to_block(
    e: &mut Emitter<Z80Assembly>,
    condition: Option<Z80Condition>,
    word_id: WordId,
    block: usize,
    Ghost(id): Ghost<int>,
    Ghost(nb): Ghost<int>,
    Ghost(extra): Ghost<Set<Seq<char>>>,
)
    requires
        emitter_ok(*old(e), id, nb, extra),
        id == word_id.0,
        block < nb || extra.contains(block_label_text(id, block as int)),
    ensures
        emitter_ok(*final(e), id, nb, extra),
        keeps(old(e).lines@, final(e).lines@),
        abstract_lines(final(e).lines@) == abstract_lines(old(e).lines@).push(
            jump_line(condition, block_label_text(word_id.0 as int, block as int)),
        ),
{
    let label = block_label(word_id, block);
    let ghost l = label.0@;
    let target = Z80Operand::Label(label);
    let line = Z80::jp(condition, target);
    proof {
        reveal_strlit("jp");
        reveal_strlit("call");
        assert("jp"@.len() == 2);
        assert("call"@.len() == 4);
        assert("jp"@ != "call"@);
        assert(operand_label(target) == Some(l));
        assert(label_ref(line) == Some(l));
        if block < nb {
            assert(block_label_of(l, id, nb));
        }
    }
    emit_ref(e, line, Ghost(id), Ghost(nb), Ghost(extra));
}

/// `a` = (top byte at `left`) = (byte at `right`), as 0 or 1, for `u8`:
/// compares, jumps over the increment when they differ.
fn emit_eq_u8(e: &mut Emitter<Z80Assembly>, label: Z80Label, Ghost(id): Ghost<int>, Ghost(nb): Ghost<int>, Ghost(extra): Ghost<Set<Seq<char>>>)
    requires
        emitter_ok(*old(e), id, nb, extra),
    ensures
        emitter_ok(*final(e), id, nb, extra),
        keeps(old(e).lines@, final(e).lines@),
        abstract_lines(final(e).lines@) == abstract_lines(old(e).lines@) + eq_u8_lines(label.0@),
{
    let ghost l = label.0@;
    let ghost x = extra.insert(l);
    proof {
        lemma_refs_ok_widen(e.lines@, id, nb, extra, id, nb, x);
    }
    load_a(e, 1, Ghost(id), Ghost(nb), Ghost(x));
    plain(e, Z80::cp(ix(0)), Ghost(id), Ghost(nb), Ghost(x));
    plain(e, Z80::ld(reg(Z80Register::A), imm(0)), Ghost(id), Ghost(nb), Ghost(x));
    jump_relative(e, Z80Condition::Nz, &label, Ghost(id), Ghost(nb), Ghost(x));
    plain(e, Z80::inc(reg(Z80Register::A)), Ghost(id), Ghost(nb), Ghost(x));
    emit_label(e, label, Ghost(id), Ghost(nb), Ghost(x));
    proof {
        lemma_refs_ok_widen(e.lines@, id, nb, x, id, nb, extra);
    }
    store_a(e, 1, Ghost(id), Ghost(nb), Ghost(extra));
    plain(e, Z80::inc(reg(Z80Register::IX)), Ghost(id), Ghost(nb), Ghost(extra));
}

/// Equality of the two `u16` on top, as a `bool` in their place.
fn emit_eq_u16(e: &mut Emitter<Z80Assembly>, label: Z80Label, Ghost(id): Ghost<int>, Ghost(nb): Ghost<int>, Ghost(extra): Ghost<Set<Seq<char>>>)
    requires
        emitter_ok(*old(e), id, nb, extra),
    ensures
        emitter_ok(*final(e), id, nb, extra),
        keeps(old(e).lines@, final(e).lines@),
        abstract_lines(final(e).lines@) == abstract_lines(old(e).lines@) + eq_u16_lines(label.0@),
{
    let ghost l = label.0@;
    let ghost x = extra.insert(l);
    proof {
        lemma_refs_ok_widen(e.lines@, id, nb, extra, id, nb, x);
    }
    load_a(e, 3, Ghost(id), Ghost(nb), Ghost(x));
    plain(e, Z80::cp(ix(1)), Ghost(id), Ghost(nb), Ghost(x));
    plain(e, Z80::ld(reg(Z80Register::A), imm(0)), Ghost(id), Ghost(nb), Ghost(x));
    jump_relative(e, Z80Condition::Nz, &label, Ghost(id), Ghost(nb), Ghost(x));
    load_a(e, 2, Ghost(id), Ghost(nb), Ghost(x));
    plain(e, Z80::cp(ix(0)), Ghost(id), Ghost(nb), Ghost(x));
    plain(e, Z80::ld(reg(Z80Register::A), imm(0)), Ghost(id), Ghost(nb), Ghost(x));
    jump_relative(e, Z80Condition::Nz, &label, Ghost(id), Ghost(nb), Ghost(x));
    plain(e, Z80::inc(reg(Z80Register::A)), Ghost(id), Ghost(nb), Ghost(x));
    emit_label(e, label, Ghost(id), Ghost(nb), Ghost(x));
    proof {
        lemma_refs_ok_widen(e.lines@, id, nb, x, id, nb, extra);
    }
    store_a(e, 3, Ghost(id), Ghost(nb), Ghost(extra));
    move_ix(e, 3, Ghost(id), Ghost(nb), Ghost(extra));
}

/// Whether the lower `u16` is below the upper, as a `bool` in their place:
/// the high bytes decide unless they are equal.
fn emit_lt_u16(e: &mut Emitter<Z80Assembly>, label: Z80Label, Ghost(id): Ghost<int>, Ghost(nb): Ghost<int>, Ghost(extra): Ghost<Set<Seq<char>>>)
    requires
        emitter_ok(*old(e), id, nb, extra),
    ensures
        emitter_ok(*final(e), id, nb, extra),
        keeps(old(e).lines@, final(e).lines@),
        abstract_lines(final(e).lines@) == abstract_lines(old(e).lines@) + lt_u16_lines(label.0@),
{
    let ghost l = label.0@;
    let ghost x = extra.insert(l);
    proof {
        lemma_refs_ok_widen(e.lines@, id, nb, extra, id, nb, x);
    }
    load_a(e, 3, Ghost(id), Ghost(nb), Ghost(x));
    plain(e, Z80::cp(ix(1)), Ghost(id), Ghost(nb), Ghost(x));
    jump_relative(e, Z80Condition::Nz, &label, Ghost(id), Ghost(nb), Ghost(x));
    load_a(e, 2, Ghost(id), Ghost(nb), Ghost(x));
    plain(e, Z80::cp(ix(0)), Ghost(id), Ghost(nb), Ghost(x));
    emit_label(e, label, Ghost(id), Ghost(nb), Ghost(x));
    proof {
        lemma_refs_ok_widen(e.lines@, id, nb, x, id, nb, extra);
    }
    plain(e, Z80::ld(reg(Z80Register::A), imm(0)), Ghost(id), Ghost(nb), Ghost(extra));
    plain(e, Z80::sbc(reg(Z80Register::A), reg(Z80Register::A)), Ghost(id), Ghost(nb), Ghost(extra));
    plain(e, Z80::and(imm(1)), Ghost(id), Ghost(nb), Ghost(extra));
    store_a(e, 3, Ghost(id), Ghost(nb), Ghost(extra));
    move_ix(e, 3, Ghost(id), Ghost(nb), Ghost(extra));
}

/// `dec ix` and `ld (ix+0), value`.
pub open spec fn push_byte_lines(value: int) -> Seq<Line> {
    seq![i1("dec"@, Op::Reg(Z80Register::IX)), i2("ld"@, xo(0), Op::Imm(value))]
}

/// The text of a label local to one instruction.
pub open spec fn local_label_text(id: int, block: int, tag: Seq<char>, index: int, suffix: Seq<char>) -> Seq<char> {
    block_label_text(id, block) + tag + decimal_chars(index as nat) + suffix
}

/// The field `i` of the struct laid out as type `t` moved into the
/// struct's place: its bytes copied from the highest, then IX moved up
/// past the rest of the struct.
pub open spec fn get_field_lines(ir_ctx: &IRContext, t: int, i: int) -> Seq<Line> {
    match ir_type_view(ir_ctx.types@[t]) {
        IRTypeView::Struct { fields } => {
            let field = size_of(fields[i]) as int;
            let above = sizes_of(fields.subrange(i + 1, fields.len() as int)) as int;
            let whole = sizes_of(fields) as int;
            let destination = whole - field;
            copy_lines(above, destination, field, true, field) + if destination != 0 {
                move_lines(destination)
            } else {
                Seq::empty()
            }
        },
        _ => Seq::empty(),
    }
}

/// The code of one instruction, where this target has code for it.
pub open spec fn instruction_lines(ir_ctx: &IRContext, id: int, block: int, index: int, instruction: IRInstruction) -> Seq<Line> {
    match instruction {
        IRInstruction::PushConstant { value } => match value {
            IRConstant::U8(v) => push_byte_lines(v as int),
            IRConstant::Bool(b) => push_byte_lines(if b { 1 } else { 0 }),
            IRConstant::U16(v) => seq![i2("ld"@, Op::Reg(Z80Register::HL), Op::Imm(v as int))] + push_hl_lines(),
            IRConstant::StaticPtr(o) => seq![
                i2("ld"@, Op::Reg(Z80Register::HL), Op::LblOff("__static_data"@, o as int)),
            ] + push_hl_lines(),
        },
        IRInstruction::CallDirect { word_id } => seq![i1("call"@, Op::Lbl(word_label_text(word_id.0 as int)))],
        IRInstruction::CallExtern { symbol } => seq![i1("call"@, Op::Lbl(symbol@))],
        IRInstruction::GetField { type_id, field_index } => get_field_lines(
            ir_ctx,
            type_id.0 as int,
            field_index as int,
        ),
        IRInstruction::Load => seq![
            i2("ld"@, Op::Reg(Z80Register::E), xo(0)),
            i2("ld"@, Op::Reg(Z80Register::D), xo(1)),
            i2("ld"@, ra(), Op::Ind(Z80Register::DE)),
            i2("ld"@, xo(1), ra()),
            i1("inc"@, Op::Reg(Z80Register::IX)),
        ],
        IRInstruction::Store => seq![
            i2("ld"@, ra(), xo(0)),
            i2("ld"@, Op::Reg(Z80Register::E), xo(1)),
            i2("ld"@, Op::Reg(Z80Register::D), xo(2)),
            i2("ld"@, Op::Ind(Z80Register::DE), ra()),
        ] + move_lines(3),
        IRInstruction::Cast { from, to } => match (from, to) {
            (IRType::U8, IRType::U16) => seq![
                i2("ld"@, ra(), xo(0)),
                i1("dec"@, Op::Reg(Z80Register::IX)),
                i2("ld"@, xo(0), ra()),
                i2("ld"@, xo(1), Op::Imm(0)),
            ],
            (IRType::U16, IRType::U8) => seq![
                i2("ld"@, ra(), xo(0)),
                i1("inc"@, Op::Reg(Z80Register::IX)),
                i2("ld"@, xo(0), ra()),
            ],
            _ => Seq::empty(),
        },
        IRInstruction::Drop { ty } => move_lines(size_of(ir_type_view(ty)) as int),
        IRInstruction::Dup { ty } => {
            let n = size_of(ir_type_view(ty)) as int;
            move_lines(-n) + copy_lines(n, 0, n, false, n)
        },
        IRInstruction::Swap { lower, upper } => {
            let l = size_of(ir_type_view(lower)) as int;
            let u = size_of(ir_type_view(upper)) as int;
            save_lines(0, u, false, u) + copy_lines(u, 0, l, false, l) + restore_lines(l, u, true, u)
        },
        IRInstruction::Over { lower, upper } => {
            let l = size_of(ir_type_view(lower)) as int;
            let u = size_of(ir_type_view(upper)) as int;
            move_lines(-l) + copy_lines(l + u, 0, l, false, l)
        },
        IRInstruction::RotateLeft { lower, middle, upper } => {
            let l = size_of(ir_type_view(lower)) as int;
            let m = size_of(ir_type_view(middle)) as int;
            let u = size_of(ir_type_view(upper)) as int;
            save_lines(u, m, true, m) + save_lines(0, u, true, u) + save_lines(m + u, l, true, l)
                + restore_lines(0, l + m + u, false, l + m + u)
        },
        IRInstruction::RotateRight { lower, middle, upper } => {
            let l = size_of(ir_type_view(lower)) as int;
            let m = size_of(ir_type_view(middle)) as int;
            let u = size_of(ir_type_view(upper)) as int;
            save_lines(0, u, true, u) + save_lines(m + u, l, true, l) + save_lines(u, m, true, m)
                + restore_lines(0, l + m + u, false, l + m + u)
        },
        IRInstruction::Add { ty } => match ty {
            IRType::U8 => seq![
                i2("ld"@, ra(), xo(0)),
                i1("inc"@, Op::Reg(Z80Register::IX)),
                i2("add"@, ra(), xo(0)),
                i2("ld"@, xo(0), ra()),
            ],
            IRType::U16 => seq![
                i2("ld"@, ra(), xo(0)),
                i2("ld"@, Op::Reg(Z80Register::E), ra()),
                i2("ld"@, ra(), xo(1)),
                i2("ld"@, Op::Reg(Z80Register::D), ra()),
                i2("ld"@, ra(), xo(2)),
                i2("ld"@, Op::Reg(Z80Register::L), ra()),
                i2("ld"@, ra(), xo(3)),
                i2("ld"@, Op::Reg(Z80Register::H), ra()),
                i2("add"@, Op::Reg(Z80Register::HL), Op::Reg(Z80Register::DE)),
                i2("ld"@, ra(), Op::Reg(Z80Register::L)),
                i2("ld"@, xo(2), ra()),
                i2("ld"@, ra(), Op::Reg(Z80Register::H)),
                i2("ld"@, xo(3), ra()),
            ] + move_lines(2),
            _ => Seq::empty(),
        },
        IRInstruction::Eq { ty } => match ty {
            IRType::U8 => eq_u8_lines(local_label_text(id, block, "_eq_u8_"@, index, "_not_equal"@)),
            IRType::U16 => eq_u16_lines(local_label_text(id, block, "_eq_u16_"@, index, "_not_equal"@)),
            _ => Seq::empty(),
        },
        IRInstruction::Lt { ty } => match ty {
            IRType::U8 => seq![
                i2("ld"@, ra(), xo(1)),
                i1("sub"@, xo(0)),
                i2("ld"@, ra(), Op::Imm(0)),
                i2("sbc"@, ra(), ra()),
                i1("and"@, Op::Imm(1)),
                i2("ld"@, xo(1), ra()),
                i1("inc"@, Op::Reg(Z80Register::IX)),
            ],
            IRType::U16 => lt_u16_lines(local_label_text(id, block, "_lt_u16_"@, index, "_compare_done"@)),
            _ => Seq::empty(),
        },
        _ => Seq::empty(),
    }
}

/// A value of the type fits in the machine's memory.
pub open spec fn fits(ty: IRType) -> bool {
    size_of(ir_type_view(ty)) <= max_size()
}

/// Whether this target has code for an instruction: not for lambdas,
/// indirect calls, subtraction, multiplication, division, `>` or printing;
/// a call by name needs a name that can be a label, a field access a field
/// of a struct that fits, a cast one between `u8` and `u16`, a shuffle
/// values that fit, and `+`, `=` and `<` values of `u8` or `u16`.
pub open spec fn has_code(ir_ctx: &IRContext, instruction: IRInstruction) -> bool {
    match instruction {
        IRInstruction::PushConstant { .. } => true,
        IRInstruction::PushLambda { .. } => false,
        IRInstruction::CallDirect { .. } => true,
        IRInstruction::CallExtern { symbol } => is_symbol(encode_utf8(symbol@)),
        IRInstruction::CallIndirect => false,
        IRInstruction::Pack { .. } => true,
        IRInstruction::Unpack { .. } => true,
        IRInstruction::GetField { type_id, field_index } => {
            &&& type_id.0 < ir_ctx.types@.len()
            &&& ir_ctx.types@[type_id.0 as int] matches IRType::Struct { fields }
            &&& field_index < fields@.len()
            &&& sizes_of(ir_types_view(fields@)) <= max_size()
        },
        IRInstruction::Load => true,
        IRInstruction::Store => true,
        IRInstruction::Cast { from, to } => (from is U8 && to is U16) || (from is U16 && to is U8),
        IRInstruction::Drop { ty } => fits(ty),
        IRInstruction::Dup { ty } => fits(ty),
        IRInstruction::Swap { lower, upper } => fits(lower) && fits(upper),
        IRInstruction::Over { lower, upper } => fits(lower) && fits(upper),
        IRInstruction::RotateLeft { lower, middle, upper } => fits(lower) && fits(middle) && fits(upper),
        IRInstruction::RotateRight { lower, middle, upper } => fits(lower) && fits(middle) && fits(upper),
        IRInstruction::Add { ty } => ty is U8 || ty is U16,
        IRInstruction::Eq { ty } => ty is U8 || ty is U16,
        IRInstruction::Lt { ty } => ty is U8 || ty is U16,
        IRInstruction::Sub { .. } => false,
        IRInstruction::Mul { .. } => false,
        IRInstruction::Div { .. } => false,
        IRInstruction::Gt { .. } => false,
        IRInstruction::Print => false,
    }
}

/// A failed external call reports its symbol: `invalid Z80 external
/// symbol '...'`.
pub open spec fn extern_error(r: Result<(), CompileError>, i: IRInstruction) -> bool {
    match i {
        IRInstruction::CallExtern { symbol } => r is Err ==> (r matches Err(CompileError::Unknown { label })
            && label@ == "invalid Z80 external symbol '"@ + symbol@ + "'"@),
        _ => true,
    }
}

/// An instruction this target does not generate code for.
fn unsupported(what: &str) -> (r: CompileError)
    ensures
        r matches CompileError::Unknown { label } && label@ == "'"@ + what@
            + "' is not supported by the Z80 CP/M target"@,
{
    let mut label = String::from_str("'");
    string_extend(&mut label, what);
    string_extend(&mut label, "' is not supported by the Z80 CP/M target");
    CompileError::Unknown { label }
}

/// A type whose values do not fit in the machine's memory.
fn too_large() -> (r: CompileError)
    ensures
        r matches CompileError::Unknown { label } && label@ == "a type is too large for the Z80 CP/M target"@,
{
    CompileError::unknown("a type is too large for the Z80 CP/M target")
}

/// Whether a name can be an assembly label: a letter or `_`, then letters,
/// digits or `_`.
pub open spec fn is_symbol(s: Seq<u8>) -> bool {
    &&& s.len() > 0
    &&& is_symbol_start(s[0])
    &&& forall|i: int| 1 <= i < s.len() ==> #[trigger] is_symbol_char(s[i])
}

pub open spec fn is_symbol_start(c: u8) -> bool {
    (65 <= c <= 90) || (97 <= c <= 122) || c == 95
}

pub open spec fn is_symbol_char(c: u8) -> bool {
    is_symbol_start(c) || (48 <= c <= 57)
}

/// Whether the bytes of a name form an assembly label.
pub fn check_symbol(symbol: &str) -> (r: bool)
    ensures
        r == is_symbol(encode_utf8(symbol@)),
{
    let bytes = symbol.as_bytes();
    if bytes.len() == 0 {
        return false;
    }
    let first = bytes[0];
    if !((65 <= first && first <= 90) || (97 <= first && first <= 122) || first == 95) {
        return false;
    }
    let mut i: usize = 1;
    while i < bytes.len()
        invariant
            1 <= i <= bytes@.len(),
            bytes@ == encode_utf8(symbol@),
            forall|j: int| 1 <= j < i ==> #[trigger] is_symbol_char(bytes@[j]),
        decreases bytes@.len() - i,
    {
        let c = bytes[i];
        if !((65 <= c && c <= 90) || (97 <= c && c <= 122) || c == 95 || (48 <= c && c <= 57)) {
            assert(!is_symbol_char(bytes@[i as int]));
            return false;
        }
        i += 1;
    }
    true
}

/// The size of a type, or the error that it does not fit.
fn size_or_error(ty: &IRType) -> (r: Result<usize, CompileError>)
    ensures
        r matches Ok(n) ==> n == size_of(ir_type_view(*ty)) && n <= max_size(),
        r is Err ==> !fits(*ty),
{
    match type_size(ty) {
        Some(n) => Ok(n),
        None => Err(too_large()),
    }
}

/// Moves field `field_index` of the struct on top into the struct's place.
fn emit_get_field(
    e: &mut Emitter<Z80Assembly>,
    ir_ctx: &IRContext,
    type_id: TypeId,
    field_index: usize,
    Ghost(id): Ghost<int>,
    Ghost(nb): Ghost<int>,
    Ghost(extra): Ghost<Set<Seq<char>>>,
) -> (r: Result<(), CompileError>)
    requires
        emitter_ok(*old(e), id, nb, extra),
    ensures
        emitter_ok(*final(e), id, nb, extra),
        keeps(old(e).lines@, final(e).lines@),
        r is Ok ==> abstract_lines(final(e).lines@) == abstract_lines(old(e).lines@) + get_field_lines(
            ir_ctx,
            type_id.0 as int,
            field_index as int,
        ),
        r is Ok <==> has_code(ir_ctx, IRInstruction::GetField { type_id, field_index }),
{
    let fields = match ir_ctx.get_type(type_id) {
        Some(IRType::Struct { fields }) => fields,
        _ => {
            let mut label = String::from_str("GetField references a non-struct IR type with id ");
            let n = usize_to_string(type_id.0);
            string_extend(&mut label, n.as_str());
            return Err(CompileError::Unknown { label });
        },
    };
    let i = field_index;
    if i >= fields.len() {
        let mut label = String::from_str("GetField references field ");
        let n = usize_to_string(i);
        string_extend(&mut label, n.as_str());
        string_extend(&mut label, " of a struct with ");
        let m = usize_to_string(fields.len());
        string_extend(&mut label, m.as_str());
        string_extend(&mut label, " fields");
        return Err(CompileError::Unknown { label });
    }
    proof {
        let views = ir_types_view(fields@);
        lemma_ir_types_view(fields@);
        assert(views.subrange(0, fields@.len() as int) =~= views);
        lemma_sizes_of_split(views, i as int);
        let tail = views.subrange(i as int, fields@.len() as int);
        lemma_sizes_of_first(tail);
        assert(tail.drop_first() =~= views.subrange(i + 1, fields@.len() as int));
        assert(tail[0] == views[i as int]);
    }
    let field_size = size_or_error(&fields[i])?;
    let above_size = match types_size(fields, i + 1) {
        Some(n) => n,
        None => {
            return Err(too_large());
        },
    };
    let struct_size = match types_size(fields, 0) {
        Some(n) => n,
        None => {
            return Err(too_large());
        },
    };
    proof {
        let views = ir_types_view(fields@);
        lemma_ir_types_view(fields@);
        assert(views.subrange(0, fields@.len() as int) =~= views);
        lemma_sizes_of_split(views, i as int);
        let tail = views.subrange(i as int, fields@.len() as int);
        lemma_sizes_of_first(tail);
        assert(tail.drop_first() =~= views.subrange(i + 1, fields@.len() as int));
        assert(tail[0] == views[i as int]);
    }
    let destination = struct_size - field_size;
    copy_bytes(e, above_size, destination, field_size, true, Ghost(id), Ghost(nb), Ghost(extra));
    if destination != 0 {
        move_ix(e, destination as isize, Ghost(id), Ghost(nb), Ghost(extra));
    }
    
    Ok(())
}

/// The code of a constant, a call, or a pack or unpack (which moves no byte).
#[verifier::spinoff_prover]
fn emit_constant_or_call(
    e: &mut Emitter<Z80Assembly>,
    ir_ctx: &IRContext,
    word_id: WordId,
    block_id: usize,
    index: usize,
    instruction: &IRInstruction,
    Ghost(id): Ghost<int>,
    Ghost(nb): Ghost<int>,
    Ghost(extra): Ghost<Set<Seq<char>>>,
) -> (r: Result<(), CompileError>)
    requires
        emitter_ok(*old(e), id, nb, extra),
        instruction is PushConstant || instruction is PushLambda || instruction is CallDirect || instruction is CallExtern || instruction is CallIndirect || instruction is Pack || instruction is Unpack,
    ensures
        emitter_ok(*final(e), id, nb, extra),
        keeps(old(e).lines@, final(e).lines@),
        r is Ok ==> abstract_lines(final(e).lines@) == abstract_lines(old(e).lines@) + instruction_lines(
            ir_ctx,
            word_id.0 as int,
            block_id as int,
            index as int,
            *instruction,
        ),
        r is Ok <==> has_code(ir_ctx, *instruction),        extern_error(r, *instruction),
{
    match instruction {
        IRInstruction::PushConstant { value } => match value {
            IRConstant::U8(v) => push_byte(e, *v as isize, Ghost(id), Ghost(nb), Ghost(extra)),
            IRConstant::Bool(b) => push_byte(e, if *b { 1 } else { 0 }, Ghost(id), Ghost(nb), Ghost(extra)),
            IRConstant::U16(v) => {
                plain(e, Z80::ld(reg(Z80Register::HL), imm(*v as isize)), Ghost(id), Ghost(nb), Ghost(extra));
                push_hl(e, Ghost(id), Ghost(nb), Ghost(extra));
            },
            IRConstant::StaticPtr(offset) => {
                let data = Z80Operand::label_offset(Z80Label::new("__static_data"), *offset as isize);
                let line = Z80::ld(reg(Z80Register::HL), data);
                proof {
                    reveal_strlit("ld");
                    reveal_strlit("call");
                    reveal_strlit("__static_data");
                    assert("ld"@.len() == 2);
                    assert("call"@.len() == 4);
                    assert("ld"@ != "call"@);
                    assert(label_ref(line) == Some("__static_data"@));
                }
                emit_ref(e, line, Ghost(id), Ghost(nb), Ghost(extra));
                push_hl(e, Ghost(id), Ghost(nb), Ghost(extra));
            },
        },
        IRInstruction::PushLambda { .. } => {
            return Err(unsupported("lambda literal"));
        },
        IRInstruction::CallDirect { word_id: callee } => {
            plain(e, Z80::call(Z80Operand::Label(word_label(*callee))), Ghost(id), Ghost(nb), Ghost(extra));
        },
        IRInstruction::CallExtern { symbol } => {
            if !check_symbol(symbol.as_str()) {
                let mut label = String::from_str("invalid Z80 external symbol '");
                string_extend(&mut label, symbol.as_str());
                string_extend(&mut label, "'");
                return Err(CompileError::Unknown { label });
            }
            let target = Z80Label(crate::text::copy_string(symbol));
            plain(e, Z80::call(Z80Operand::Label(target)), Ghost(id), Ghost(nb), Ghost(extra));
        },
        IRInstruction::CallIndirect => {
            return Err(unsupported("indirect call"));
        },
        IRInstruction::Pack { .. } | IRInstruction::Unpack { .. } => {},
        _ => {},
    }
    Ok(())
}

/// The code of a load, a store or a cast.
#[verifier::spinoff_prover]
fn emit_memory(
    e: &mut Emitter<Z80Assembly>,
    ir_ctx: &IRContext,
    word_id: WordId,
    block_id: usize,
    index: usize,
    instruction: &IRInstruction,
    Ghost(id): Ghost<int>,
    Ghost(nb): Ghost<int>,
    Ghost(extra): Ghost<Set<Seq<char>>>,
) -> (r: Result<(), CompileError>)
    requires
        emitter_ok(*old(e), id, nb, extra),
        instruction is Load || instruction is Store || instruction is Cast,
    ensures
        emitter_ok(*final(e), id, nb, extra),
        keeps(old(e).lines@, final(e).lines@),
        r is Ok ==> abstract_lines(final(e).lines@) == abstract_lines(old(e).lines@) + instruction_lines(
            ir_ctx,
            word_id.0 as int,
            block_id as int,
            index as int,
            *instruction,
        ),
        r is Ok <==> has_code(ir_ctx, *instruction),
{
    match instruction {
        IRInstruction::Load => {
            plain(e, Z80::ld(reg(Z80Register::E), ix(0)), Ghost(id), Ghost(nb), Ghost(extra));
            plain(e, Z80::ld(reg(Z80Register::D), ix(1)), Ghost(id), Ghost(nb), Ghost(extra));
            plain(
                e,
                Z80::ld(reg(Z80Register::A), Z80Operand::indirect(Z80Register::DE)),
                Ghost(id),
                Ghost(nb),
                Ghost(extra),
            );
            store_a(e, 1, Ghost(id), Ghost(nb), Ghost(extra));
            plain(e, Z80::inc(reg(Z80Register::IX)), Ghost(id), Ghost(nb), Ghost(extra));
        },
        IRInstruction::Store => {
            load_a(e, 0, Ghost(id), Ghost(nb), Ghost(extra));
            plain(e, Z80::ld(reg(Z80Register::E), ix(1)), Ghost(id), Ghost(nb), Ghost(extra));
            plain(e, Z80::ld(reg(Z80Register::D), ix(2)), Ghost(id), Ghost(nb), Ghost(extra));
            plain(
                e,
                Z80::ld(Z80Operand::indirect(Z80Register::DE), reg(Z80Register::A)),
                Ghost(id),
                Ghost(nb),
                Ghost(extra),
            );
            move_ix(e, 3, Ghost(id), Ghost(nb), Ghost(extra));
        },
        IRInstruction::Cast { from, to } => match (from, to) {
            (IRType::U8, IRType::U16) => {
                load_a(e, 0, Ghost(id), Ghost(nb), Ghost(extra));
                plain(e, Z80::dec(reg(Z80Register::IX)), Ghost(id), Ghost(nb), Ghost(extra));
                store_a(e, 0, Ghost(id), Ghost(nb), Ghost(extra));
                plain(e, Z80::ld(ix(1), imm(0)), Ghost(id), Ghost(nb), Ghost(extra));
            },
            (IRType::U16, IRType::U8) => {
                load_a(e, 0, Ghost(id), Ghost(nb), Ghost(extra));
                plain(e, Z80::inc(reg(Z80Register::IX)), Ghost(id), Ghost(nb), Ghost(extra));
                store_a(e, 0, Ghost(id), Ghost(nb), Ghost(extra));
            },
            _ => {
                return Err(unsupported("cast"));
            },
        },
        _ => {},
    }
    Ok(())
}

/// The code of a stack shuffle: drop, dup, swap, over and the rotations.
#[verifier::spinoff_prover]
fn emit_stack_op(
    e: &mut Emitter<Z80Assembly>,
    ir_ctx: &IRContext,
    word_id: WordId,
    block_id: usize,
    index: usize,
    instruction: &IRInstruction,
    Ghost(id): Ghost<int>,
    Ghost(nb): Ghost<int>,
    Ghost(extra): Ghost<Set<Seq<char>>>,
) -> (r: Result<(), CompileError>)
    requires
        emitter_ok(*old(e), id, nb, extra),
        instruction is Drop || instruction is Dup || instruction is Swap || instruction is Over || instruction is RotateLeft || instruction is RotateRight,
    ensures
        emitter_ok(*final(e), id, nb, extra),
        keeps(old(e).lines@, final(e).lines@),
        r is Ok ==> abstract_lines(final(e).lines@) == abstract_lines(old(e).lines@) + instruction_lines(
            ir_ctx,
            word_id.0 as int,
            block_id as int,
            index as int,
            *instruction,
        ),
        r is Ok <==> has_code(ir_ctx, *instruction),
{
    match instruction {
        IRInstruction::Drop { ty } => {
            let size = size_or_error(ty)?;
            move_ix(e, size as isize, Ghost(id), Ghost(nb), Ghost(extra));
        },
        IRInstruction::Dup { ty } => {
            let size = size_or_error(ty)?;
            move_ix(e, -(size as isize), Ghost(id), Ghost(nb), Ghost(extra));
            copy_bytes(e, size, 0, size, false, Ghost(id), Ghost(nb), Ghost(extra));
        },
        IRInstruction::Swap { lower, upper } => {
            let lower_size = size_or_error(lower)?;
            let upper_size = size_or_error(upper)?;
            save_bytes(e, 0, upper_size, false, Ghost(id), Ghost(nb), Ghost(extra));
            copy_bytes(e, upper_size, 0, lower_size, false, Ghost(id), Ghost(nb), Ghost(extra));
            restore_bytes(e, lower_size, upper_size, true, Ghost(id), Ghost(nb), Ghost(extra));
        },
        IRInstruction::Over { lower, upper } => {
            let lower_size = size_or_error(lower)?;
            let upper_size = size_or_error(upper)?;
            move_ix(e, -(lower_size as isize), Ghost(id), Ghost(nb), Ghost(extra));
            copy_bytes(e, lower_size + upper_size, 0, lower_size, false, Ghost(id), Ghost(nb), Ghost(extra));
        },
        IRInstruction::RotateLeft { lower, middle, upper } => {
            let l = size_or_error(lower)?;
            let m = size_or_error(middle)?;
            let u = size_or_error(upper)?;
            save_bytes(e, u, m, true, Ghost(id), Ghost(nb), Ghost(extra));
            save_bytes(e, 0, u, true, Ghost(id), Ghost(nb), Ghost(extra));
            save_bytes(e, m + u, l, true, Ghost(id), Ghost(nb), Ghost(extra));
            restore_bytes(e, 0, l + m + u, false, Ghost(id), Ghost(nb), Ghost(extra));
        },
        IRInstruction::RotateRight { lower, middle, upper } => {
            let l = size_or_error(lower)?;
            let m = size_or_error(middle)?;
            let u = size_or_error(upper)?;
            save_bytes(e, 0, u, true, Ghost(id), Ghost(nb), Ghost(extra));
            save_bytes(e, m + u, l, true, Ghost(id), Ghost(nb), Ghost(extra));
            save_bytes(e, u, m, true, Ghost(id), Ghost(nb), Ghost(extra));
            restore_bytes(e, 0, l + m + u, false, Ghost(id), Ghost(nb), Ghost(extra));
        },
        _ => {},
    }
    Ok(())
}

/// The code of an addition, an equality or a comparison.
#[verifier::spinoff_prover]
#[verifier::rlimit(40)]
fn emit_arithmetic(
    e: &mut Emitter<Z80Assembly>,
    ir_ctx: &IRContext,
    word_id: WordId,
    block_id: usize,
    index: usize,
    instruction: &IRInstruction,
    Ghost(id): Ghost<int>,
    Ghost(nb): Ghost<int>,
    Ghost(extra): Ghost<Set<Seq<char>>>,
) -> (r: Result<(), CompileError>)
    requires
        emitter_ok(*old(e), id, nb, extra),
        instruction is Add || instruction is Eq || instruction is Lt || instruction is Sub || instruction is Mul || instruction is Div || instruction is Gt || instruction is Print,
    ensures
        emitter_ok(*final(e), id, nb, extra),
        keeps(old(e).lines@, final(e).lines@),
        r is Ok ==> abstract_lines(final(e).lines@) == abstract_lines(old(e).lines@) + instruction_lines(
            ir_ctx,
            word_id.0 as int,
            block_id as int,
            index as int,
            *instruction,
        ),
        r is Ok <==> has_code(ir_ctx, *instruction),
{
    match instruction {
        IRInstruction::Add { ty } => match ty {
            IRType::U8 => {
                load_a(e, 0, Ghost(id), Ghost(nb), Ghost(extra));
                plain(e, Z80::inc(reg(Z80Register::IX)), Ghost(id), Ghost(nb), Ghost(extra));
                plain(e, Z80::add(reg(Z80Register::A), ix(0)), Ghost(id), Ghost(nb), Ghost(extra));
                store_a(e, 0, Ghost(id), Ghost(nb), Ghost(extra));
            },
            IRType::U16 => {
                load_a(e, 0, Ghost(id), Ghost(nb), Ghost(extra));
                plain(e, Z80::ld(reg(Z80Register::E), reg(Z80Register::A)), Ghost(id), Ghost(nb), Ghost(extra));
                load_a(e, 1, Ghost(id), Ghost(nb), Ghost(extra));
                plain(e, Z80::ld(reg(Z80Register::D), reg(Z80Register::A)), Ghost(id), Ghost(nb), Ghost(extra));
                load_a(e, 2, Ghost(id), Ghost(nb), Ghost(extra));
                plain(e, Z80::ld(reg(Z80Register::L), reg(Z80Register::A)), Ghost(id), Ghost(nb), Ghost(extra));
                load_a(e, 3, Ghost(id), Ghost(nb), Ghost(extra));
                plain(e, Z80::ld(reg(Z80Register::H), reg(Z80Register::A)), Ghost(id), Ghost(nb), Ghost(extra));
                plain(e, Z80::add(reg(Z80Register::HL), reg(Z80Register::DE)), Ghost(id), Ghost(nb), Ghost(extra));
                plain(e, Z80::ld(reg(Z80Register::A), reg(Z80Register::L)), Ghost(id), Ghost(nb), Ghost(extra));
                store_a(e, 2, Ghost(id), Ghost(nb), Ghost(extra));
                plain(e, Z80::ld(reg(Z80Register::A), reg(Z80Register::H)), Ghost(id), Ghost(nb), Ghost(extra));
                store_a(e, 3, Ghost(id), Ghost(nb), Ghost(extra));
                move_ix(e, 2, Ghost(id), Ghost(nb), Ghost(extra));
            },
            _ => {
                return Err(unsupported("addition of this type"));
            },
        },
        IRInstruction::Eq { ty } => match ty {
            IRType::U8 => {
                let label = local_label(word_id, block_id, "_eq_u8_", index, "_not_equal");
                emit_eq_u8(e, label, Ghost(id), Ghost(nb), Ghost(extra));
            },
            IRType::U16 => {
                let label = local_label(word_id, block_id, "_eq_u16_", index, "_not_equal");
                emit_eq_u16(e, label, Ghost(id), Ghost(nb), Ghost(extra));
            },
            _ => {
                return Err(unsupported("equality of this type"));
            },
        },
        IRInstruction::Lt { ty } => match ty {
            IRType::U8 => {
                load_a(e, 1, Ghost(id), Ghost(nb), Ghost(extra));
                plain(e, Z80::sub(ix(0)), Ghost(id), Ghost(nb), Ghost(extra));
                plain(e, Z80::ld(reg(Z80Register::A), imm(0)), Ghost(id), Ghost(nb), Ghost(extra));
                plain(e, Z80::sbc(reg(Z80Register::A), reg(Z80Register::A)), Ghost(id), Ghost(nb), Ghost(extra));
                plain(e, Z80::and(imm(1)), Ghost(id), Ghost(nb), Ghost(extra));
                store_a(e, 1, Ghost(id), Ghost(nb), Ghost(extra));
                plain(e, Z80::inc(reg(Z80Register::IX)), Ghost(id), Ghost(nb), Ghost(extra));
            },
            IRType::U16 => {
                let label = local_label(word_id, block_id, "_lt_u16_", index, "_compare_done");
                emit_lt_u16(e, label, Ghost(id), Ghost(nb), Ghost(extra));
            },
            _ => {
                return Err(unsupported("comparison of this type"));
            },
        },
        IRInstruction::Sub { .. } => {
            return Err(unsupported("subtraction"));
        },
        IRInstruction::Mul { .. } => {
            return Err(unsupported("multiplication"));
        },
        IRInstruction::Div { .. } => {
            return Err(unsupported("division"));
        },
        IRInstruction::Gt { .. } => {
            return Err(unsupported("greater-than comparison"));
        },
        IRInstruction::Print => {
            return Err(unsupported("print"));
        },
        _ => {},
    }
    Ok(())
}

/// Writes the code of one instruction of block `block_id` of a word.
#[verifier::spinoff_prover]
fn emit_instruction(
    e: &mut Emitter<Z80Assembly>,
    ir_ctx: &IRContext,
    word_id: WordId,
    block_id: usize,
    index: usize,
    instruction: &IRInstruction,
    Ghost(id): Ghost<int>,
    Ghost(nb): Ghost<int>,
    Ghost(extra): Ghost<Set<Seq<char>>>,
) -> (r: Result<(), CompileError>)
    requires
        emitter_ok(*old(e), id, nb, extra),
    ensures
        emitter_ok(*final(e), id, nb, extra),
        keeps(old(e).lines@, final(e).lines@),
        r is Ok ==> abstract_lines(final(e).lines@) == abstract_lines(old(e).lines@) + instruction_lines(
            ir_ctx,
            word_id.0 as int,
            block_id as int,
            index as int,
            *instruction,
        ),
        r is Ok <==> has_code(ir_ctx, *instruction),
{
    match instruction {
        IRInstruction::PushConstant { .. } | IRInstruction::PushLambda { .. } | IRInstruction::CallDirect {
            ..
        } | IRInstruction::CallExtern { .. } | IRInstruction::CallIndirect | IRInstruction::Pack { .. }
        | IRInstruction::Unpack { .. } => emit_constant_or_call(
            e,
            ir_ctx,
            word_id,
            block_id,
            index,
            instruction,
            Ghost(id),
            Ghost(nb),
            Ghost(extra),
        ),
        IRInstruction::GetField { type_id, field_index } => emit_get_field(
            e,
            ir_ctx,
            *type_id,
            *field_index,
            Ghost(id),
            Ghost(nb),
            Ghost(extra),
        ),
        IRInstruction::Load | IRInstruction::Store | IRInstruction::Cast { .. } => emit_memory(
            e,
            ir_ctx,
            word_id,
            block_id,
            index,
            instruction,
            Ghost(id),
            Ghost(nb),
            Ghost(extra),
        ),
        IRInstruction::Drop { .. } | IRInstruction::Dup { .. } | IRInstruction::Swap { .. }
        | IRInstruction::Over { .. } | IRInstruction::RotateLeft { .. } | IRInstruction::RotateRight {
            ..
        } => emit_stack_op(e, ir_ctx, word_id, block_id, index, instruction, Ghost(id), Ghost(nb), Ghost(extra)),
        _ => emit_arithmetic(e, ir_ctx, word_id, block_id, index, instruction, Ghost(id), Ghost(nb), Ghost(extra)),
    }
}

/// A terminator can branch to block `t`.
pub open spec fn branches_to(term: IRTerminator, t: int) -> bool {
    match term {
        IRTerminator::Branch { branch } => branch.0 == t,
        IRTerminator::BranchIfZero { then_branch, else_branch } => then_branch.0 == t || else_branch.0
            == t,
        IRTerminator::End => false,
    }
}

/// `l` is the label of a block past the end of word `w` that one of its
/// blocks branches to.
pub open spec fn bad_target(w: IRWord, l: Seq<char>) -> bool {
    exists|i: int, t: int|
        0 <= i < w.blocks@.len() && #[trigger] branches_to(w.blocks@[i].terminator.value, t) && t
            >= w.blocks@.len() && l == block_label_text(w.word_id.0 as int, t)
}

/// The labels of blocks that some word of the program branches to but does
/// not have.
pub open spec fn bad_labels(p: &IRProgram) -> Set<Seq<char>> {
    Set::new(|l: Seq<char>| exists|k: int| 0 <= k < p.words@.len() && #[trigger] bad_target(p.words@[k].value, l))
}

/// The code of a terminator: `ret`, or jumps to the blocks it branches to
/// (after popping the condition).
pub open spec fn terminator_lines(id: int, term: IRTerminator) -> Seq<Line> {
    match term {
        IRTerminator::End => seq![i0("ret"@)],
        IRTerminator::Branch { branch } => seq![jump_line(None, block_label_text(id, branch.0 as int))],
        IRTerminator::BranchIfZero { then_branch, else_branch } => seq![
            i2("ld"@, ra(), xo(0)),
            i1("inc"@, Op::Reg(Z80Register::IX)),
            i1("or"@, ra()),
            jump_line(Some(Z80Condition::Nz), block_label_text(id, then_branch.0 as int)),
            jump_line(None, block_label_text(id, else_branch.0 as int)),
        ],
    }
}

/// The code of the first `k` instructions of block `b` of a word.
pub open spec fn body_lines(ir_ctx: &IRContext, w: IRWord, b: int, k: int) -> Seq<Line>
    decreases k,
{
    if k <= 0 {
        Seq::empty()
    } else {
        body_lines(ir_ctx, w, b, k - 1) + instruction_lines(
            ir_ctx,
            w.word_id.0 as int,
            b,
            k - 1,
            w.blocks@[b].instructions@[k - 1].value,
        )
    }
}

/// Block `b` of a word: its label, its instructions, its terminator.
pub open spec fn block_lines(ir_ctx: &IRContext, w: IRWord, b: int) -> Seq<Line> {
    seq![Line::Label(block_label_text(w.word_id.0 as int, b))] + body_lines(
        ir_ctx,
        w,
        b,
        w.blocks@[b].instructions@.len() as int,
    ) + terminator_lines(w.word_id.0 as int, w.blocks@[b].terminator.value)
}

/// The first `k` blocks of a word.
pub open spec fn blocks_lines(ir_ctx: &IRContext, w: IRWord, k: int) -> Seq<Line>
    decreases k,
{
    if k <= 0 {
        Seq::empty()
    } else {
        blocks_lines(ir_ctx, w, k - 1) + block_lines(ir_ctx, w, k - 1)
    }
}

/// The code of a word: a comment with its name, its label, its blocks.
pub open spec fn word_lines(ir_ctx: &IRContext, w: IRWord) -> Seq<Line> {
    seq![Line::Comment(w.name@), Line::Label(word_label_text(w.word_id.0 as int))] + blocks_lines(
        ir_ctx,
        w,
        w.blocks@.len() as int,
    )
}

/// This target has code for every instruction of the block.
pub open spec fn block_has_code(ir_ctx: &IRContext, b: IRBasicBlock) -> bool {
    forall|i: int| 0 <= i < b.instructions@.len() ==> has_code(ir_ctx, #[trigger] b.instructions@[i].value)
}

/// This target has code for every instruction of the word.
pub open spec fn word_has_code(ir_ctx: &IRContext, w: IRWord) -> bool {
    forall|b: int| 0 <= b < w.blocks@.len() ==> block_has_code(ir_ctx, #[trigger] w.blocks@[b])
}

/// This target has code for every instruction of the program.
pub open spec fn program_has_code(ir_ctx: &IRContext, p: &IRProgram) -> bool {
    forall|w: int| 0 <= w < p.words@.len() ==> word_has_code(ir_ctx, (#[trigger] p.words@[w]).value)
}

/// Writes the code of a block's terminator: `ret`, or jumps to the blocks
/// it branches to (after popping the condition).
fn emit_terminator(
    e: &mut Emitter<Z80Assembly>,
    word: &IRWord,
    block_id: usize,
    Ghost(id): Ghost<int>,
    Ghost(nb): Ghost<int>,
    Ghost(extra): Ghost<Set<Seq<char>>>,
)
    requires
        emitter_ok(*old(e), id, nb, extra),
        id == word.word_id.0,
        nb == word.blocks@.len(),
        block_id < nb,
        forall|l: Seq<char>| bad_target(*word, l) ==> extra.contains(l),
    ensures
        emitter_ok(*final(e), id, nb, extra),
        keeps(old(e).lines@, final(e).lines@),
        abstract_lines(final(e).lines@) == abstract_lines(old(e).lines@) + terminator_lines(
            id,
            word.blocks@[block_id as int].terminator.value,
        ),
{
    let term = word.blocks[block_id].terminator.value;
    match term {
        IRTerminator::End => {
            plain(e, Z80::ret(), Ghost(id), Ghost(nb), Ghost(extra));
        },
        IRTerminator::Branch { branch } => {
            proof {
                if branch.0 >= nb {
                    assert(branches_to(word.blocks@[block_id as int].terminator.value, branch.0 as int));
                    assert(bad_target(*word, block_label_text(id, branch.0 as int)));
                }
            }
            jump_to_block(e, None, word.word_id, branch.0, Ghost(id), Ghost(nb), Ghost(extra));
        },
        IRTerminator::BranchIfZero { then_branch, else_branch } => {
            proof {
                if then_branch.0 >= nb {
                    assert(branches_to(word.blocks@[block_id as int].terminator.value, then_branch.0 as int));
                    assert(bad_target(*word, block_label_text(id, then_branch.0 as int)));
                }
                if else_branch.0 >= nb {
                    assert(branches_to(word.blocks@[block_id as int].terminator.value, else_branch.0 as int));
                    assert(bad_target(*word, block_label_text(id, else_branch.0 as int)));
                }
            }
            load_a(e, 0, Ghost(id), Ghost(nb), Ghost(extra));
            plain(e, Z80::inc(reg(Z80Register::IX)), Ghost(id), Ghost(nb), Ghost(extra));
            plain(e, Z80::or(reg(Z80Register::A)), Ghost(id), Ghost(nb), Ghost(extra));
            jump_to_block(e, Some(Z80Condition::Nz), word.word_id, then_branch.0, Ghost(id), Ghost(nb), Ghost(extra));
            jump_to_block(e, None, word.word_id, else_branch.0, Ghost(id), Ghost(nb), Ghost(extra));
        },
    }
}

/// Writes the code of a word: a comment with its name, its label, then
/// each block under its own label. Every block label is then defined, so
/// the word's jumps resolve but for branches past its last block.
#[verifier::spinoff_prover]
fn emit_word(
    e: &mut Emitter<Z80Assembly>,
    ir_ctx: &IRContext,
    word: &IRWord,
    Ghost(extra): Ghost<Set<Seq<char>>>,
) -> (r: Result<(), CompileError>)
    requires
        emitter_ok(*old(e), 0, 0, extra),
        forall|l: Seq<char>| bad_target(*word, l) ==> extra.contains(l),
    ensures
        final(e).wf(),
        r is Ok ==> emitter_ok(*final(e), 0, 0, extra) && keeps(old(e).lines@, final(e).lines@)
            && defines(final(e).lines@, word_label_text(word.word_id.0 as int)),
        r is Ok ==> abstract_lines(final(e).lines@) == abstract_lines(old(e).lines@) + word_lines(ir_ctx, *word),
        r is Ok <==> word_has_code(ir_ctx, *word),
{
    let ghost id = word.word_id.0 as int;
    let ghost nb = word.blocks@.len() as int;
    proof {
        lemma_refs_ok_widen(e.lines@, 0, 0, extra, id, nb, extra);
    }
    let ghost l0 = e.lines@;
    plain(e, Z80::comment(word.name.as_str()), Ghost(id), Ghost(nb), Ghost(extra));
    emit_label(e, word_label(word.word_id), Ghost(id), Ghost(nb), Ghost(extra));
    let mut block_id: usize = 0;
    while block_id < word.blocks.len()
        invariant
            block_id <= word.blocks@.len(),
            id == word.word_id.0,
            nb == word.blocks@.len(),
            forall|l: Seq<char>| bad_target(*word, l) ==> extra.contains(l),
            emitter_ok(*e, id, nb, extra),
            keeps(l0, e.lines@),
            defines(e.lines@, word_label_text(id)),
            forall|t: int| 0 <= t < block_id ==> defines(e.lines@, #[trigger] block_label_text(id, t)),
            forall|t: int| 0 <= t < block_id ==> block_has_code(ir_ctx, #[trigger] word.blocks@[t]),
            abstract_lines(e.lines@) == abstract_lines(l0) + seq![
                Line::Comment(word.name@),
                Line::Label(word_label_text(id)),
            ] + blocks_lines(ir_ctx, *word, block_id as int),
        decreases word.blocks@.len() - block_id,
    {
        let ghost before = e.lines@;
        emit_label(e, block_label(word.word_id, block_id), Ghost(id), Ghost(nb), Ghost(extra));
        let block = &word.blocks[block_id];
        let mut index: usize = 0;
        while index < block.instructions.len()
            invariant
                index <= block.instructions@.len(),
                emitter_ok(*e, id, nb, extra),
                keeps(before, e.lines@),
                defines(e.lines@, block_label_text(id, block_id as int)),
                block_id < word.blocks@.len(),
                *block == word.blocks@[block_id as int],
                id == word.word_id.0,
                abstract_lines(e.lines@) == abstract_lines(before) + seq![
                    Line::Label(block_label_text(id, block_id as int)),
                ] + body_lines(ir_ctx, *word, block_id as int, index as int),
                forall|j: int| 0 <= j < index ==> has_code(ir_ctx, #[trigger] block.instructions@[j].value),
            decreases block.instructions@.len() - index,
        {
            let ghost mid = e.lines@;
            let result = emit_instruction(
                e,
                ir_ctx,
                word.word_id,
                block_id,
                index,
                &block.instructions[index].value,
                Ghost(id),
                Ghost(nb),
                Ghost(extra),
            );
            if result.is_err() {
                proof {
                    assert(!block_has_code(ir_ctx, word.blocks@[block_id as int]));
                }
                return result;
            }
            index += 1;
        }
        emit_terminator(e, word, block_id, Ghost(id), Ghost(nb), Ghost(extra));
        assert(block_has_code(ir_ctx, word.blocks@[block_id as int]));
        block_id += 1;
    }
    proof {
        assert forall|l: Seq<char>| block_label_of(l, id, nb) implies defines(e.lines@, l) || block_label_of(l, 0, 0) by {
            let t = choose|t: int| 0 <= t < nb && l == #[trigger] block_label_text(id, t);
            assert(defines(e.lines@, block_label_text(id, t)));
        }
        lemma_refs_ok_widen(e.lines@, id, nb, extra, 0, 0, extra);
    }
    Ok(())
}

/// The start of the program: origin, `start`, heap and data stack set up,
/// the call of the entrypoint and the return to CP/M.
pub open spec fn start_lines(entry: int) -> Seq<Line> {
    seq![
        Line::Org(0x100),
        Line::Label("start"@),
        i2("ld"@, Op::Reg(Z80Register::HL), Op::Lbl("__heap"@)),
        i2("ld"@, Op::IndLbl("__heap_ptr"@), Op::Reg(Z80Register::HL)),
        i2("ld"@, Op::Reg(Z80Register::IX), Op::Lbl("__data_stack_end"@)),
        i1("call"@, Op::Lbl(word_label_text(entry))),
        i2("ld"@, Op::Reg(Z80Register::C), Op::Imm(0)),
        i1("call"@, Op::Imm(5)),
    ]
}

/// `bdos_call`: function number and argument from the data stack, the
/// result left in their place.
pub open spec fn bdos_call_lines() -> Seq<Line> {
    seq![
        Line::Label("bdos_call"@),
        i2("ld"@, Op::Reg(Z80Register::C), xo(0)),
        i2("ld"@, Op::Reg(Z80Register::E), xo(1)),
        i2("ld"@, Op::Reg(Z80Register::D), xo(2)),
        i1("push"@, Op::Reg(Z80Register::IX)),
        i1("call"@, Op::Imm(5)),
        i1("pop"@, Op::Reg(Z80Register::IX)),
        i2("ld"@, xo(1), Op::Reg(Z80Register::L)),
        i2("ld"@, xo(2), Op::Reg(Z80Register::H)),
        i1("inc"@, Op::Reg(Z80Register::IX)),
        i0("ret"@),
    ]
}

/// `alloc`: takes a size from the data stack and leaves the address of that
/// many fresh bytes of the heap in its place.
pub open spec fn alloc_lines() -> Seq<Line> {
    seq![
        Line::Label("alloc"@),
        i2("ld"@, Op::Reg(Z80Register::E), xo(0)),
        i2("ld"@, Op::Reg(Z80Register::D), xo(1)),
        i2("ld"@, Op::Reg(Z80Register::HL), Op::IndLbl("__heap_ptr"@)),
        i1("push"@, Op::Reg(Z80Register::HL)),
        i2("add"@, Op::Reg(Z80Register::HL), Op::Reg(Z80Register::DE)),
        i2("ld"@, Op::IndLbl("__heap_ptr"@), Op::Reg(Z80Register::HL)),
        i1("pop"@, Op::Reg(Z80Register::HL)),
        i2("ld"@, xo(0), Op::Reg(Z80Register::L)),
        i2("ld"@, xo(1), Op::Reg(Z80Register::H)),
        i0("ret"@),
    ]
}

/// The lines before the words.
pub open spec fn prelude_lines(entry: int) -> Seq<Line> {
    start_lines(entry) + bdos_call_lines() + alloc_lines()
}

/// One `db` line per byte.
pub open spec fn db_lines(data: Seq<u8>) -> Seq<Line> {
    data.map_values(|b: u8| Line::Db(b))
}

/// The lines after the words: the static data, 256 bytes of data stack, the
/// heap pointer and the heap.
pub open spec fn trailer_lines(data: Seq<u8>) -> Seq<Line> {
    seq![Line::Label("__static_data"@)] + db_lines(data) + seq![
        Line::Label("__data_stack"@),
        Line::Defs(256),
        Line::Label("__data_stack_end"@),
        Line::Label("__heap_ptr"@),
        Line::Defs(2),
        Line::Label("__heap"@),
    ]
}

/// The code of the first `k` words, in order.
pub open spec fn words_lines(ir_ctx: &IRContext, words: Seq<Spanned<IRWord>>, k: int) -> Seq<Line>
    decreases k,
{
    if k <= 0 {
        Seq::empty()
    } else {
        words_lines(ir_ctx, words, k - 1) + word_lines(ir_ctx, words[k - 1].value)
    }
}

/// Word `k` is the first entrypoint.
pub open spec fn is_first_entry(words: Seq<Spanned<IRWord>>, k: int) -> bool {
    &&& 0 <= k < words.len()
    &&& words[k].value.entrypoint
    &&& forall|j: int| 0 <= j < k ==> !(#[trigger] words[j]).value.entrypoint
}

/// The whole program, with the word of id `entry` called at the start.
pub open spec fn program_lines(ir_ctx: &IRContext, p: &IRProgram, entry: int) -> Seq<Line> {
    prelude_lines(entry) + words_lines(ir_ctx, p.words@, p.words@.len() as int) + trailer_lines(
        p.static_data@,
    )
}

/// `ld` with an operand that names a label of the program's end.
fn ld_runtime(
    e: &mut Emitter<Z80Assembly>,
    destination: Z80Operand,
    source: Z80Operand,
    Ghost(l): Ghost<Seq<char>>,
    Ghost(extra): Ghost<Set<Seq<char>>>,
)
    requires
        emitter_ok(*old(e), 0, 0, extra),
        runtime_label(l),
        operand_label(destination) == Some(l) || (operand_label(destination) is None && operand_label(
            source,
        ) == Some(l)),
    ensures
        emitter_ok(*final(e), 0, 0, extra),
        keeps(old(e).lines@, final(e).lines@),
        abstract_lines(final(e).lines@) == abstract_lines(old(e).lines@).push(
            i2("ld"@, op_of(destination), op_of(source)),
        ),
{
    let line = Z80::ld(destination, source);
    proof {
        reveal_strlit("ld");
        reveal_strlit("call");
        assert("ld"@.len() == 2);
        assert("call"@.len() == 4);
        assert("ld"@ != "call"@);
        assert(label_ref(line) == Some(l));
    }
    emit_ref(e, line, Ghost(0), Ghost(0), Ghost(extra));
}

/// The program's start: it sets up the heap and the data stack, calls the
/// entrypoint and returns to CP/M.
#[verifier::spinoff_prover]
fn emit_start(e: &mut Emitter<Z80Assembly>, entry: WordId, Ghost(extra): Ghost<Set<Seq<char>>>)
    requires
        emitter_ok(*old(e), 0, 0, extra),
    ensures
        emitter_ok(*final(e), 0, 0, extra),
        keeps(old(e).lines@, final(e).lines@),
        defines(final(e).lines@, "start"@),
        abstract_lines(final(e).lines@) == abstract_lines(old(e).lines@) + start_lines(entry.0 as int),
{
    let g0 = Ghost(0int);
    let ghost l0 = e.lines@;
    plain(e, Z80::org(0x100), g0, g0, Ghost(extra));
    emit_label(e, Z80Label::new("start"), g0, g0, Ghost(extra));
    let ghost after_start = e.lines@;
    ld_runtime(e, reg(Z80Register::HL), Z80Operand::Label(Z80Label::new("__heap")), Ghost("__heap"@), Ghost(extra));
    ld_runtime(
        e,
        Z80Operand::indirect_label(Z80Label::new("__heap_ptr")),
        reg(Z80Register::HL),
        Ghost("__heap_ptr"@),
        Ghost(extra),
    );
    ld_runtime(
        e,
        reg(Z80Register::IX),
        Z80Operand::Label(Z80Label::new("__data_stack_end")),
        Ghost("__data_stack_end"@),
        Ghost(extra),
    );
    plain(e, Z80::call(Z80Operand::Label(word_label(entry))), g0, g0, Ghost(extra));
    plain(e, Z80::ld(reg(Z80Register::C), imm(0)), g0, g0, Ghost(extra));
    plain(e, Z80::call(imm(5)), g0, g0, Ghost(extra));
    assert(abstract_lines(e.lines@) =~= abstract_lines(l0) + start_lines(entry.0 as int));
    assert(defines(after_start, "start"@));
}

/// The `bdos_call` routine.
#[verifier::spinoff_prover]
fn emit_bdos_call(e: &mut Emitter<Z80Assembly>, Ghost(extra): Ghost<Set<Seq<char>>>)
    requires
        emitter_ok(*old(e), 0, 0, extra),
    ensures
        emitter_ok(*final(e), 0, 0, extra),
        keeps(old(e).lines@, final(e).lines@),
        abstract_lines(final(e).lines@) == abstract_lines(old(e).lines@) + bdos_call_lines(),
{
    let g0 = Ghost(0int);
    let ghost l0 = e.lines@;
    emit_label(e, Z80Label::new("bdos_call"), g0, g0, Ghost(extra));
    plain(e, Z80::ld(reg(Z80Register::C), ix(0)), g0, g0, Ghost(extra));
    plain(e, Z80::ld(reg(Z80Register::E), ix(1)), g0, g0, Ghost(extra));
    plain(e, Z80::ld(reg(Z80Register::D), ix(2)), g0, g0, Ghost(extra));
    plain(e, Z80::push(Z80Register::IX), g0, g0, Ghost(extra));
    plain(e, Z80::call(imm(5)), g0, g0, Ghost(extra));
    plain(e, Z80::pop(Z80Register::IX), g0, g0, Ghost(extra));
    plain(e, Z80::ld(ix(1), reg(Z80Register::L)), g0, g0, Ghost(extra));
    plain(e, Z80::ld(ix(2), reg(Z80Register::H)), g0, g0, Ghost(extra));
    plain(e, Z80::inc(reg(Z80Register::IX)), g0, g0, Ghost(extra));
    plain(e, Z80::ret(), g0, g0, Ghost(extra));
    assert(abstract_lines(e.lines@) =~= abstract_lines(l0) + bdos_call_lines());
}

/// The `alloc` routine.
#[verifier::spinoff_prover]
fn emit_alloc(e: &mut Emitter<Z80Assembly>, Ghost(extra): Ghost<Set<Seq<char>>>)
    requires
        emitter_ok(*old(e), 0, 0, extra),
    ensures
        emitter_ok(*final(e), 0, 0, extra),
        keeps(old(e).lines@, final(e).lines@),
        abstract_lines(final(e).lines@) == abstract_lines(old(e).lines@) + alloc_lines(),
{
    let g0 = Ghost(0int);
    let ghost l0 = e.lines@;
    emit_label(e, Z80Label::new("alloc"), g0, g0, Ghost(extra));
    plain(e, Z80::ld(reg(Z80Register::E), ix(0)), g0, g0, Ghost(extra));
    plain(e, Z80::ld(reg(Z80Register::D), ix(1)), g0, g0, Ghost(extra));
    ld_runtime(
        e,
        reg(Z80Register::HL),
        Z80Operand::indirect_label(Z80Label::new("__heap_ptr")),
        Ghost("__heap_ptr"@),
        Ghost(extra),
    );
    plain(e, Z80::push(Z80Register::HL), g0, g0, Ghost(extra));
    plain(e, Z80::add(reg(Z80Register::HL), reg(Z80Register::DE)), g0, g0, Ghost(extra));
    ld_runtime(
        e,
        Z80Operand::indirect_label(Z80Label::new("__heap_ptr")),
        reg(Z80Register::HL),
        Ghost("__heap_ptr"@),
        Ghost(extra),
    );
    plain(e, Z80::pop(Z80Register::HL), g0, g0, Ghost(extra));
    plain(e, Z80::ld(ix(0), reg(Z80Register::L)), g0, g0, Ghost(extra));
    plain(e, Z80::ld(ix(1), reg(Z80Register::H)), g0, g0, Ghost(extra));
    plain(e, Z80::ret(), g0, g0, Ghost(extra));
    assert(abstract_lines(e.lines@) =~= abstract_lines(l0) + alloc_lines());
}

/// The program's start, then the `bdos_call` and `alloc` routines.
fn emit_prelude(e: &mut Emitter<Z80Assembly>, entry: WordId, Ghost(extra): Ghost<Set<Seq<char>>>)
    requires
        emitter_ok(*old(e), 0, 0, extra),
    ensures
        emitter_ok(*final(e), 0, 0, extra),
        keeps(old(e).lines@, final(e).lines@),
        defines(final(e).lines@, "start"@),
        abstract_lines(final(e).lines@) == abstract_lines(old(e).lines@) + prelude_lines(entry.0 as int),
{
    let ghost l0 = e.lines@;
    emit_start(e, entry, Ghost(extra));
    let ghost l1 = e.lines@;
    emit_bdos_call(e, Ghost(extra));
    emit_alloc(e, Ghost(extra));
    assert(defines(l1, "start"@));
    assert(abstract_lines(e.lines@) =~= abstract_lines(l0) + prelude_lines(entry.0 as int));
}

/// The program's end: the static data, the data stack, the heap pointer
/// and the heap. It defines every label of the program's end.
fn emit_trailer(e: &mut Emitter<Z80Assembly>, static_data: &Vec<u8>, Ghost(extra): Ghost<Set<Seq<char>>>)
    requires
        emitter_ok(*old(e), 0, 0, extra),
    ensures
        emitter_ok(*final(e), 0, 0, extra),
        keeps(old(e).lines@, final(e).lines@),
        forall|l: Seq<char>| runtime_label(l) ==> defines(final(e).lines@, l),
        abstract_lines(final(e).lines@) == abstract_lines(old(e).lines@) + trailer_lines(static_data@),
{
    let g0 = Ghost(0int);
    let ghost l0 = e.lines@;
    emit_label(e, Z80Label::new("__static_data"), g0, g0, Ghost(extra));
    let mut i: usize = 0;
    while i < static_data.len()
        invariant
            i <= static_data@.len(),
            emitter_ok(*e, 0, 0, extra),
            keeps(l0, e.lines@),
            defines(e.lines@, "__static_data"@),
            abstract_lines(e.lines@) == abstract_lines(l0) + seq![Line::Label("__static_data"@)] + db_lines(
                static_data@.take(i as int),
            ),
        decreases static_data@.len() - i,
    {
        plain(e, Z80::db(static_data[i]), Ghost(0int), Ghost(0int), Ghost(extra));
        assert(db_lines(static_data@.take(i + 1)) =~= db_lines(static_data@.take(i as int)).push(
            Line::Db(static_data@[i as int]),
        ));
        i += 1;
    }
    assert(static_data@.take(i as int) =~= static_data@);
    let ghost l1 = e.lines@;
    emit_label(e, Z80Label::new("__data_stack"), g0, g0, Ghost(extra));
    plain(e, Z80::defs(256), g0, g0, Ghost(extra));
    emit_label(e, Z80Label::new("__data_stack_end"), g0, g0, Ghost(extra));
    emit_label(e, Z80Label::new("__heap_ptr"), g0, g0, Ghost(extra));
    plain(e, Z80::defs(2), g0, g0, Ghost(extra));
    emit_label(e, Z80Label::new("__heap"), g0, g0, Ghost(extra));
    assert(abstract_lines(e.lines@) =~= abstract_lines(l0) + trailer_lines(static_data@));
}

/// Every label referred to is defined, but for branches past the last
/// block of a word.
pub proof fn lemma_refs_resolve(lines: Seq<Z80Assembly>, extra: Set<Seq<char>>)
    requires
        refs_ok(lines, 0, 0, extra),
        forall|l: Seq<char>| runtime_label(l) ==> defines(lines, l),
    ensures
        forall|k: int|
            0 <= k < lines.len() ==> (#[trigger] label_ref(lines[k]) matches Some(l) ==> defines(lines, l)
                || extra.contains(l)),
{
    assert forall|k: int| 0 <= k < lines.len() implies (#[trigger] label_ref(lines[k]) matches Some(l)
        ==> defines(lines, l) || extra.contains(l)) by {
        assert(ref_ok(lines, k, 0, 0, extra));
    }
}

/// Generates Z80 assembly for CP/M.
pub struct Z80CpmCodegenStage;

impl Stage<CompileContext> for Z80CpmCodegenStage {
    type Input = (IRContext, IRProgram);

    type Output = String;

    open spec fn runs(
        &self,
        input: Self::Input,
        context: CompileContext,
        after: Self,
        after_context: CompileContext,
        result: StageResult<Self::Output>,
    ) -> bool {
        &&& (after_context == context)
        &&& (errors_only(result.diagnostics))
        &&& (result.output is None <==> result.diagnostics.errors@.len() > 0)
        &&& (result.diagnostics.errors@.len() <= 1)
        &&& (result.output is None <==> (exists|k: int|
                0 <= k < input.1.words@.len() && (#[trigger] input.1.words@[k]).value.entrypoint)
                && !program_has_code(&input.0, &input.1))
        &&& ((forall|k: int| 0 <= k < input.1.words@.len() ==> !(#[trigger] input.1.words@[k]).value.entrypoint)
                ==> (result.output matches Some(s) && s@.len() == 0))
        &&& ((exists|k: int| 0 <= k < input.1.words@.len() && (#[trigger] input.1.words@[k]).value.entrypoint)
                ==> (result.output matches Some(s) ==> exists|lines: Seq<Z80Assembly>|
                #![trigger lines_text(lines)]
                {
                    &&& s@ == lines_text(lines)
                    &&& defines(lines, "start"@)
                    &&& forall|w: int|
                        0 <= w < input.1.words@.len() ==> defines(
                            lines,
                            word_label_text((#[trigger] input.1.words@[w]).value.word_id.0 as int),
                        )
                    &&& forall|k: int|
                        0 <= k < lines.len() ==> (#[trigger] label_ref(lines[k]) matches Some(l) ==> defines(
                            lines,
                            l,
                        ) || bad_labels(&input.1).contains(l))
                    &&& forall|k: int|
                        #[trigger] is_first_entry(input.1.words@, k) ==> abstract_lines(lines) == program_lines(
                            &input.0,
                            &input.1,
                            input.1.words@[k].value.word_id.0 as int,
                        )
                }))
    }

    /// A program without an entrypoint gives no source. Otherwise the source
    /// is the text of its lines, in which every label referred to is defined,
    /// but for branches past the last block of a word. An instruction this
    /// target has no code for is an error, and then there is no source.
    fn execute(&mut self, input: (IRContext, IRProgram), context: &mut CompileContext) -> (r: StageResult<
        String,
    >)
    {
        let (ir_ctx, program) = input;
        let mut diagnostics = Diagnostics::new();
        let mut entry: Option<WordId> = None;
        let mut k: usize = 0;
        while k < program.words.len()
            invariant_except_break
                entry is None,
            invariant
                k <= program.words@.len(),
                forall|j: int| 0 <= j < k ==> !(#[trigger] program.words@[j]).value.entrypoint,
            ensures
                entry is None ==> forall|j: int| 0 <= j < program.words@.len() ==> !(#[trigger] program.words@[j]).value.entrypoint,
                entry is Some ==> is_first_entry(program.words@, k as int) && entry == Some(
                    program.words@[k as int].value.word_id,
                ),
            decreases program.words@.len() - k,
        {
            if program.words[k].value.entrypoint {
                entry = Some(program.words[k].value.word_id);
                break;
            }
            k += 1;
        }
        let entry = match entry {
            Some(id) => id,
            None => {
                let empty = String::new();
                proof {
                    assert(empty@.len() == 0);
                    assert(lines_text(Seq::<Z80Assembly>::empty()) =~= empty@);
                }
                return StageResult::success(empty);
            },
        };
        let ghost extra = bad_labels(&program);
        assert(program.words@[k as int].value.entrypoint);
        let ghost first = k as int;
        let mut e: Emitter<Z80Assembly> = Emitter::new();
        assert(abstract_lines(e.lines@) =~= Seq::<Line>::empty());
        emit_prelude(&mut e, entry, Ghost(extra));
        assert(abstract_lines(e.lines@) =~= prelude_lines(entry.0 as int) + words_lines(&ir_ctx, program.words@, 0));
        let mut w: usize = 0;
        while w < program.words.len()
            invariant
                w <= program.words@.len(),
                extra == bad_labels(&program),
                program == input.1,
                ir_ctx == input.0,
                exists|j: int| 0 <= j < program.words@.len() && (#[trigger] program.words@[j]).value.entrypoint,
                emitter_ok(e, 0, 0, extra),
                errors_only(diagnostics),
                diagnostics.errors@.len() == 0,
                defines(e.lines@, "start"@),
                forall|j: int| 0 <= j < w ==> defines(e.lines@, word_label_text((#[trigger] program.words@[j]).value.word_id.0 as int)),
                forall|j: int| 0 <= j < w ==> word_has_code(&ir_ctx, (#[trigger] program.words@[j]).value),
                abstract_lines(e.lines@) == prelude_lines(entry.0 as int) + words_lines(&ir_ctx, program.words@, w as int),
                is_first_entry(program.words@, first),
                entry == program.words@[first].value.word_id,
            decreases program.words@.len() - w,
        {
            proof {
                assert forall|l: Seq<char>| bad_target(program.words@[w as int].value, l) implies extra.contains(l) by {
                    assert(bad_target(program.words@[w as int].value, l));
                }
            }
            let ghost before = e.lines@;
            match emit_word(&mut e, &ir_ctx, &program.words[w].value, Ghost(extra)) {
                Ok(()) => {
                    proof {
                        assert(abstract_lines(e.lines@) =~= prelude_lines(entry.0 as int) + words_lines(&ir_ctx, program.words@, w + 1));
                        assert(defines(before, "start"@));
                        assert forall|j: int| 0 <= j < w + 1 implies defines(e.lines@, word_label_text((#[trigger] program.words@[j]).value.word_id.0 as int)) by {
                            if j < w {
                                assert(defines(before, word_label_text(program.words@[j].value.word_id.0 as int)));
                            }
                        }
                    }
                },
                Err(error) => {
                    assert(!program_has_code(&ir_ctx, &program)) by {
                        assert(!word_has_code(&ir_ctx, program.words@[w as int].value));
                    }
                    let ghost before = diagnostics;
                    diagnostics.emit_fatal(error);
                    proof {
                        lemma_emit_keeps_errors_only(before, diagnostics, error);
                    }
                    return StageResult::new(None, diagnostics);
                },
            }
            w += 1;
        }
        let ghost before_trailer = e.lines@;
        emit_trailer(&mut e, &program.static_data, Ghost(extra));
        proof {
            assert(defines(before_trailer, "start"@));
            assert forall|j: int| 0 <= j < program.words@.len() implies defines(e.lines@, word_label_text((#[trigger] program.words@[j]).value.word_id.0 as int)) by {
                assert(defines(before_trailer, word_label_text(program.words@[j].value.word_id.0 as int)));
            }
            lemma_refs_resolve(e.lines@, extra);
            assert(program_has_code(&ir_ctx, &program));
            assert(abstract_lines(e.lines@) =~= program_lines(&ir_ctx, &program, entry.0 as int));
            assert forall|k: int| #[trigger] is_first_entry(program.words@, k) implies k == first by {
                if k < first {
                    assert(!program.words@[k].value.entrypoint);
                } else if k > first {
                    assert(!program.words@[first].value.entrypoint);
                }
            }
        }
        let ghost lines = e.lines@;
        let text = e.finish();
        assert(text@ == lines_text(lines));
        StageResult::new(Some(text), diagnostics)
    }
}

/// Well-formed words (as lowering makes them, where it reports nothing)
/// branch to no block they lack, so their generated code refers only to
/// labels it defines.
pub proof fn lemma_well_formed_words_have_no_bad_labels(p: &IRProgram, n: int)
    requires
        words_ok(p.words@, n),
    ensures
        bad_labels(p) == Set::<Seq<char>>::empty(),
{
    assert forall|l: Seq<char>| !bad_labels(p).contains(l) by {
        if bad_labels(p).contains(l) {
            let k = choose|k: int| 0 <= k < p.words@.len() && #[trigger] bad_target(p.words@[k].value, l);
            let w = p.words@[k].value;
            assert(word_ok(w, n));
            let (i, t) = choose|i: int, t: int|
                0 <= i < w.blocks@.len() && #[trigger] branches_to(w.blocks@[i].terminator.value, t) && t
                    >= w.blocks@.len() && l == block_label_text(w.word_id.0 as int, t);
            assert(block_ok(w.blocks@[i], w.blocks@.len() as int, n));
        }
    }
    assert(bad_labels(p) =~= Set::<Seq<char>>::empty());
}

} // verus!
