//! The intermediate representation: words as basic blocks of stack machine
//! instructions.
use vstd::prelude::*;

use crate::common::Spanned;
use crate::stages::lower::context::{TypeId, WordId};

verus! {

#[derive(Debug, Clone, Copy, PartialEq, Eq, Structural)]
pub struct BasicBlockId(pub usize);

#[derive(Debug)]
pub struct IRProgram {
    pub words: Vec<Spanned<IRWord>>,
    pub types: Vec<IRType>,
    /// Bytes placed at the start of memory before the program runs.
    pub static_data: Vec<u8>,
}

#[derive(Debug)]
pub struct IRWord {
    pub word_id: WordId,
    pub name: String,
    pub entrypoint: bool,
    pub blocks: Vec<IRBasicBlock>,
}

#[derive(Debug)]
pub struct IRBasicBlock {
    pub instructions: Vec<Spanned<IRInstruction>>,
    pub terminator: Spanned<IRTerminator>,
}

#[derive(Debug, Clone, Copy)]
pub enum IRTerminator {
    Branch { branch: BasicBlockId },
    /// Pops a bool: `then_branch` where it is true, `else_branch` where not.
    BranchIfZero { then_branch: BasicBlockId, else_branch: BasicBlockId },
    End,
}

#[derive(Debug, Clone, Copy, PartialEq, Eq, Structural)]
pub enum IRConstant {
    Bool(bool),
    U8(u8),
    U16(u16),
    /// The address of static data.
    StaticPtr(u16),
}

#[derive(Debug)]
pub enum IRType {
    Bool,
    U8,
    U16,
    Struct { fields: Vec<IRType> },
    Lambda,
}

/// The blocks a terminator branches to are below `n`.
pub open spec fn targets_below(t: IRTerminator, n: int) -> bool {
    match t {
        IRTerminator::Branch { branch } => branch.0 < n,
        IRTerminator::BranchIfZero { then_branch, else_branch } => then_branch.0 < n
            && else_branch.0 < n,
        IRTerminator::End => true,
    }
}

/// The word an instruction calls or pushes, if any, is below `n`.
pub open spec fn refs_below(i: IRInstruction, n: int) -> bool {
    match i {
        IRInstruction::PushLambda { word_id } => word_id.0 < n,
        IRInstruction::CallDirect { word_id } => word_id.0 < n,
        _ => true,
    }
}

/// Every instruction refers to words below `n`.
pub open spec fn instrs_below(s: Seq<Spanned<IRInstruction>>, n: int) -> bool {
    forall|k: int| 0 <= k < s.len() ==> refs_below(#[trigger] s[k].value, n)
}

/// A block of a word with `nblocks` blocks, in a program with `nwords`
/// words: its branches land in the word, its calls on words of the program.
pub open spec fn block_ok(b: IRBasicBlock, nblocks: int, nwords: int) -> bool {
    targets_below(b.terminator.value, nblocks) && instrs_below(b.instructions@, nwords)
}

/// Every block of a word is well formed in a program with `nwords` words.
pub open spec fn word_ok(w: IRWord, nwords: int) -> bool {
    forall|i: int| 0 <= i < w.blocks@.len() ==> block_ok(#[trigger] w.blocks@[i], w.blocks@.len() as int, nwords)
}

/// Every word of a list is well formed in a program with `nwords` words.
pub open spec fn words_ok(ws: Seq<Spanned<IRWord>>, nwords: int) -> bool {
    forall|i: int| 0 <= i < ws.len() ==> word_ok(#[trigger] ws[i].value, nwords)
}

/// A well-formed word stays so in a program with more words.
pub proof fn lemma_word_ok_grow(w: IRWord, n: int, m: int)
    requires
        word_ok(w, n),
        n <= m,
    ensures
        word_ok(w, m),
{
    assert forall|i: int| 0 <= i < w.blocks@.len() implies block_ok(#[trigger] w.blocks@[i], w.blocks@.len() as int, m) by {
        let b = w.blocks@[i];
        assert(block_ok(b, w.blocks@.len() as int, n));
        assert forall|k: int| 0 <= k < b.instructions@.len() implies refs_below(#[trigger] b.instructions@[k].value, m) by {
            assert(refs_below(b.instructions@[k].value, n));
        }
    }
}

/// A type as a mathematical value: a struct's fields are a sequence.
pub enum IRTypeView {
    Bool,
    U8,
    U16,
    Struct { fields: Seq<IRTypeView> },
    Lambda,
}

pub open spec fn ir_type_view(t: IRType) -> IRTypeView
    decreases t,
{
    match t {
        IRType::Bool => IRTypeView::Bool,
        IRType::U8 => IRTypeView::U8,
        IRType::U16 => IRTypeView::U16,
        IRType::Struct { fields } => IRTypeView::Struct { fields: ir_types_view(fields@) },
        IRType::Lambda => IRTypeView::Lambda,
    }
}

pub open spec fn ir_types_view(ts: Seq<IRType>) -> Seq<IRTypeView>
    decreases ts,
{
    if ts.len() == 0 {
        Seq::empty()
    } else {
        ir_types_view(ts.drop_last()).push(ir_type_view(ts.last()))
    }
}

pub proof fn lemma_ir_types_view(ts: Seq<IRType>)
    ensures
        ir_types_view(ts).len() == ts.len(),
        forall|i: int| 0 <= i < ts.len() ==> #[trigger] ir_types_view(ts)[i] == ir_type_view(ts[i]),
    decreases ts.len(),
{
    if ts.len() > 0 {
        lemma_ir_types_view(ts.drop_last());
        assert forall|i: int| 0 <= i < ts.len() implies #[trigger] ir_types_view(ts)[i]
            == ir_type_view(ts[i]) by {
            if i < ts.len() - 1 {
                assert(ts.drop_last()[i] == ts[i]);
            }
        }
    }
}

/// The view of a list of IR types is taken element by element.
pub proof fn lemma_ir_types_view_ext(ts: Seq<IRType>, vs: Seq<IRTypeView>)
    requires
        vs.len() == ts.len(),
        forall|i: int| 0 <= i < ts.len() ==> vs[i] == ir_type_view(#[trigger] ts[i]),
    ensures
        ir_types_view(ts) == vs,
{
    lemma_ir_types_view(ts);
    assert(ir_types_view(ts) =~= vs);
}

/// A copy of an IR type.
pub fn copy_ir_type(t: &IRType) -> (r: IRType)
    ensures
        ir_type_view(r) == ir_type_view(*t),
    decreases t,
{
    match t {
        IRType::Bool => IRType::Bool,
        IRType::U8 => IRType::U8,
        IRType::U16 => IRType::U16,
        IRType::Struct { fields } => IRType::Struct { fields: copy_ir_types(fields) },
        IRType::Lambda => IRType::Lambda,
    }
}

/// A copy of a list of IR types.
pub fn copy_ir_types(ts: &Vec<IRType>) -> (r: Vec<IRType>)
    ensures
        ir_types_view(r@) == ir_types_view(ts@),
    decreases ts@,
{
    let mut out: Vec<IRType> = Vec::new();
    let mut i: usize = 0;
    while i < ts.len()
        invariant
            i <= ts@.len(),
            out@.len() == i,
            forall|j: int| 0 <= j < i ==> ir_type_view(#[trigger] out@[j]) == ir_type_view(ts@[j]),
        decreases ts@.len() - i,
    {
        out.push(copy_ir_type(&ts[i]));
        i += 1;
    }
    proof {
        lemma_ir_types_view(ts@);
        lemma_ir_types_view_ext(out@, ir_types_view(ts@));
    }
    out
}

#[derive(Debug)]
pub enum IRInstruction {
    PushConstant { value: IRConstant },
    PushLambda { word_id: WordId },
    CallDirect { word_id: WordId },
    /// Calls a word provided by the machine, by name.
    CallExtern { symbol: String },
    CallIndirect,
    Pack { type_id: TypeId },
    Unpack { type_id: TypeId },
    GetField { type_id: TypeId, field_index: usize },
    Load,
    Store,
    Cast { from: IRType, to: IRType },
    Drop { ty: IRType },
    Dup { ty: IRType },
    Swap { lower: IRType, upper: IRType },
    Over { lower: IRType, upper: IRType },
    /// Moves the third value from the top to the top.
    RotateLeft { lower: IRType, middle: IRType, upper: IRType },
    /// Moves the top value under the next two.
    RotateRight { lower: IRType, middle: IRType, upper: IRType },
    Add { ty: IRType },
    Sub { ty: IRType },
    Mul { ty: IRType },
    Div { ty: IRType },
    Eq { ty: IRType },
    Gt { ty: IRType },
    Lt { ty: IRType },
    Print,
}

} // verus!
