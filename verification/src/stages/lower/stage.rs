//! Lowering of each word instance to basic blocks of IR instructions.
use vstd::prelude::*;
use vstd::utf8::encode_utf8;

use crate::common::{CompileContext, Span, Spanned};
use crate::error::{CompileError, Diagnostics, errors_only, lemma_emit_keeps_errors_only};
use crate::pipeline::{Stage, StageResult};
use crate::stages::lower::context::{IRContext, TypeId, WordId, type_of_symbol, word_position};
use crate::stages::lower::ir::{
    BasicBlockId, IRBasicBlock, IRConstant, IRInstruction, IRProgram, IRTerminator, IRType,
    IRTypeView, IRWord, block_ok, copy_ir_type, copy_ir_types, instrs_below, ir_type_view,
    ir_types_view, lemma_ir_types_view, lemma_word_ok_grow, refs_below, targets_below, word_ok,
    words_ok,
};
use crate::stages::lower::monomorphize::{extends, find_word, substitute_types, substituted_all};
use crate::stages::semantic::context::SymbolId;
use crate::stages::semantic::hir::{
    HIRInstruction, HIRLiteral, HIRProgram, HIRType, TypeView, copy_type, lemma_types_view, type_view,
    types_view,
};
use crate::stages::semantic::type_check::{hir_body_size, lemma_hir_body_size_prefix};
use crate::stages::interpreter::executor::{
    Effect, ValueView, effect, goes_on, law_arith_bytes, law_arith_words, law_compare_booleans, law_compare_bytes,
    law_compare_words, law_load_reads_what_store_wrote, leaves,
};
use crate::text::{copy_string, decimal_chars, same_text, string_extend, usize_to_string};

verus! {

/// The instructions of a block being built.
pub struct BasicBlockBuilder {
    pub instructions: Vec<Spanned<IRInstruction>>,
}

impl BasicBlockBuilder {
    /// A builder without instructions.
    pub fn new() -> (r: Self)
        ensures
            r.instructions@.len() == 0,
    {
        BasicBlockBuilder { instructions: Vec::new() }
    }

    /// Adds an instruction at the end.
    pub fn push(&mut self, instruction: Spanned<IRInstruction>)
        ensures
            final(self).instructions@ == old(self).instructions@.push(instruction),
    {
        self.instructions.push(instruction);
    }

    /// The block of the instructions, ended by `terminator`.
    pub fn build(self, terminator: Spanned<IRTerminator>) -> (r: IRBasicBlock)
        ensures
            r.instructions == self.instructions,
            r.terminator == terminator,
    {
        IRBasicBlock { instructions: self.instructions, terminator }
    }
}

/// How a type is lowered: a built-in type or a struct to the type laid out
/// for its symbol last, a lambda to a code address, an array (a string) to
/// the 16-bit address of its data; variables are not lowered.
pub open spec fn lowered(ir_ctx: &IRContext, ty: TypeView) -> Option<IRTypeView> {
    match ty {
        TypeView::BuiltIn(id) => laid_out(ir_ctx, id),
        TypeView::Struct(id) => laid_out(ir_ctx, id),
        TypeView::Lambda { .. } => Some(IRTypeView::Lambda),
        TypeView::Array { .. } => Some(IRTypeView::U16),
        _ => None,
    }
}

/// The type laid out for a symbol, if any.
pub open spec fn laid_out(ir_ctx: &IRContext, id: SymbolId) -> Option<IRTypeView> {
    match type_of_symbol(ir_ctx.symbol_id_to_type_id@, id) {
        Some(t) => if t.0 < ir_ctx.types@.len() {
            Some(ir_type_view(ir_ctx.types@[t.0 as int]))
        } else {
            None
        },
        None => None,
    }
}

/// Each type of a list lowered, if each can be.
pub open spec fn lowered_all(ir_ctx: &IRContext, ts: Seq<TypeView>) -> Option<Seq<IRTypeView>>
    decreases ts.len(),
{
    if ts.len() == 0 {
        Some(Seq::empty())
    } else {
        match (lowered_all(ir_ctx, ts.drop_last()), lowered(ir_ctx, ts.last())) {
            (Some(a), Some(b)) => Some(a.push(b)),
            _ => None,
        }
    }
}

proof fn lemma_lowered_all_prefix_none(ir_ctx: &IRContext, ts: Seq<TypeView>, k: int)
    requires
        0 <= k <= ts.len(),
        lowered_all(ir_ctx, ts.subrange(0, k)) is None,
    ensures
        lowered_all(ir_ctx, ts) is None,
    decreases ts.len() - k,
{
    if k == ts.len() {
        assert(ts.subrange(0, k) =~= ts);
    } else {
        assert(ts.drop_last().subrange(0, k) =~= ts.subrange(0, k));
        lemma_lowered_all_prefix_none(ir_ctx, ts.drop_last(), k);
    }
}

/// The type id last laid out for a symbol.
pub fn find_type_id(ir_ctx: &IRContext, id: SymbolId) -> (r: Option<TypeId>)
    ensures
        r == type_of_symbol(ir_ctx.symbol_id_to_type_id@, id),
{
    let mut i: usize = ir_ctx.symbol_id_to_type_id.len();
    assert(ir_ctx.symbol_id_to_type_id@.subrange(0, i as int) =~= ir_ctx.symbol_id_to_type_id@);
    while i > 0
        invariant
            i <= ir_ctx.symbol_id_to_type_id@.len(),
            type_of_symbol(ir_ctx.symbol_id_to_type_id@.subrange(0, i as int), id) == type_of_symbol(
                ir_ctx.symbol_id_to_type_id@,
                id,
            ),
        decreases i,
    {
        let ghost pre = ir_ctx.symbol_id_to_type_id@.subrange(0, i as int);
        assert(pre.drop_last() =~= ir_ctx.symbol_id_to_type_id@.subrange(0, i - 1));
        assert(pre.last() == ir_ctx.symbol_id_to_type_id@[i - 1]);
        if ir_ctx.symbol_id_to_type_id[i - 1].0.0 == id.0 {
            assert(ir_ctx.symbol_id_to_type_id@[i - 1].0 == id);
            return Some(ir_ctx.symbol_id_to_type_id[i - 1].1);
        }
        i -= 1;
    }
    proof {
        assert(ir_ctx.symbol_id_to_type_id@.subrange(0, 0) =~= Seq::<(SymbolId, TypeId)>::empty());
    }
    None
}

/// The lowered form of a type.
fn lower_type(ir_ctx: &IRContext, ty: &HIRType) -> (r: Option<IRType>)
    ensures
        r matches Some(t) ==> lowered(ir_ctx, type_view(*ty)) == Some(ir_type_view(t)),
        r is None ==> lowered(ir_ctx, type_view(*ty)) is None,
{
    match ty {
        HIRType::BuiltIn(id) | HIRType::Struct(id) => match find_type_id(ir_ctx, *id) {
            Some(t) => match ir_ctx.get_type(t) {
                Some(laid) => Some(copy_ir_type(laid)),
                None => None,
            },
            None => None,
        },
        HIRType::Lambda { .. } => Some(IRType::Lambda),
        HIRType::Array { .. } => Some(IRType::U16),
        _ => None,
    }
}

/// Each type of a list lowered, if each can be.
fn lower_types(ir_ctx: &IRContext, ts: &Vec<HIRType>) -> (r: Option<Vec<IRType>>)
    ensures
        r matches Some(out) ==> lowered_all(ir_ctx, types_view(ts@)) == Some(ir_types_view(out@)),
        r is None ==> lowered_all(ir_ctx, types_view(ts@)) is None,
{
    let ghost views = types_view(ts@);
    proof {
        lemma_types_view(ts@);
    }
    let mut out: Vec<IRType> = Vec::new();
    let mut i: usize = 0;
    while i < ts.len()
        invariant
            i <= ts@.len(),
            views == types_view(ts@),
            views.len() == ts@.len(),
            forall|j: int| 0 <= j < ts@.len() ==> #[trigger] views[j] == type_view(ts@[j]),
            lowered_all(ir_ctx, views.subrange(0, i as int)) == Some(ir_types_view(out@)),
        decreases ts@.len() - i,
    {
        let ghost pre = views.subrange(0, i as int);
        let ghost next = views.subrange(0, i + 1);
        assert(next.drop_last() =~= pre);
        assert(next.last() == views[i as int]);
        match lower_type(ir_ctx, &ts[i]) {
            Some(t) => {
                let ghost before = out@;
                out.push(t);
                assert(out@.drop_last() =~= before);
            },
            None => {
                proof {
                    lemma_lowered_all_prefix_none(ir_ctx, views, i + 1);
                }
                return None;
            },
        }
        i += 1;
    }
    assert(views.subrange(0, ts@.len() as int) =~= views);
    Some(out)
}

/// Every block has its branches below `nblocks` and its calls below
/// `nwords`.
pub open spec fn blocks_ok(blocks: Seq<IRBasicBlock>, nblocks: int, nwords: int) -> bool {
    forall|i: int| 0 <= i < blocks.len() ==> block_ok(#[trigger] blocks[i], nblocks, nwords)
}

proof fn lemma_blocks_ok_grow(blocks: Seq<IRBasicBlock>, nb: int, nb2: int, n: int, n2: int)
    requires
        blocks_ok(blocks, nb, n),
        nb <= nb2,
        n <= n2,
    ensures
        blocks_ok(blocks, nb2, n2),
{
    assert forall|i: int| 0 <= i < blocks.len() implies block_ok(#[trigger] blocks[i], nb2, n2) by {
        let b = blocks[i];
        assert(block_ok(b, nb, n));
        assert forall|k: int| 0 <= k < b.instructions@.len() implies refs_below(#[trigger] b.instructions@[k].value, n2) by {
            assert(refs_below(b.instructions@[k].value, n));
        }
    }
}

proof fn lemma_instrs_below_grow(s: Seq<Spanned<IRInstruction>>, n: int, n2: int)
    requires
        instrs_below(s, n),
        n <= n2,
    ensures
        instrs_below(s, n2),
{
    assert forall|k: int| 0 <= k < s.len() implies refs_below(#[trigger] s[k].value, n2) by {
        assert(refs_below(s[k].value, n));
    }
}

proof fn lemma_words_ok_grow(ws: Seq<Spanned<IRWord>>, n: int, n2: int)
    requires
        words_ok(ws, n),
        n <= n2,
    ensures
        words_ok(ws, n2),
{
    assert forall|i: int| 0 <= i < ws.len() implies word_ok(#[trigger] ws[i].value, n2) by {
        lemma_word_ok_grow(ws[i].value, n, n2);
    }
}

/// The error of a control-flow word without its lambdas.
fn stack_error(label: &str, span: Span) -> (r: CompileError)
    ensures
        r matches CompileError::InvalidStack { label: l, span: s, .. } && l@ == label@ && s == span,
{
    CompileError::InvalidStack {
        label: String::from_str(label),
        span,
        additional_spans: Vec::new(),
        expected_stack: Vec::new(),
        actual_stack: Vec::new(),
    }
}

/// Takes the last instruction of the block being built; the word it pushes,
/// if it pushes a lambda.
fn take_lambda(current: &mut BasicBlockBuilder) -> (r: Option<WordId>)
    ensures
        old(current).instructions@.len() > 0 ==> final(current).instructions@ == old(
            current,
        ).instructions@.drop_last(),
        old(current).instructions@.len() == 0 ==> final(current).instructions@ == old(
            current,
        ).instructions@,
        r matches Some(id) ==> old(current).instructions@.len() > 0 && old(
            current,
        ).instructions@.last().value == (IRInstruction::PushLambda { word_id: id }),
{
    match current.instructions.pop() {
        Some(instruction) => match instruction.value {
            IRInstruction::PushLambda { word_id } => Some(word_id),
            _ => None,
        },
        None => None,
    }
}

/// The instruction of a built-in word that takes no type argument.
pub open spec fn fixed_builtin_spec(name: Seq<char>) -> Option<IRInstruction> {
    if name == "std.io.print"@ {
        Some(IRInstruction::Print)
    } else if name == "std.stack.call"@ {
        Some(IRInstruction::CallIndirect)
    } else if name == "std.u8.add"@ {
        Some(IRInstruction::Add { ty: IRType::U8 })
    } else if name == "std.u8.sub"@ {
        Some(IRInstruction::Sub { ty: IRType::U8 })
    } else if name == "std.u8.mul"@ {
        Some(IRInstruction::Mul { ty: IRType::U8 })
    } else if name == "std.u8.div"@ {
        Some(IRInstruction::Div { ty: IRType::U8 })
    } else if name == "std.u8.eq"@ {
        Some(IRInstruction::Eq { ty: IRType::U8 })
    } else if name == "std.u8.gt"@ {
        Some(IRInstruction::Gt { ty: IRType::U8 })
    } else if name == "std.u8.lt"@ {
        Some(IRInstruction::Lt { ty: IRType::U8 })
    } else if name == "std.u16.add"@ {
        Some(IRInstruction::Add { ty: IRType::U16 })
    } else if name == "std.u16.sub"@ {
        Some(IRInstruction::Sub { ty: IRType::U16 })
    } else if name == "std.u16.mul"@ {
        Some(IRInstruction::Mul { ty: IRType::U16 })
    } else if name == "std.u16.div"@ {
        Some(IRInstruction::Div { ty: IRType::U16 })
    } else if name == "std.u16.eq"@ {
        Some(IRInstruction::Eq { ty: IRType::U16 })
    } else if name == "std.u16.gt"@ {
        Some(IRInstruction::Gt { ty: IRType::U16 })
    } else if name == "std.u16.lt"@ {
        Some(IRInstruction::Lt { ty: IRType::U16 })
    } else if name == "std.bool.eq"@ {
        Some(IRInstruction::Eq { ty: IRType::Bool })
    } else if name == "std.ptr.offset"@ {
        Some(IRInstruction::Add { ty: IRType::U16 })
    } else if name == "std.unsafe.mem.load"@ {
        Some(IRInstruction::Load)
    } else if name == "std.unsafe.mem.store"@ {
        Some(IRInstruction::Store)
    } else {
        None
    }
}

/// The instruction a generic arithmetic or comparison word becomes for a
/// type: `std.math.*`, and `std.intrinsics.*` for the arithmetic.
pub open spec fn generic_builtin_spec(name: Seq<char>, ty: IRTypeView, i: IRInstruction) -> bool {
    if name == "std.math.add"@ || name == "std.intrinsics.add"@ {
        i matches IRInstruction::Add { ty: t } && ir_type_view(t) == ty
    } else if name == "std.math.sub"@ || name == "std.intrinsics.sub"@ {
        i matches IRInstruction::Sub { ty: t } && ir_type_view(t) == ty
    } else if name == "std.math.mul"@ || name == "std.intrinsics.mul"@ {
        i matches IRInstruction::Mul { ty: t } && ir_type_view(t) == ty
    } else if name == "std.math.div"@ || name == "std.intrinsics.div"@ {
        i matches IRInstruction::Div { ty: t } && ir_type_view(t) == ty
    } else if name == "std.math.eq"@ {
        i matches IRInstruction::Eq { ty: t } && ir_type_view(t) == ty
    } else if name == "std.math.gt"@ {
        i matches IRInstruction::Gt { ty: t } && ir_type_view(t) == ty
    } else if name == "std.math.lt"@ {
        i matches IRInstruction::Lt { ty: t } && ir_type_view(t) == ty
    } else {
        false
    }
}

/// Whether a name is one of the generic arithmetic or comparison words.
pub open spec fn is_generic_builtin(name: Seq<char>) -> bool {
    ||| name == "std.math.add"@
    ||| name == "std.intrinsics.add"@
    ||| name == "std.math.sub"@
    ||| name == "std.intrinsics.sub"@
    ||| name == "std.math.mul"@
    ||| name == "std.intrinsics.mul"@
    ||| name == "std.math.div"@
    ||| name == "std.intrinsics.div"@
    ||| name == "std.math.eq"@
    ||| name == "std.math.gt"@
    ||| name == "std.math.lt"@
}

/// The instruction a call becomes, for its name, its lowered type arguments
/// and the instance of the word it calls, if there is one: the stack words
/// take their types from the arguments, the fixed built-in words are their
/// instruction, the generic ones take the first argument's type, and any
/// other word is a direct call of its instance.
pub open spec fn lowers_call_to(name: Seq<char>, args: Seq<IRTypeView>, instance: Option<int>, i: IRInstruction) -> bool {
    if name == "std.stack.drop"@ {
        args.len() >= 1 && (i matches IRInstruction::Drop { ty } && ir_type_view(ty) == args[0])
    } else if name == "std.stack.dup"@ {
        args.len() >= 1 && (i matches IRInstruction::Dup { ty } && ir_type_view(ty) == args[0])
    } else if name == "std.stack.swap"@ {
        args.len() >= 2 && (i matches IRInstruction::Swap { lower, upper } && ir_type_view(lower)
            == args[0] && ir_type_view(upper) == args[1])
    } else if name == "std.stack.over"@ {
        args.len() >= 2 && (i matches IRInstruction::Over { lower, upper } && ir_type_view(lower)
            == args[0] && ir_type_view(upper) == args[1])
    } else if name == "std.stack.rotate_left"@ {
        args.len() >= 3 && (i matches IRInstruction::RotateLeft { lower, middle, upper } && ir_type_view(
            lower,
        ) == args[0] && ir_type_view(middle) == args[1] && ir_type_view(upper) == args[2])
    } else if name == "std.stack.rotate_right"@ {
        args.len() >= 3 && (i matches IRInstruction::RotateRight { lower, middle, upper } && ir_type_view(
            lower,
        ) == args[0] && ir_type_view(middle) == args[1] && ir_type_view(upper) == args[2])
    } else if fixed_builtin_spec(name) is Some {
        i == fixed_builtin_spec(name)->0
    } else if is_generic_builtin(name) && args.len() >= 1 {
        generic_builtin_spec(name, args[0], i)
    } else {
        (instance matches Some(w) && i == (IRInstruction::CallDirect { word_id: WordId(w as usize) }))
    }
}

/// The instruction of a built-in word that takes no type argument.
fn fixed_builtin(name: &str) -> (r: Option<IRInstruction>)
    ensures
        r matches Some(i) ==> refs_below(i, 0),
        r == fixed_builtin_spec(name@),
{
    if same_text(name, "std.io.print") {
        Some(IRInstruction::Print)
    } else if same_text(name, "std.stack.call") {
        Some(IRInstruction::CallIndirect)
    } else if same_text(name, "std.u8.add") {
        Some(IRInstruction::Add { ty: IRType::U8 })
    } else if same_text(name, "std.u8.sub") {
        Some(IRInstruction::Sub { ty: IRType::U8 })
    } else if same_text(name, "std.u8.mul") {
        Some(IRInstruction::Mul { ty: IRType::U8 })
    } else if same_text(name, "std.u8.div") {
        Some(IRInstruction::Div { ty: IRType::U8 })
    } else if same_text(name, "std.u8.eq") {
        Some(IRInstruction::Eq { ty: IRType::U8 })
    } else if same_text(name, "std.u8.gt") {
        Some(IRInstruction::Gt { ty: IRType::U8 })
    } else if same_text(name, "std.u8.lt") {
        Some(IRInstruction::Lt { ty: IRType::U8 })
    } else if same_text(name, "std.u16.add") {
        Some(IRInstruction::Add { ty: IRType::U16 })
    } else if same_text(name, "std.u16.sub") {
        Some(IRInstruction::Sub { ty: IRType::U16 })
    } else if same_text(name, "std.u16.mul") {
        Some(IRInstruction::Mul { ty: IRType::U16 })
    } else if same_text(name, "std.u16.div") {
        Some(IRInstruction::Div { ty: IRType::U16 })
    } else if same_text(name, "std.u16.eq") {
        Some(IRInstruction::Eq { ty: IRType::U16 })
    } else if same_text(name, "std.u16.gt") {
        Some(IRInstruction::Gt { ty: IRType::U16 })
    } else if same_text(name, "std.u16.lt") {
        Some(IRInstruction::Lt { ty: IRType::U16 })
    } else if same_text(name, "std.bool.eq") {
        Some(IRInstruction::Eq { ty: IRType::Bool })
    } else if same_text(name, "std.ptr.offset") {
        Some(IRInstruction::Add { ty: IRType::U16 })
    } else if same_text(name, "std.unsafe.mem.load") {
        Some(IRInstruction::Load)
    } else if same_text(name, "std.unsafe.mem.store") {
        Some(IRInstruction::Store)
    } else {
        None
    }
}

/// The arithmetic or comparison of a generic built-in word, by its last
/// segment, on a type.
fn generic_builtin(name: &str, ty: IRType) -> (r: Option<IRInstruction>)
    ensures
        r matches Some(i) ==> refs_below(i, 0) && generic_builtin_spec(name@, ir_type_view(ty), i),
        r is None <==> !is_generic_builtin(name@),
{
    if same_text(name, "std.math.add") || same_text(name, "std.intrinsics.add") {
        Some(IRInstruction::Add { ty })
    } else if same_text(name, "std.math.sub") || same_text(name, "std.intrinsics.sub") {
        Some(IRInstruction::Sub { ty })
    } else if same_text(name, "std.math.mul") || same_text(name, "std.intrinsics.mul") {
        Some(IRInstruction::Mul { ty })
    } else if same_text(name, "std.math.div") || same_text(name, "std.intrinsics.div") {
        Some(IRInstruction::Div { ty })
    } else if same_text(name, "std.math.eq") {
        Some(IRInstruction::Eq { ty })
    } else if same_text(name, "std.math.gt") {
        Some(IRInstruction::Gt { ty })
    } else if same_text(name, "std.math.lt") {
        Some(IRInstruction::Lt { ty })
    } else {
        None
    }
}

/// An error naming the call it is about: `prefix`, the name, a quote.
fn call_error(prefix: &str, name: &String, span: Span) -> (r: CompileError)
    ensures
        r matches CompileError::CannotInferType { span: s, .. } && s == span,
{
    let mut label = String::from_str(prefix);
    string_extend(&mut label, name.as_str());
    string_extend(&mut label, "'");
    CompileError::CannotInferType { label, span }
}

/// The block holds these instructions and ends with this terminator.
pub open spec fn block_is(b: IRBasicBlock, instrs: Seq<Spanned<IRInstruction>>, t: IRTerminator, span: Span) -> bool {
    b.instructions@ == instrs && b.terminator == (Spanned { value: t, span })
}

/// The word the instruction pushes, where it pushes a lambda.
pub open spec fn pushed_lambda(i: Spanned<IRInstruction>) -> WordId {
    match i.value {
        IRInstruction::PushLambda { word_id } => word_id,
        _ => WordId(0),
    }
}

/// `std.cfg.if` on the block `cur`, whose last two instructions push the
/// then and else lambdas: the block is closed without them and branches to
/// a block that tests the condition, whose two branches call the then and
/// the else lambda and meet in the block after them.
pub open spec fn if_lowered(
    old_blocks: Seq<IRBasicBlock>,
    blocks: Seq<IRBasicBlock>,
    cur: Seq<Spanned<IRInstruction>>,
    span: Span,
) -> bool {
    let c = old_blocks.len() as int;
    let n = cur.len() as int;
    &&& n >= 2
    &&& cur[n - 1].value is PushLambda
    &&& cur[n - 2].value is PushLambda
    &&& blocks.len() == c + 4
    &&& blocks.subrange(0, c) == old_blocks
    &&& block_is(blocks[c], cur.subrange(0, n - 2), IRTerminator::Branch { branch: BasicBlockId((c + 1) as usize) }, span)
    &&& block_is(
        blocks[c + 1],
        Seq::empty(),
        IRTerminator::BranchIfZero {
            then_branch: BasicBlockId((c + 2) as usize),
            else_branch: BasicBlockId((c + 3) as usize),
        },
        span,
    )
    &&& block_is(
        blocks[c + 2],
        seq![Spanned { value: IRInstruction::CallDirect { word_id: pushed_lambda(cur[n - 2]) }, span }],
        IRTerminator::Branch { branch: BasicBlockId((c + 4) as usize) },
        span,
    )
    &&& block_is(
        blocks[c + 3],
        seq![Spanned { value: IRInstruction::CallDirect { word_id: pushed_lambda(cur[n - 1]) }, span }],
        IRTerminator::Branch { branch: BasicBlockId((c + 4) as usize) },
        span,
    )
}

/// `std.cfg.while` on the block `cur`, whose last two instructions push the
/// condition and body lambdas: the block is closed without them; a block
/// calls the condition, the next tests it, the body's block calls the body
/// and goes back to the condition, and the exit block goes on after them.
pub open spec fn while_lowered(
    old_blocks: Seq<IRBasicBlock>,
    blocks: Seq<IRBasicBlock>,
    cur: Seq<Spanned<IRInstruction>>,
    span: Span,
) -> bool {
    let c = old_blocks.len() as int;
    let n = cur.len() as int;
    &&& n >= 2
    &&& cur[n - 1].value is PushLambda
    &&& cur[n - 2].value is PushLambda
    &&& blocks.len() == c + 5
    &&& blocks.subrange(0, c) == old_blocks
    &&& block_is(blocks[c], cur.subrange(0, n - 2), IRTerminator::Branch { branch: BasicBlockId((c + 1) as usize) }, span)
    &&& block_is(
        blocks[c + 1],
        seq![Spanned { value: IRInstruction::CallDirect { word_id: pushed_lambda(cur[n - 2]) }, span }],
        IRTerminator::Branch { branch: BasicBlockId((c + 2) as usize) },
        span,
    )
    &&& block_is(
        blocks[c + 2],
        Seq::empty(),
        IRTerminator::BranchIfZero {
            then_branch: BasicBlockId((c + 3) as usize),
            else_branch: BasicBlockId((c + 4) as usize),
        },
        span,
    )
    &&& block_is(
        blocks[c + 3],
        seq![Spanned { value: IRInstruction::CallDirect { word_id: pushed_lambda(cur[n - 1]) }, span }],
        IRTerminator::Branch { branch: BasicBlockId((c + 1) as usize) },
        span,
    )
    &&& block_is(blocks[c + 4], Seq::empty(), IRTerminator::Branch { branch: BasicBlockId((c + 5) as usize) }, span)
}

/// Lowers a call: `std.cfg.if` and `std.cfg.while` close the block being
/// built on the two lambdas pushed just before and add the blocks of their
/// branches; another built-in word becomes its instruction; any other word
/// a direct call of its instance for the call's type arguments.
#[verifier::spinoff_prover]
fn lower_call(
    ir_ctx: &IRContext,
    span: Span,
    name: &String,
    symbol_id: SymbolId,
    type_args: &Vec<HIRType>,
    subs: &Vec<(SymbolId, HIRType)>,
    current: BasicBlockBuilder,
    blocks: &mut Vec<IRBasicBlock>,
    errors: &mut Vec<CompileError>,
    Ghost(n): Ghost<int>,
) -> (r: BasicBlockBuilder)
    requires
        ir_ctx.words@.len() <= n,
        blocks_ok(old(blocks)@, old(blocks)@.len() + 1int, n),
        instrs_below(current.instructions@, n),
    ensures
        blocks_ok(final(blocks)@, final(blocks)@.len() + 1int, n),
        instrs_below(r.instructions@, n),
        old(errors)@.len() <= final(errors)@.len(),
        final(errors)@.len() == old(errors)@.len() && name@ != "std.cfg.if"@ && name@ != "std.cfg.while"@
            ==> {
            let args = substituted_all(type_args@, subs@)->0;
            let lowered_args = lowered_all(ir_ctx, args)->0;
            let last = r.instructions@.last();
            &&& final(blocks)@ == old(blocks)@
            &&& substituted_all(type_args@, subs@) is Some
            &&& lowered_all(ir_ctx, args) is Some
            &&& r.instructions@ == current.instructions@.push(last)
            &&& last.span == span
            &&& lowers_call_to(name@, lowered_args, word_position(ir_ctx.words@, symbol_id, args), last.value)
        },
        final(errors)@.len() == old(errors)@.len() && name@ == "std.cfg.if"@ ==> r.instructions@.len() == 0
            && if_lowered(old(blocks)@, final(blocks)@, current.instructions@, span),
        final(errors)@.len() == old(errors)@.len() && name@ == "std.cfg.while"@ ==> r.instructions@.len() == 0
            && while_lowered(old(blocks)@, final(blocks)@, current.instructions@, span),
{
    let mut current = current;
    let concrete = match substitute_types(type_args, subs) {
        Some(c) => c,
        None => {
            errors.push(call_error("cannot resolve type arguments for '", name, span));
            return current;
        },
    };
    let lowered_args = match lower_types(ir_ctx, &concrete) {
        Some(l) => l,
        None => {
            errors.push(call_error("cannot lower type arguments for '", name, span));
            return current;
        },
    };
    let text = name.as_str();
    proof {
        lemma_ir_types_view(lowered_args@);
    }
    if same_text(text, "std.cfg.if") || same_text(text, "std.cfg.while") {
        let is_if = same_text(text, "std.cfg.if");
        proof {
            reveal_strlit("std.cfg.if");
            reveal_strlit("std.cfg.while");
            assert("std.cfg.if"@ != "std.cfg.while"@) by {
                assert("std.cfg.if"@.len() != "std.cfg.while"@.len());
            }
        }
        let label = if is_if {
            "'std.cfg.if' expects two immediately preceding lambda literals"
        } else {
            "'std.cfg.while' expects two immediately preceding lambda literals"
        };
        let ghost s0 = current.instructions@;
        let second = match take_lambda(&mut current) {
            Some(id) => id,
            None => {
                errors.push(stack_error(label, span));
                return current;
            },
        };
        proof {
            assert(refs_below(s0[s0.len() - 1].value, n));
        }
        let ghost s1 = current.instructions@;
        let first = match take_lambda(&mut current) {
            Some(id) => id,
            None => {
                errors.push(stack_error(label, span));
                return current;
            },
        };
        proof {
            assert(refs_below(s1[s1.len() - 1].value, n));
            assert forall|k: int| 0 <= k < current.instructions@.len() implies refs_below(
                #[trigger] current.instructions@[k].value,
                n,
            ) by {
                assert(current.instructions@[k] == s0[k]);
            }
        }
        let c = blocks.len();
        if c > usize::MAX - 8 {
            errors.push(CompileError::DataOverflow { span });
            return current;
        }
        let ghost old_blocks = blocks@;
        proof {
            lemma_blocks_ok_grow(old_blocks, c + 1, c + 6, n, n);
        }
        let closing = current.build(Spanned::new(IRTerminator::Branch { branch: BasicBlockId(c + 1) }, span));
        if is_if {
            let decide = IRBasicBlock {
                instructions: Vec::new(),
                terminator: Spanned::new(
                    IRTerminator::BranchIfZero {
                        then_branch: BasicBlockId(c + 2),
                        else_branch: BasicBlockId(c + 3),
                    },
                    span,
                ),
            };
            let then_block = IRBasicBlock {
                instructions: vec![Spanned::new(IRInstruction::CallDirect { word_id: first }, span)],
                terminator: Spanned::new(IRTerminator::Branch { branch: BasicBlockId(c + 4) }, span),
            };
            let else_block = IRBasicBlock {
                instructions: vec![Spanned::new(IRInstruction::CallDirect { word_id: second }, span)],
                terminator: Spanned::new(IRTerminator::Branch { branch: BasicBlockId(c + 4) }, span),
            };
            proof {
                assert(block_ok(closing, c + 5, n));
                assert(block_ok(decide, c + 5, n));
                assert(block_ok(then_block, c + 5, n));
                assert(block_ok(else_block, c + 5, n));
            }
            blocks.push(closing);
            blocks.push(decide);
            blocks.push(then_block);
            blocks.push(else_block);
            proof {
                assert(blocks@ == old_blocks.push(closing).push(decide).push(then_block).push(else_block));
                assert(blocks@.subrange(0, c as int) =~= old_blocks);
                assert(blocks@[c as int] == closing);
                assert(closing.instructions@ =~= s0.subrange(0, s0.len() - 2));
                assert(decide.instructions@ =~= Seq::<Spanned<IRInstruction>>::empty());
                assert(then_block.instructions@ =~= seq![Spanned { value: IRInstruction::CallDirect { word_id: first }, span }]);
                assert(else_block.instructions@ =~= seq![Spanned { value: IRInstruction::CallDirect { word_id: second }, span }]);
                assert(pushed_lambda(s0[s0.len() - 2]) == first);
                assert(pushed_lambda(s0[s0.len() - 1]) == second);
                lemma_blocks_ok_grow(old_blocks, c + 1, c + 5, n, n);
                assert forall|i: int| 0 <= i < blocks@.len() implies block_ok(#[trigger] blocks@[i], c + 5, n) by {
                    if i < c {
                        assert(blocks@[i] == old_blocks[i]);
                    }
                }
            }
        } else {
            let condition = IRBasicBlock {
                instructions: vec![Spanned::new(IRInstruction::CallDirect { word_id: first }, span)],
                terminator: Spanned::new(IRTerminator::Branch { branch: BasicBlockId(c + 2) }, span),
            };
            let test = IRBasicBlock {
                instructions: Vec::new(),
                terminator: Spanned::new(
                    IRTerminator::BranchIfZero {
                        then_branch: BasicBlockId(c + 3),
                        else_branch: BasicBlockId(c + 4),
                    },
                    span,
                ),
            };
            let body_block = IRBasicBlock {
                instructions: vec![Spanned::new(IRInstruction::CallDirect { word_id: second }, span)],
                terminator: Spanned::new(IRTerminator::Branch { branch: BasicBlockId(c + 1) }, span),
            };
            let exit = IRBasicBlock {
                instructions: Vec::new(),
                terminator: Spanned::new(IRTerminator::Branch { branch: BasicBlockId(c + 5) }, span),
            };
            proof {
                assert(block_ok(closing, c + 6, n));
                assert(block_ok(condition, c + 6, n));
                assert(block_ok(test, c + 6, n));
                assert(block_ok(body_block, c + 6, n));
                assert(block_ok(exit, c + 6, n));
            }
            blocks.push(closing);
            blocks.push(condition);
            blocks.push(test);
            blocks.push(body_block);
            blocks.push(exit);
            proof {
                assert(blocks@ == old_blocks.push(closing).push(condition).push(test).push(body_block).push(exit));
                assert(blocks@.len() == c + 5);
                assert(blocks@.subrange(0, c as int) =~= old_blocks);
                assert(closing.instructions@ =~= s0.subrange(0, s0.len() - 2));
                assert(test.instructions@ =~= Seq::<Spanned<IRInstruction>>::empty());
                assert(exit.instructions@ =~= Seq::<Spanned<IRInstruction>>::empty());
                assert(condition.instructions@ =~= seq![Spanned { value: IRInstruction::CallDirect { word_id: first }, span }]);
                assert(body_block.instructions@ =~= seq![Spanned { value: IRInstruction::CallDirect { word_id: second }, span }]);
                assert(pushed_lambda(s0[s0.len() - 2]) == first);
                assert(pushed_lambda(s0[s0.len() - 1]) == second);
                assert forall|i: int| 0 <= i < blocks@.len() implies block_ok(#[trigger] blocks@[i], c + 6, n) by {
                    if i < c {
                        assert(blocks@[i] == old_blocks[i]);
                    }
                }
            }
        }
        return BasicBlockBuilder::new();
    }
    let instruction = if same_text(text, "std.stack.drop") || same_text(text, "std.stack.dup") {
        if lowered_args.len() < 1 {
            errors.push(call_error("missing type argument for '", name, span));
            return current;
        }
        let ty = copy_ir_type(&lowered_args[0]);
        if same_text(text, "std.stack.drop") {
            IRInstruction::Drop { ty }
        } else {
            IRInstruction::Dup { ty }
        }
    } else if same_text(text, "std.stack.swap") || same_text(text, "std.stack.over") {
        if lowered_args.len() < 2 {
            errors.push(call_error("missing type arguments for '", name, span));
            return current;
        }
        let lower = copy_ir_type(&lowered_args[0]);
        let upper = copy_ir_type(&lowered_args[1]);
        if same_text(text, "std.stack.swap") {
            IRInstruction::Swap { lower, upper }
        } else {
            IRInstruction::Over { lower, upper }
        }
    } else if same_text(text, "std.stack.rotate_left") || same_text(text, "std.stack.rotate_right") {
        if lowered_args.len() < 3 {
            errors.push(call_error("missing type arguments for '", name, span));
            return current;
        }
        let lower = copy_ir_type(&lowered_args[0]);
        let middle = copy_ir_type(&lowered_args[1]);
        let upper = copy_ir_type(&lowered_args[2]);
        if same_text(text, "std.stack.rotate_left") {
            IRInstruction::RotateLeft { lower, middle, upper }
        } else {
            IRInstruction::RotateRight { lower, middle, upper }
        }
    } else {
        match fixed_builtin(text) {
            Some(i) => i,
            None => {
                let generic = if lowered_args.len() >= 1 {
                    generic_builtin(text, copy_ir_type(&lowered_args[0]))
                } else {
                    None
                };
                match generic {
                    Some(i) => i,
                    None => match ir_ctx.get_word_id(symbol_id, &concrete) {
                        Some(word_id) => IRInstruction::CallDirect { word_id },
                        None => {
                            errors.push(CompileError::SymbolNotFound { name: copy_string(name), span });
                            return current;
                        },
                    },
                }
            },
        }
    };
    let ghost before = current.instructions@;
    current.push(Spanned::new(instruction, span));
    proof {
        assert forall|k: int| 0 <= k < current.instructions@.len() implies refs_below(
            #[trigger] current.instructions@[k].value,
            n,
        ) by {
            if k < before.len() {
                assert(current.instructions@[k] == before[k]);
            }
        }
    }
    current
}

/// Whether a string of `count` bytes fits after `used` bytes of static data:
/// its count must fit in a byte, and its count and bytes in the 64 KiB of
/// memory.
pub open spec fn string_fits(used: int, count: int) -> bool {
    count <= 255 && used + count + 1 <= 65536
}

/// Every byte is below 128: the bytes of an ASCII text.
pub open spec fn ascii_bytes(b: Seq<u8>) -> bool {
    forall|k: int| 0 <= k < b.len() ==> #[trigger] b[k] < 128
}

/// Whether every byte is below 128.
fn all_ascii(bytes: &[u8]) -> (r: bool)
    ensures
        r == ascii_bytes(bytes@),
{
    let mut k: usize = 0;
    while k < bytes.len()
        invariant
            k <= bytes@.len(),
            forall|j: int| 0 <= j < k ==> #[trigger] bytes@[j] < 128,
        decreases bytes@.len() - k,
    {
        if bytes[k] >= 128 {
            return false;
        }
        k += 1;
    }
    true
}

/// Lowers a literal: a constant is pushed; a string's bytes, after a byte
/// that counts them, are added to the static data and the address of that
/// count byte is pushed; a string that is not ASCII, or does not fit, is an
/// error.
fn lower_literal(
    literal: &HIRLiteral,
    span: Span,
    current: &mut BasicBlockBuilder,
    static_data: &mut Vec<u8>,
    errors: &mut Vec<CompileError>,
)
    requires
        old(static_data)@.len() <= 65536,
    ensures
        final(static_data)@.len() <= 65536,
        match *literal {
            HIRLiteral::Bool(b) => final(current).instructions@ == old(current).instructions@.push(
                Spanned { value: IRInstruction::PushConstant { value: IRConstant::Bool(b) }, span },
            ) && final(static_data)@ == old(static_data)@ && final(errors)@ == old(errors)@,
            HIRLiteral::U8(b) => final(current).instructions@ == old(current).instructions@.push(
                Spanned { value: IRInstruction::PushConstant { value: IRConstant::U8(b) }, span },
            ) && final(static_data)@ == old(static_data)@ && final(errors)@ == old(errors)@,
            HIRLiteral::U16(b) => final(current).instructions@ == old(current).instructions@.push(
                Spanned { value: IRInstruction::PushConstant { value: IRConstant::U16(b) }, span },
            ) && final(static_data)@ == old(static_data)@ && final(errors)@ == old(errors)@,
            HIRLiteral::String(v) => if !ascii_bytes(encode_utf8(v@)) {
                &&& final(static_data)@ == old(static_data)@
                &&& final(current).instructions@ == old(current).instructions@
                &&& final(errors)@ == old(errors)@.push(CompileError::InvalidStringLiteral { span })
            } else if string_fits(
                old(static_data)@.len() as int,
                encode_utf8(v@).len() as int,
            ) {
                &&& final(static_data)@ == old(static_data)@.push(encode_utf8(v@).len() as u8)
                    + encode_utf8(v@)
                &&& final(current).instructions@ == old(current).instructions@.push(
                    Spanned {
                        value: IRInstruction::PushConstant {
                            value: IRConstant::StaticPtr(old(static_data)@.len() as u16),
                        },
                        span,
                    },
                )
                &&& final(errors)@ == old(errors)@
            } else {
                &&& final(static_data)@ == old(static_data)@
                &&& final(current).instructions@ == old(current).instructions@
                &&& final(errors)@ == old(errors)@.push(CompileError::DataOverflow { span })
            },
        },
{
    match literal {
        HIRLiteral::Bool(b) => current.push(
            Spanned::new(IRInstruction::PushConstant { value: IRConstant::Bool(*b) }, span),
        ),
        HIRLiteral::U8(b) => current.push(
            Spanned::new(IRInstruction::PushConstant { value: IRConstant::U8(*b) }, span),
        ),
        HIRLiteral::U16(b) => current.push(
            Spanned::new(IRInstruction::PushConstant { value: IRConstant::U16(*b) }, span),
        ),
        HIRLiteral::String(v) => {
            let bytes = v.as_str().as_bytes();
            if !all_ascii(bytes) {
                errors.push(CompileError::InvalidStringLiteral { span });
                return;
            }
            let used = static_data.len();
            if bytes.len() > 255 || used + bytes.len() + 1 > 65536 {
                errors.push(CompileError::DataOverflow { span });
                return;
            }
            let address = used as u16;
            let ghost start = static_data@;
            static_data.push(bytes.len() as u8);
            let mut i: usize = 0;
            while i < bytes.len()
                invariant
                    i <= bytes@.len(),
                    static_data@ == start.push(bytes@.len() as u8) + bytes@.subrange(0, i as int),
                decreases bytes@.len() - i,
            {
                static_data.push(bytes[i]);
                proof {
                    assert(start.push(bytes@.len() as u8) + bytes@.subrange(0, i + 1) =~= (start.push(
                        bytes@.len() as u8,
                    ) + bytes@.subrange(0, i as int)).push(bytes@[i as int]));
                }
                i += 1;
            }
            assert(bytes@.subrange(0, bytes@.len() as int) =~= bytes@);
            current.push(
                Spanned::new(
                    IRInstruction::PushConstant { value: IRConstant::StaticPtr(address) },
                    span,
                ),
            );
        },
    }
}

/// A body of literals only.
pub open spec fn literal_body(body: Seq<Spanned<HIRInstruction>>) -> bool {
    forall|k: int| 0 <= k < body.len() ==> (#[trigger] body[k]).value is Literal
}

/// What lowering a body of literals gives, from the static data `data`:
/// the instructions of its block, the static data after it, and the errors,
/// in order.
pub open spec fn literals_lowered(body: Seq<Spanned<HIRInstruction>>, data: Seq<u8>) -> (
    Seq<Spanned<IRInstruction>>,
    Seq<u8>,
    Seq<CompileError>,
)
    decreases body.len(),
{
    if body.len() == 0 {
        (Seq::empty(), data, Seq::empty())
    } else {
        let (instrs, d, errs) = literals_lowered(body.drop_last(), data);
        let span = body.last().span;
        match body.last().value {
            HIRInstruction::Literal(HIRLiteral::Bool(b)) => (
                instrs.push(Spanned { value: IRInstruction::PushConstant { value: IRConstant::Bool(b) }, span }),
                d,
                errs,
            ),
            HIRInstruction::Literal(HIRLiteral::U8(b)) => (
                instrs.push(Spanned { value: IRInstruction::PushConstant { value: IRConstant::U8(b) }, span }),
                d,
                errs,
            ),
            HIRInstruction::Literal(HIRLiteral::U16(b)) => (
                instrs.push(Spanned { value: IRInstruction::PushConstant { value: IRConstant::U16(b) }, span }),
                d,
                errs,
            ),
            HIRInstruction::Literal(HIRLiteral::String(v)) => if !ascii_bytes(encode_utf8(v@)) {
                (instrs, d, errs.push(CompileError::InvalidStringLiteral { span }))
            } else if string_fits(d.len() as int, encode_utf8(v@).len() as int) {
                (
                    instrs.push(
                        Spanned { value: IRInstruction::PushConstant { value: IRConstant::StaticPtr(d.len() as u16) }, span },
                    ),
                    d.push(encode_utf8(v@).len() as u8) + encode_utf8(v@),
                    errs,
                )
            } else {
                (instrs, d, errs.push(CompileError::DataOverflow { span }))
            },
            _ => (instrs, d, errs),
        }
    }
}

/// A block as its instructions and its terminator.
pub type BlockView = (Seq<Spanned<IRInstruction>>, Spanned<IRTerminator>);

/// The blocks are these.
pub open spec fn blocks_match(blocks: Seq<IRBasicBlock>, views: Seq<BlockView>) -> bool {
    &&& blocks.len() == views.len()
    &&& forall|k: int|
        0 <= k < views.len() ==> (#[trigger] blocks[k]).instructions@ == views[k].0 && blocks[k].terminator
            == views[k].1
}

/// A body of literals, lambdas whose bodies are literals, and calls of
/// `std.cfg.if`.
pub open spec fn flat_body(body: Seq<Spanned<HIRInstruction>>) -> bool {
    forall|k: int|
        0 <= k < body.len() ==> match (#[trigger] body[k]).value {
            HIRInstruction::Literal(_) => true,
            HIRInstruction::Lambda { body: inner, .. } => literal_body(inner@),
            HIRInstruction::Call { name, .. } => name@ == "std.cfg.if"@,
            _ => false,
        }
}

/// What lowering a flat body gives where every instruction lowers: the
/// closed blocks, the instructions of the block being built, the static
/// data, and the lambda words made, by id and blocks. `nl` lambda words
/// were made before, after `base` instances.
pub open spec fn flat_lowered(
    base: int,
    nl: int,
    body: Seq<Spanned<HIRInstruction>>,
    data: Seq<u8>,
) -> Option<(Seq<BlockView>, Seq<Spanned<IRInstruction>>, Seq<u8>, Seq<(WordId, Seq<BlockView>)>)>
    decreases body.len(),
{
    if body.len() == 0 {
        Some((Seq::empty(), Seq::empty(), data, Seq::empty()))
    } else {
        match flat_lowered(base, nl, body.drop_last(), data) {
            None => None,
            Some((bs, cur, d, ls)) => {
                let span = body.last().span;
                match body.last().value {
                    HIRInstruction::Literal(lit) => {
                        let (instrs, d2, errs) = literals_lowered(seq![body.last()], d);
                        if errs.len() == 0 {
                            Some((bs, cur + instrs, d2, ls))
                        } else {
                            None
                        }
                    },
                    HIRInstruction::Lambda { body: inner, .. } => {
                        let slot = nl + ls.len();
                        let (instrs, d2, errs) = literals_lowered(inner@, d);
                        if slot >= usize::MAX - base || errs.len() > 0 {
                            None
                        } else {
                            let id = WordId((base + slot) as usize);
                            Some(
                                (
                                    bs,
                                    cur.push(Spanned { value: IRInstruction::PushLambda { word_id: id }, span }),
                                    d2,
                                    ls.push((id, seq![(instrs, Spanned { value: IRTerminator::End, span })])),
                                ),
                            )
                        }
                    },
                    HIRInstruction::Call { .. } => {
                        let n = cur.len() as int;
                        let c = bs.len() as int;
                        if n >= 2 && cur[n - 1].value is PushLambda && cur[n - 2].value is PushLambda {
                            Some(
                                (
                                    bs.push(
                                        (cur.subrange(0, n - 2), Spanned { value: IRTerminator::Branch { branch: BasicBlockId((c + 1) as usize) }, span }),
                                    ).push(
                                        (
                                            Seq::empty(),
                                            Spanned {
                                                value: IRTerminator::BranchIfZero {
                                                    then_branch: BasicBlockId((c + 2) as usize),
                                                    else_branch: BasicBlockId((c + 3) as usize),
                                                },
                                                span,
                                            },
                                        ),
                                    ).push(
                                        (
                                            seq![Spanned { value: IRInstruction::CallDirect { word_id: pushed_lambda(cur[n - 2]) }, span }],
                                            Spanned { value: IRTerminator::Branch { branch: BasicBlockId((c + 4) as usize) }, span },
                                        ),
                                    ).push(
                                        (
                                            seq![Spanned { value: IRInstruction::CallDirect { word_id: pushed_lambda(cur[n - 1]) }, span }],
                                            Spanned { value: IRTerminator::Branch { branch: BasicBlockId((c + 4) as usize) }, span },
                                        ),
                                    ),
                                    Seq::empty(),
                                    d,
                                    ls,
                                ),
                            )
                        } else {
                            None
                        }
                    },
                    _ => None,
                }
            },
        }
    }
}

/// The lambda words from `start` on are these, by id and blocks.
pub open spec fn lambdas_match(words: Seq<Spanned<IRWord>>, start: int, ls: Seq<(WordId, Seq<BlockView>)>) -> bool {
    &&& words.len() == start + ls.len()
    &&& forall|k: int|
        0 <= k < ls.len() ==> (#[trigger] words[start + k]).value.word_id == ls[k].0 && blocks_match(
            words[start + k].value.blocks@,
            ls[k].1,
        )
}

/// The lambda words lowered so far: each is well formed in a program whose
/// words are the `base` instances followed by these lambdas, and lambda `s`
/// has the id `base + s`.
pub open spec fn lambdas_ok(ws: Seq<Spanned<IRWord>>, base: int) -> bool {
    &&& words_ok(ws, base + ws.len())
    &&& forall|s: int| 0 <= s < ws.len() ==> (#[trigger] ws[s]).value.word_id.0 == base + s
}

/// The name of a lambda's word: `lambda_` and its id.
fn lambda_name(id: WordId) -> (r: String)
    ensures
        r@ == "lambda_"@ + decimal_chars(id.0 as nat),
{
    let mut r = String::from_str("lambda_");
    let digits = usize_to_string(id.0);
    proof {
        reveal_strlit("lambda_");
    }
    string_extend(&mut r, digits.as_str());
    r
}

/// Lowers one body to the blocks of a word: instructions go into the block
/// being built until `std.cfg.if` or `std.cfg.while` closes it; each lambda
/// becomes a word of its own, lowered at once, its id the next after the
/// lambdas already lowered. Every error of the body is reported, and then
/// there is no word.
#[verifier::spinoff_prover]
fn lower_ir_word(
    ir_ctx: &IRContext,
    word_id: WordId,
    name: String,
    body: &Vec<Spanned<HIRInstruction>>,
    entrypoint: bool,
    span: Span,
    subs: &Vec<(SymbolId, HIRType)>,
    lambda_words: &mut Vec<Spanned<IRWord>>,
    base_word_count: usize,
    static_data: &mut Vec<u8>,
) -> (r: Result<IRWord, Vec<CompileError>>)
    requires
        ir_ctx.words@.len() <= base_word_count,
        old(static_data)@.len() <= 65536,
        lambdas_ok(old(lambda_words)@, base_word_count as int),
    ensures
        final(static_data)@.len() <= 65536,
        extends(final(static_data)@, old(static_data)@),
        extends(final(lambda_words)@, old(lambda_words)@),
        lambdas_ok(final(lambda_words)@, base_word_count as int),
        r matches Ok(w) ==> {
            &&& w.word_id == word_id
            &&& w.name == name
            &&& w.entrypoint == entrypoint
            &&& w.blocks@.len() > 0
            &&& w.blocks@.last().terminator.value is End
            &&& word_ok(w, base_word_count + final(lambda_words)@.len())
        },
        r matches Err(es) ==> es@.len() > 0,
        literal_body(body@) ==> {
            let (instrs, data, errs) = literals_lowered(body@, old(static_data)@);
            &&& final(static_data)@ == data
            &&& final(lambda_words)@ == old(lambda_words)@
            &&& (r is Ok <==> errs.len() == 0)
            &&& (r matches Err(es) ==> es@ == errs)
            &&& (r matches Ok(w) ==> w.blocks@.len() == 1 && w.blocks@[0].instructions@ == instrs
                && w.blocks@[0].terminator == Spanned { value: IRTerminator::End, span })
        },
        flat_body(body@) && r is Ok ==> (flat_lowered(
            base_word_count as int,
            old(lambda_words)@.len() as int,
            body@,
            old(static_data)@,
        ) matches Some((bs, cur, data, ls)) && (r matches Ok(w) && blocks_match(
            w.blocks@,
            bs.push((cur, Spanned { value: IRTerminator::End, span })),
        )) && final(static_data)@ == data && lambdas_match(final(lambda_words)@, old(lambda_words)@.len() as int, ls)
            && final(lambda_words)@.subrange(0, old(lambda_words)@.len() as int) == old(lambda_words)@),
    decreases hir_body_size(body@),
{
    let ghost start_static = static_data@;
    let ghost start_lambdas = lambda_words@;
    let mut errors: Vec<CompileError> = Vec::new();
    let mut blocks: Vec<IRBasicBlock> = Vec::new();
    let mut current = BasicBlockBuilder::new();
    let mut i: usize = 0;
    while i < body.len()
        invariant
            i <= body@.len(),
            ir_ctx.words@.len() <= base_word_count,
            static_data@.len() <= 65536,
            extends(static_data@, start_static),
            extends(lambda_words@, start_lambdas),
            lambdas_ok(lambda_words@, base_word_count as int),
            blocks_ok(blocks@, blocks@.len() + 1int, base_word_count + lambda_words@.len()),
            instrs_below(current.instructions@, base_word_count + lambda_words@.len()),
            literal_body(body@) ==> {
                let (instrs, data, errs) = literals_lowered(body@.subrange(0, i as int), start_static);
                &&& static_data@ == data
                &&& lambda_words@ == start_lambdas
                &&& errors@ == errs
                &&& current.instructions@ == instrs
                &&& blocks@.len() == 0
            },
            flat_body(body@) && errors@.len() == 0 ==> (flat_lowered(
                base_word_count as int,
                start_lambdas.len() as int,
                body@.subrange(0, i as int),
                start_static,
            ) matches Some((bs, cur, d, ls)) && blocks_match(blocks@, bs) && current.instructions@ == cur
                && static_data@ == d && lambdas_match(lambda_words@, start_lambdas.len() as int, ls)),
        decreases body@.len() - i,
    {
        let instruction = &body[i];
        let ghost errors0 = errors@;
        let ghost blocks0 = blocks@;
        let ghost cur0 = current.instructions@;
        let ghost data0 = static_data@;
        let ghost lambdas0 = lambda_words@;
        let ghost n = base_word_count + lambda_words@.len();
        proof {
            let next = body@.subrange(0, i + 1);
            assert(next.drop_last() =~= body@.subrange(0, i as int));
            assert(next.last() == body@[i as int]);
        }
        match &instruction.value {
            HIRInstruction::Call { name: callee, symbol_id, type_args } => {
                current = lower_call(
                    ir_ctx,
                    instruction.span,
                    callee,
                    *symbol_id,
                    type_args,
                    subs,
                    current,
                    &mut blocks,
                    &mut errors,
                    Ghost(n),
                );
                proof {
                    if flat_body(body@) && errors@.len() == 0 {
                        assert(flat_body(body@) ==> callee@ == "std.cfg.if"@) by {
                            assert(body@[i as int].value == instruction.value);
                        }
                        let next = body@.subrange(0, i + 1);
                        let (bs, cur, d, ls) = flat_lowered(
                            base_word_count as int,
                            start_lambdas.len() as int,
                            body@.subrange(0, i as int),
                            start_static,
                        )->0;
                        assert(if_lowered(blocks0, blocks@, cur0, instruction.span));
                        let c = bs.len() as int;
                        let m = cur.len() as int;
                        let (bs2, cur2, d2, ls2) = flat_lowered(
                            base_word_count as int,
                            start_lambdas.len() as int,
                            next,
                            start_static,
                        )->0;
                        assert(blocks_match(blocks@, bs2)) by {
                            assert forall|k: int| 0 <= k < bs2.len() implies (#[trigger] blocks@[k]).instructions@ == bs2[k].0
                                && blocks@[k].terminator == bs2[k].1 by {
                                if k < c {
                                    assert(blocks@.subrange(0, c)[k] == blocks@[k]);
                                    assert(blocks@[k] == blocks0[k]);
                                }
                            }
                        }
                    }
                }
            },
            HIRInstruction::Literal(literal) => {
                let ghost before = current.instructions@;
                let ghost data = static_data@;
                lower_literal(literal, instruction.span, &mut current, static_data, &mut errors);
                proof {
                    assert forall|k: int| 0 <= k < current.instructions@.len() implies refs_below(
                        #[trigger] current.instructions@[k].value,
                        n,
                    ) by {
                        if k < before.len() {
                            assert(current.instructions@[k] == before[k]);
                        }
                    }
                    assert forall|k: int| 0 <= k < start_static.len() implies #[trigger] static_data@[k]
                        == start_static[k] by {
                        assert(static_data@[k] == data[k]);
                    }
                    let one = seq![body@[i as int]];
                    assert(one.drop_last() =~= Seq::<Spanned<HIRInstruction>>::empty());
                    assert(one.last() == body@[i as int]);
                    assert(body@[i as int].value == instruction.value);
                    if flat_body(body@) && errors@.len() == 0 {
                        reveal_with_fuel(literals_lowered, 2);
                        assert(instruction.value == HIRInstruction::Literal(*literal));
                        assert(literals_lowered(Seq::<Spanned<HIRInstruction>>::empty(), data0) == (Seq::<Spanned<IRInstruction>>::empty(), data0, Seq::<CompileError>::empty()));
                        let (instrs, d2, errs) = literals_lowered(one, data0);
                        assert(errs.len() == 0);
                        assert(current.instructions@ =~= cur0 + instrs);
                        assert(static_data@ == d2);
                    }
                }
            },
            HIRInstruction::Pack { name: sname, struct_id } | HIRInstruction::Unpack {
                name: sname,
                struct_id,
            } | HIRInstruction::GetField { name: sname, struct_id, .. } => {
                match find_type_id(ir_ctx, *struct_id) {
                    Some(type_id) => {
                        let ir = match &instruction.value {
                            HIRInstruction::Pack { .. } => IRInstruction::Pack { type_id },
                            HIRInstruction::Unpack { .. } => IRInstruction::Unpack { type_id },
                            HIRInstruction::GetField { field_index, .. } => IRInstruction::GetField {
                                type_id,
                                field_index: *field_index,
                            },
                            _ => IRInstruction::Pack { type_id },
                        };
                        let ghost before = current.instructions@;
                        current.push(Spanned::new(ir, instruction.span));
                        proof {
                            assert forall|k: int| 0 <= k < current.instructions@.len() implies refs_below(
                                #[trigger] current.instructions@[k].value,
                                n,
                            ) by {
                                if k < before.len() {
                                    assert(current.instructions@[k] == before[k]);
                                }
                            }
                        }
                    },
                    None => {
                        errors.push(CompileError::SymbolNotFound { name: copy_string(sname), span: instruction.span });
                    },
                }
            },
            HIRInstruction::Lambda { body: inner, .. } => {
                let slot = lambda_words.len();
                if slot >= usize::MAX - base_word_count {
                    errors.push(CompileError::DataOverflow { span: instruction.span });
                } else {
                    let lambda_id = WordId(base_word_count + slot);
                    let placeholder = IRWord {
                        word_id: lambda_id,
                        name: lambda_name(lambda_id),
                        entrypoint: false,
                        blocks: Vec::new(),
                    };
                    let ghost before_push = lambda_words@;
                    lambda_words.push(Spanned::new(placeholder, instruction.span));
                    proof {
                        lemma_hir_body_size_prefix(body@, i as int);
                        lemma_words_ok_grow(before_push, n, n + 1);
                        assert(word_ok(placeholder, n + 1));
                        assert forall|j: int| 0 <= j < lambda_words@.len() implies word_ok(
                            #[trigger] lambda_words@[j].value,
                            n + 1,
                        ) by {
                            if j < before_push.len() {
                                assert(lambda_words@[j] == before_push[j]);
                            }
                        }
                        assert forall|j: int| 0 <= j < lambda_words@.len() implies (
                        #[trigger] lambda_words@[j]).value.word_id.0 == base_word_count + j by {
                            if j < before_push.len() {
                                assert(lambda_words@[j] == before_push[j]);
                            }
                        }
                        lemma_blocks_ok_grow(blocks@, blocks@.len() + 1int, blocks@.len() + 1int, n, n + 1);
                        lemma_instrs_below_grow(current.instructions@, n, n + 1);
                    }
                    let ghost after_push = lambda_words@;
                    let lowered = lower_ir_word(
                        ir_ctx,
                        lambda_id,
                        lambda_name(lambda_id),
                        inner,
                        false,
                        instruction.span,
                        subs,
                        lambda_words,
                        base_word_count,
                        static_data,
                    );
                    let ghost n2 = base_word_count + lambda_words@.len();
                    proof {
                        lemma_blocks_ok_grow(blocks@, blocks@.len() + 1int, blocks@.len() + 1int, n + 1, n2);
                        lemma_instrs_below_grow(current.instructions@, n + 1, n2);
                    }
                    match lowered {
                        Ok(w) => {
                            let ghost mid = lambda_words@;
                            lambda_words[slot] = Spanned::new(w, instruction.span);
                            let ghost before = current.instructions@;
                            current.push(
                                Spanned::new(IRInstruction::PushLambda { word_id: lambda_id }, instruction.span),
                            );
                            proof {
                                assert forall|j: int| 0 <= j < lambda_words@.len() implies word_ok(
                                    #[trigger] lambda_words@[j].value,
                                    n2,
                                ) by {
                                    if j != slot {
                                        assert(lambda_words@[j] == mid[j]);
                                    }
                                }
                                assert forall|j: int| 0 <= j < lambda_words@.len() implies (
                                #[trigger] lambda_words@[j]).value.word_id.0 == base_word_count + j by {
                                    if j != slot {
                                        assert(lambda_words@[j] == mid[j]);
                                    }
                                }
                                assert forall|j: int| 0 <= j < start_lambdas.len() implies #[trigger] lambda_words@[j]
                                    == start_lambdas[j] by {
                                    assert(mid[j] == after_push[j]);
                                    assert(after_push[j] == before_push[j]);
                                }
                                assert forall|k: int| 0 <= k < current.instructions@.len() implies refs_below(
                                    #[trigger] current.instructions@[k].value,
                                    n2,
                                ) by {
                                    if k < before.len() {
                                        assert(current.instructions@[k] == before[k]);
                                    }
                                }
                            }
                        },
                        Err(es) => {
                            let mut es = es;
                            errors.append(&mut es);
                            proof {
                                assert forall|j: int| 0 <= j < start_lambdas.len() implies #[trigger] lambda_words@[j]
                                    == start_lambdas[j] by {
                                    assert(lambda_words@[j] == after_push[j]);
                                    assert(after_push[j] == before_push[j]);
                                }
                            }
                        },
                    }
                }
            },
        }
        i += 1;
    }
    proof {
        assert(body@.subrange(0, body@.len() as int) =~= body@);
    }
    if errors.len() > 0 {
        return Err(errors);
    }
    let ghost n = base_word_count + lambda_words@.len();
    let last = current.build(Spanned::new(IRTerminator::End, span));
    let ghost before = blocks@;
    blocks.push(last);
    proof {
        lemma_blocks_ok_grow(before, before.len() + 1int, blocks@.len() as int, n, n);
        assert(block_ok(last, blocks@.len() as int, n));
        assert forall|j: int| 0 <= j < blocks@.len() implies block_ok(#[trigger] blocks@[j], blocks@.len() as int, n) by {
            if j < before.len() {
                assert(blocks@[j] == before[j]);
            }
        }
    }
    Ok(IRWord { word_id, name, entrypoint, blocks })
}

/// Lowers every instance of the context.
pub struct LowerStage;

impl Stage<CompileContext> for LowerStage {
    type Input = (IRContext, HIRProgram);

    type Output = (IRContext, IRProgram);

    open spec fn runs(
        &self,
        input: Self::Input,
        context: CompileContext,
        after: Self,
        after_context: CompileContext,
        result: StageResult<Self::Output>,
    ) -> bool {
        &&& (errors_only(result.diagnostics))
        &&& (result.output matches Some((ir, prog)) && {
                &&& ir == input.0
                &&& ir_types_view(prog.types@) == ir_types_view(ir.types@)
                &&& prog.static_data@.len() <= 65536
                &&& result.diagnostics.errors@.len() == 0 ==> {
                    &&& prog.words@.len() >= ir.words@.len()
                    &&& forall|j: int| 0 <= j < prog.words@.len() ==> (#[trigger] prog.words@[j]).value.word_id.0 == j
                    &&& words_ok(prog.words@, prog.words@.len() as int)
                }
            })
        &&& (after_context == context)
    }

    /// Instance `i` becomes word `i`, its type variables bound to its type
    /// arguments in order; the lambdas follow the instances. Where nothing
    /// is reported, every word stands at the index of its id, and its
    /// branches land in it and its calls on words of the program.
    fn execute(&mut self, input: (IRContext, HIRProgram), context: &mut CompileContext) -> (r: StageResult<
        (IRContext, IRProgram),
    >)
    {
        let (ir_ctx, program) = input;
        let mut diagnostics = Diagnostics::new();
        let mut static_data: Vec<u8> = Vec::new();
        let mut words: Vec<Spanned<IRWord>> = Vec::new();
        let mut lambda_words: Vec<Spanned<IRWord>> = Vec::new();
        let base = ir_ctx.words.len();
        let mut index: usize = 0;
        while index < ir_ctx.words.len()
            invariant
                base == ir_ctx.words@.len(),
                index <= base,
                static_data@.len() <= 65536,
                errors_only(diagnostics),
                lambdas_ok(lambda_words@, base as int),
                diagnostics.errors@.len() == 0 ==> {
                    &&& words@.len() == index
                    &&& forall|j: int| 0 <= j < index ==> (#[trigger] words@[j]).value.word_id.0 == j
                    &&& words_ok(words@, base + lambda_words@.len())
                },
            decreases base - index,
        {
            let instance = &ir_ctx.words[index];
            match find_word(&program, instance.source_word) {
                None => {
                    let mut label = String::from_str("source word '");
                    let n = usize_to_string(instance.source_word.0);
                    string_extend(&mut label, n.as_str());
                    string_extend(&mut label, "' not found");
                    let e = CompileError::Unknown { label };
                    let ghost before = diagnostics;
                    diagnostics.emit_fatal(e);
                    proof {
                        lemma_emit_keeps_errors_only(before, diagnostics, e);
                    }
                },
                Some(word) => {
                    let vars = &word.value.signature.type_vars;
                    let mut subs: Vec<(SymbolId, HIRType)> = Vec::new();
                    let mut j: usize = 0;
                    while j < vars.len() && j < instance.type_args.len()
                        decreases vars@.len() - j,
                    {
                        subs.push((vars[j].value, copy_type(&instance.type_args[j])));
                        j += 1;
                    }
                    let ghost n = base + lambda_words@.len();
                    let lowered = lower_ir_word(
                        &ir_ctx,
                        WordId(index),
                        copy_string(&instance.name),
                        &word.value.body,
                        word.value.entrypoint,
                        word.span,
                        &subs,
                        &mut lambda_words,
                        base,
                        &mut static_data,
                    );
                    match lowered {
                        Ok(w) => {
                            let ghost before = words@;
                            words.push(Spanned::new(w, word.span));
                            proof {
                                if diagnostics.errors@.len() == 0 {
                                    lemma_words_ok_grow(before, n, base + lambda_words@.len());
                                    assert forall|j: int| 0 <= j < words@.len() implies word_ok(
                                        #[trigger] words@[j].value,
                                        base + lambda_words@.len(),
                                    ) by {
                                        if j < before.len() {
                                            assert(words@[j] == before[j]);
                                        }
                                    }
                                    assert forall|j: int| 0 <= j < index + 1 implies (#[trigger] words@[j]).value.word_id.0
                                        == j by {
                                        if j < before.len() {
                                            assert(words@[j] == before[j]);
                                        }
                                    }
                                }
                            }
                        },
                        Err(errors) => {
                            let mut k: usize = 0;
                            while k < errors.len()
                                invariant
                                    errors_only(diagnostics),
                                    errors@.len() > 0,
                                    k > 0 ==> diagnostics.errors@.len() > 0,
                                decreases errors@.len() - k,
                            {
                                let e = errors[k].clone();
                                let ghost before = diagnostics;
                                diagnostics.emit_fatal(e);
                                proof {
                                    lemma_emit_keeps_errors_only(before, diagnostics, e);
                                }
                                k += 1;
                            }
                        },
                    }
                },
            }
            index += 1;
        }
        let ghost instances = words@;
        let ghost lambdas = lambda_words@;
        words.append(&mut lambda_words);
        proof {
            if diagnostics.errors@.len() == 0 {
                assert(words@ == instances + lambdas);
                assert forall|j: int| 0 <= j < words@.len() implies (#[trigger] words@[j]).value.word_id.0 == j by {
                    if j >= instances.len() {
                        assert(words@[j] == lambdas[j - base]);
                    }
                }
                assert forall|j: int| 0 <= j < words@.len() implies word_ok(
                    #[trigger] words@[j].value,
                    words@.len() as int,
                ) by {
                    if j < instances.len() {
                        assert(words@[j] == instances[j]);
                    } else {
                        assert(words@[j] == lambdas[j - base]);
                    }
                }
            }
        }
        let program_ir = IRProgram { words, types: copy_ir_types(&ir_ctx.types), static_data };
        StageResult::new(Some((ir_ctx, program_ir)), diagnostics)
    }
}

/// What each built-in name lowers to, read off the table above: each name
/// is told from the names tested before it by its length, or by the first
/// character where two names of one length differ.
#[verifier::spinoff_prover]
proof fn lemma_builtin_table(ty: IRTypeView, i: IRInstruction)
    ensures
        fixed_builtin_spec("std.io.print"@) == Some(IRInstruction::Print),
        fixed_builtin_spec("std.stack.call"@) == Some(IRInstruction::CallIndirect),
        fixed_builtin_spec("std.u8.add"@) == Some(IRInstruction::Add { ty: IRType::U8 }),
        fixed_builtin_spec("std.u8.sub"@) == Some(IRInstruction::Sub { ty: IRType::U8 }),
        fixed_builtin_spec("std.u8.mul"@) == Some(IRInstruction::Mul { ty: IRType::U8 }),
        fixed_builtin_spec("std.u8.div"@) == Some(IRInstruction::Div { ty: IRType::U8 }),
        fixed_builtin_spec("std.u8.eq"@) == Some(IRInstruction::Eq { ty: IRType::U8 }),
        fixed_builtin_spec("std.u8.gt"@) == Some(IRInstruction::Gt { ty: IRType::U8 }),
        fixed_builtin_spec("std.u8.lt"@) == Some(IRInstruction::Lt { ty: IRType::U8 }),
        fixed_builtin_spec("std.u16.add"@) == Some(IRInstruction::Add { ty: IRType::U16 }),
        fixed_builtin_spec("std.u16.sub"@) == Some(IRInstruction::Sub { ty: IRType::U16 }),
        fixed_builtin_spec("std.u16.mul"@) == Some(IRInstruction::Mul { ty: IRType::U16 }),
        fixed_builtin_spec("std.u16.div"@) == Some(IRInstruction::Div { ty: IRType::U16 }),
        fixed_builtin_spec("std.u16.eq"@) == Some(IRInstruction::Eq { ty: IRType::U16 }),
        fixed_builtin_spec("std.u16.gt"@) == Some(IRInstruction::Gt { ty: IRType::U16 }),
        fixed_builtin_spec("std.u16.lt"@) == Some(IRInstruction::Lt { ty: IRType::U16 }),
        fixed_builtin_spec("std.bool.eq"@) == Some(IRInstruction::Eq { ty: IRType::Bool }),
        fixed_builtin_spec("std.ptr.offset"@) == Some(IRInstruction::Add { ty: IRType::U16 }),
        fixed_builtin_spec("std.unsafe.mem.load"@) == Some(IRInstruction::Load),
        fixed_builtin_spec("std.unsafe.mem.store"@) == Some(IRInstruction::Store),
        generic_builtin_spec("std.math.add"@, ty, i) == (i matches IRInstruction::Add { ty: t } && ir_type_view(t) == ty),
        generic_builtin_spec("std.intrinsics.add"@, ty, i) == (i matches IRInstruction::Add { ty: t } && ir_type_view(t) == ty),
        generic_builtin_spec("std.math.sub"@, ty, i) == (i matches IRInstruction::Sub { ty: t } && ir_type_view(t) == ty),
        generic_builtin_spec("std.intrinsics.sub"@, ty, i) == (i matches IRInstruction::Sub { ty: t } && ir_type_view(t) == ty),
        generic_builtin_spec("std.math.mul"@, ty, i) == (i matches IRInstruction::Mul { ty: t } && ir_type_view(t) == ty),
        generic_builtin_spec("std.intrinsics.mul"@, ty, i) == (i matches IRInstruction::Mul { ty: t } && ir_type_view(t) == ty),
        generic_builtin_spec("std.math.div"@, ty, i) == (i matches IRInstruction::Div { ty: t } && ir_type_view(t) == ty),
        generic_builtin_spec("std.intrinsics.div"@, ty, i) == (i matches IRInstruction::Div { ty: t } && ir_type_view(t) == ty),
        generic_builtin_spec("std.math.eq"@, ty, i) == (i matches IRInstruction::Eq { ty: t } && ir_type_view(t) == ty),
        generic_builtin_spec("std.math.gt"@, ty, i) == (i matches IRInstruction::Gt { ty: t } && ir_type_view(t) == ty),
        generic_builtin_spec("std.math.lt"@, ty, i) == (i matches IRInstruction::Lt { ty: t } && ir_type_view(t) == ty),
{
    reveal_strlit("std.io.print");
    reveal_strlit("std.stack.call");
    reveal_strlit("std.u8.add");
    reveal_strlit("std.u8.sub");
    reveal_strlit("std.u8.mul");
    reveal_strlit("std.u8.div");
    reveal_strlit("std.u8.eq");
    reveal_strlit("std.u8.gt");
    reveal_strlit("std.u8.lt");
    reveal_strlit("std.u16.add");
    reveal_strlit("std.u16.sub");
    reveal_strlit("std.u16.mul");
    reveal_strlit("std.u16.div");
    reveal_strlit("std.u16.eq");
    reveal_strlit("std.u16.gt");
    reveal_strlit("std.u16.lt");
    reveal_strlit("std.bool.eq");
    reveal_strlit("std.ptr.offset");
    reveal_strlit("std.unsafe.mem.load");
    reveal_strlit("std.unsafe.mem.store");
    reveal_strlit("std.math.add");
    reveal_strlit("std.intrinsics.add");
    reveal_strlit("std.math.sub");
    reveal_strlit("std.intrinsics.sub");
    reveal_strlit("std.math.mul");
    reveal_strlit("std.intrinsics.mul");
    reveal_strlit("std.math.div");
    reveal_strlit("std.intrinsics.div");
    reveal_strlit("std.math.eq");
    reveal_strlit("std.math.gt");
    reveal_strlit("std.math.lt");
    assert("std.io.print"@.len() == 12);
    assert("std.stack.call"@.len() == 14);
    assert("std.u8.add"@.len() == 10);
    assert("std.u8.sub"@.len() == 10);
    assert("std.u8.mul"@.len() == 10);
    assert("std.u8.div"@.len() == 10);
    assert("std.u8.eq"@.len() == 9);
    assert("std.u8.gt"@.len() == 9);
    assert("std.u8.lt"@.len() == 9);
    assert("std.u16.add"@.len() == 11);
    assert("std.u16.sub"@.len() == 11);
    assert("std.u16.mul"@.len() == 11);
    assert("std.u16.div"@.len() == 11);
    assert("std.u16.eq"@.len() == 10);
    assert("std.u16.gt"@.len() == 10);
    assert("std.u16.lt"@.len() == 10);
    assert("std.bool.eq"@.len() == 11);
    assert("std.ptr.offset"@.len() == 14);
    assert("std.unsafe.mem.load"@.len() == 19);
    assert("std.unsafe.mem.store"@.len() == 20);
    assert("std.math.add"@.len() == 12);
    assert("std.intrinsics.add"@.len() == 18);
    assert("std.math.sub"@.len() == 12);
    assert("std.intrinsics.sub"@.len() == 18);
    assert("std.math.mul"@.len() == 12);
    assert("std.intrinsics.mul"@.len() == 18);
    assert("std.math.div"@.len() == 12);
    assert("std.intrinsics.div"@.len() == 18);
    assert("std.math.eq"@.len() == 11);
    assert("std.math.gt"@.len() == 11);
    assert("std.math.lt"@.len() == 11);
    assert("std.u8.sub"@[7] != "std.u8.add"@[7]);
    assert("std.u8.mul"@[7] != "std.u8.add"@[7]);
    assert("std.u8.mul"@[7] != "std.u8.sub"@[7]);
    assert("std.u8.div"@[7] != "std.u8.add"@[7]);
    assert("std.u8.div"@[7] != "std.u8.sub"@[7]);
    assert("std.u8.div"@[7] != "std.u8.mul"@[7]);
    assert("std.u8.gt"@[7] != "std.u8.eq"@[7]);
    assert("std.u8.lt"@[7] != "std.u8.eq"@[7]);
    assert("std.u8.lt"@[7] != "std.u8.gt"@[7]);
    assert("std.u16.sub"@[8] != "std.u16.add"@[8]);
    assert("std.u16.mul"@[8] != "std.u16.add"@[8]);
    assert("std.u16.mul"@[8] != "std.u16.sub"@[8]);
    assert("std.u16.div"@[8] != "std.u16.add"@[8]);
    assert("std.u16.div"@[8] != "std.u16.sub"@[8]);
    assert("std.u16.div"@[8] != "std.u16.mul"@[8]);
    assert("std.u16.eq"@[5] != "std.u8.add"@[5]);
    assert("std.u16.eq"@[5] != "std.u8.sub"@[5]);
    assert("std.u16.eq"@[5] != "std.u8.mul"@[5]);
    assert("std.u16.eq"@[5] != "std.u8.div"@[5]);
    assert("std.u16.gt"@[5] != "std.u8.add"@[5]);
    assert("std.u16.gt"@[5] != "std.u8.sub"@[5]);
    assert("std.u16.gt"@[5] != "std.u8.mul"@[5]);
    assert("std.u16.gt"@[5] != "std.u8.div"@[5]);
    assert("std.u16.gt"@[8] != "std.u16.eq"@[8]);
    assert("std.u16.lt"@[5] != "std.u8.add"@[5]);
    assert("std.u16.lt"@[5] != "std.u8.sub"@[5]);
    assert("std.u16.lt"@[5] != "std.u8.mul"@[5]);
    assert("std.u16.lt"@[5] != "std.u8.div"@[5]);
    assert("std.u16.lt"@[8] != "std.u16.eq"@[8]);
    assert("std.u16.lt"@[8] != "std.u16.gt"@[8]);
    assert("std.bool.eq"@[4] != "std.u16.add"@[4]);
    assert("std.bool.eq"@[4] != "std.u16.sub"@[4]);
    assert("std.bool.eq"@[4] != "std.u16.mul"@[4]);
    assert("std.bool.eq"@[4] != "std.u16.div"@[4]);
    assert("std.ptr.offset"@[4] != "std.stack.call"@[4]);
    assert("std.math.sub"@[9] != "std.math.add"@[9]);
    assert("std.intrinsics.sub"@[15] != "std.intrinsics.add"@[15]);
    assert("std.math.mul"@[9] != "std.math.add"@[9]);
    assert("std.math.mul"@[9] != "std.math.sub"@[9]);
    assert("std.intrinsics.mul"@[15] != "std.intrinsics.add"@[15]);
    assert("std.intrinsics.mul"@[15] != "std.intrinsics.sub"@[15]);
    assert("std.math.div"@[9] != "std.math.add"@[9]);
    assert("std.math.div"@[9] != "std.math.sub"@[9]);
    assert("std.math.div"@[9] != "std.math.mul"@[9]);
    assert("std.intrinsics.div"@[15] != "std.intrinsics.add"@[15]);
    assert("std.intrinsics.div"@[15] != "std.intrinsics.sub"@[15]);
    assert("std.intrinsics.div"@[15] != "std.intrinsics.mul"@[15]);
    assert("std.math.gt"@[9] != "std.math.eq"@[9]);
    assert("std.math.lt"@[9] != "std.math.eq"@[9]);
    assert("std.math.lt"@[9] != "std.math.gt"@[9]);
}

/// The built-in arithmetic and comparison words mean their operation: run
/// on a lower value and a top value, the instruction `std.u8.lt` lowers to
/// leaves true exactly when the lower is below the top; `std.u8.gt` when it
/// is above; `std.u8.eq` when they are equal; `std.u8.add` and `std.u8.mul`
/// leave the sum and the product modulo 256; `std.u8.sub` a difference that
/// the top added back turns into the lower; `std.u8.div` the quotient, or
/// the division-by-zero error for a zero divisor; the same for `u16` modulo
/// 65536; `std.bool.eq` compares booleans; and the generic `std.math` and
/// `std.intrinsics` words on bytes do as the `std.u8` ones.
#[verifier::spinoff_prover]
pub proof fn law_builtin_words_mean_their_operation(
    s: Seq<ValueView>,
    m: Seq<u8>,
    h: int,
    types: Seq<IRType>,
    a: u8,
    b: u8,
    c: u16,
    d: u16,
    p: bool,
    q: bool,
    i: IRInstruction,
)
    ensures
        fixed_builtin_spec("std.u8.lt"@) matches Some(x) && leaves(effect(s.push(ValueView::U8(a)).push(ValueView::U8(b)), m, h, types, x), s, m, h, ValueView::Bool(a < b)),
        fixed_builtin_spec("std.u8.gt"@) matches Some(x) && leaves(effect(s.push(ValueView::U8(a)).push(ValueView::U8(b)), m, h, types, x), s, m, h, ValueView::Bool(a > b)),
        fixed_builtin_spec("std.u8.eq"@) matches Some(x) && leaves(effect(s.push(ValueView::U8(a)).push(ValueView::U8(b)), m, h, types, x), s, m, h, ValueView::Bool(a == b)),
        fixed_builtin_spec("std.u8.add"@) matches Some(x) && leaves(effect(s.push(ValueView::U8(a)).push(ValueView::U8(b)), m, h, types, x), s, m, h, ValueView::U8(((a + b) % 256) as u8)),
        fixed_builtin_spec("std.u8.mul"@) matches Some(x) && leaves(effect(s.push(ValueView::U8(a)).push(ValueView::U8(b)), m, h, types, x), s, m, h, ValueView::U8(((a * b) % 256) as u8)),
        fixed_builtin_spec("std.u8.sub"@) matches Some(x) && exists|r: u8| (r + b) % 256 == a && #[trigger] leaves(effect(s.push(ValueView::U8(a)).push(ValueView::U8(b)), m, h, types, x), s, m, h, ValueView::U8(r)),
        fixed_builtin_spec("std.u8.div"@) matches Some(x) && (b != 0 ==> exists|r: u8| r * b <= a < r * b + b && #[trigger] leaves(effect(s.push(ValueView::U8(a)).push(ValueView::U8(b)), m, h, types, x), s, m, h, ValueView::U8(r))),
        fixed_builtin_spec("std.u8.div"@) matches Some(x) && (b == 0 ==> effect(s.push(ValueView::U8(a)).push(ValueView::U8(b)), m, h, types, x) == (Effect::Error { label: "division by zero"@ })),
        fixed_builtin_spec("std.u16.lt"@) matches Some(x) && leaves(effect(s.push(ValueView::U16(c)).push(ValueView::U16(d)), m, h, types, x), s, m, h, ValueView::Bool(c < d)),
        fixed_builtin_spec("std.u16.gt"@) matches Some(x) && leaves(effect(s.push(ValueView::U16(c)).push(ValueView::U16(d)), m, h, types, x), s, m, h, ValueView::Bool(c > d)),
        fixed_builtin_spec("std.u16.eq"@) matches Some(x) && leaves(effect(s.push(ValueView::U16(c)).push(ValueView::U16(d)), m, h, types, x), s, m, h, ValueView::Bool(c == d)),
        fixed_builtin_spec("std.u16.add"@) matches Some(x) && leaves(effect(s.push(ValueView::U16(c)).push(ValueView::U16(d)), m, h, types, x), s, m, h, ValueView::U16(((c + d) % 65536) as u16)),
        fixed_builtin_spec("std.u16.mul"@) matches Some(x) && leaves(effect(s.push(ValueView::U16(c)).push(ValueView::U16(d)), m, h, types, x), s, m, h, ValueView::U16(((c * d) % 65536) as u16)),
        fixed_builtin_spec("std.u16.sub"@) matches Some(x) && exists|r: u16| (r + d) % 65536 == c && #[trigger] leaves(effect(s.push(ValueView::U16(c)).push(ValueView::U16(d)), m, h, types, x), s, m, h, ValueView::U16(r)),
        fixed_builtin_spec("std.u16.div"@) matches Some(x) && (d != 0 ==> exists|r: u16| r * d <= c < r * d + d && #[trigger] leaves(effect(s.push(ValueView::U16(c)).push(ValueView::U16(d)), m, h, types, x), s, m, h, ValueView::U16(r))),
        fixed_builtin_spec("std.bool.eq"@) matches Some(x) && leaves(effect(s.push(ValueView::Bool(p)).push(ValueView::Bool(q)), m, h, types, x), s, m, h, ValueView::Bool(p == q)),
        generic_builtin_spec("std.math.lt"@, IRTypeView::U8, i) ==> leaves(effect(s.push(ValueView::U8(a)).push(ValueView::U8(b)), m, h, types, i), s, m, h, ValueView::Bool(a < b)),
        generic_builtin_spec("std.math.gt"@, IRTypeView::U8, i) ==> leaves(effect(s.push(ValueView::U8(a)).push(ValueView::U8(b)), m, h, types, i), s, m, h, ValueView::Bool(a > b)),
        generic_builtin_spec("std.math.eq"@, IRTypeView::U8, i) ==> leaves(effect(s.push(ValueView::U8(a)).push(ValueView::U8(b)), m, h, types, i), s, m, h, ValueView::Bool(a == b)),
        generic_builtin_spec("std.math.add"@, IRTypeView::U8, i) ==> leaves(effect(s.push(ValueView::U8(a)).push(ValueView::U8(b)), m, h, types, i), s, m, h, ValueView::U8(((a + b) % 256) as u8)),
        generic_builtin_spec("std.intrinsics.add"@, IRTypeView::U8, i) ==> leaves(effect(s.push(ValueView::U8(a)).push(ValueView::U8(b)), m, h, types, i), s, m, h, ValueView::U8(((a + b) % 256) as u8)),
        generic_builtin_spec("std.math.mul"@, IRTypeView::U8, i) ==> leaves(effect(s.push(ValueView::U8(a)).push(ValueView::U8(b)), m, h, types, i), s, m, h, ValueView::U8(((a * b) % 256) as u8)),
        generic_builtin_spec("std.intrinsics.mul"@, IRTypeView::U8, i) ==> leaves(effect(s.push(ValueView::U8(a)).push(ValueView::U8(b)), m, h, types, i), s, m, h, ValueView::U8(((a * b) % 256) as u8)),
        generic_builtin_spec("std.math.sub"@, IRTypeView::U8, i) ==> exists|r: u8| (r + b) % 256 == a && #[trigger] leaves(effect(s.push(ValueView::U8(a)).push(ValueView::U8(b)), m, h, types, i), s, m, h, ValueView::U8(r)),
        generic_builtin_spec("std.intrinsics.sub"@, IRTypeView::U8, i) ==> exists|r: u8| (r + b) % 256 == a && #[trigger] leaves(effect(s.push(ValueView::U8(a)).push(ValueView::U8(b)), m, h, types, i), s, m, h, ValueView::U8(r)),
        generic_builtin_spec("std.math.div"@, IRTypeView::U8, i) && b != 0 ==> exists|r: u8| r * b <= a < r * b + b && #[trigger] leaves(effect(s.push(ValueView::U8(a)).push(ValueView::U8(b)), m, h, types, i), s, m, h, ValueView::U8(r)),
        generic_builtin_spec("std.intrinsics.div"@, IRTypeView::U8, i) && b != 0 ==> exists|r: u8| r * b <= a < r * b + b && #[trigger] leaves(effect(s.push(ValueView::U8(a)).push(ValueView::U8(b)), m, h, types, i), s, m, h, ValueView::U8(r)),
{
    lemma_builtin_table(IRTypeView::U8, i);
    law_compare_bytes(s, m, h, types, IRType::U8, a, b);
    law_compare_words(s, m, h, types, IRType::U16, c, d);
    law_arith_bytes(s, m, h, types, IRType::U8, a, b);
    law_arith_words(s, m, h, types, IRType::U16, c, d);
    law_compare_booleans(s, m, h, types, IRType::Bool, p, q);
    match i {
        IRInstruction::Lt { ty } => law_compare_bytes(s, m, h, types, ty, a, b),
        IRInstruction::Gt { ty } => law_compare_bytes(s, m, h, types, ty, a, b),
        IRInstruction::Eq { ty } => law_compare_bytes(s, m, h, types, ty, a, b),
        IRInstruction::Add { ty } => law_arith_bytes(s, m, h, types, ty, a, b),
        IRInstruction::Sub { ty } => law_arith_bytes(s, m, h, types, ty, a, b),
        IRInstruction::Mul { ty } => law_arith_bytes(s, m, h, types, ty, a, b),
        IRInstruction::Div { ty } => law_arith_bytes(s, m, h, types, ty, a, b),
        _ => {},
    }
}

/// The other built-in words: `std.io.print` writes the byte on top out;
/// `std.unsafe.mem.store` writes a byte at an address and
/// `std.unsafe.mem.load` reads back the byte at an address; `std.ptr.offset`
/// adds an offset to an address modulo 65536; `std.stack.call` calls the
/// word whose reference is on top.
#[verifier::spinoff_prover]
pub proof fn law_builtin_memory_and_call_words(
    s: Seq<ValueView>,
    m: Seq<u8>,
    h: int,
    types: Seq<IRType>,
    v: u8,
    a: u16,
    d: u16,
    w: WordId,
)
    ensures
        fixed_builtin_spec("std.io.print"@) matches Some(x) && effect(s.push(ValueView::U8(v)), m, h, types, x) == (Effect::Output { stack: s, byte: v }),
        fixed_builtin_spec("std.unsafe.mem.store"@) matches Some(x) && (a < m.len() ==> goes_on(effect(s.push(ValueView::U16(a)).push(ValueView::U8(v)), m, h, types, x), s, m.update(a as int, v), h)),
        fixed_builtin_spec("std.unsafe.mem.load"@) matches Some(x) && (a < m.len() ==> goes_on(effect(s.push(ValueView::U16(a)), m, h, types, x), s.push(ValueView::U8(m[a as int])), m, h)),
        fixed_builtin_spec("std.ptr.offset"@) matches Some(x) && leaves(effect(s.push(ValueView::U16(a)).push(ValueView::U16(d)), m, h, types, x), s, m, h, ValueView::U16(((a + d) % 65536) as u16)),
        fixed_builtin_spec("std.stack.call"@) matches Some(x) && effect(s.push(ValueView::Lambda(w)), m, h, types, x) == (Effect::Call { stack: s, word: w }),
{
    lemma_builtin_table(IRTypeView::U8, IRInstruction::Print);
    law_arith_words(s, m, h, types, IRType::U16, a, d);
    law_load_reads_what_store_wrote(s, m, h, types, a, a, v);
    assert(s.push(ValueView::U8(v)).drop_last() =~= s);
    assert(s.push(ValueView::U16(a)).drop_last() =~= s);
    assert(s.push(ValueView::Lambda(w)).drop_last() =~= s);
}

} // verus!
