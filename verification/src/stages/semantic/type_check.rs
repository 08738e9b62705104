//! The third semantic stage: checks that every word's body turns its input
//! stack into its output stack.
use vstd::prelude::*;

use crate::common::{CompileContext, DottedPath, Span, Spanned};
use crate::error::{CompileError, Diagnostics, errors_only, lemma_emit_keeps_errors_only};
use crate::pipeline::{Stage, StageResult};
use crate::stages::semantic::context::{HIRContext, SymbolId, SymbolKind, path_key};
use crate::stages::semantic::hir::{
    HIRInstruction, HIRLiteral, HIRModule, HIRProgram, HIRType, HIRWord, HIRWordAttribute, TypeView,
    copy_type, copy_types, spanned_values, spanned_view, type_view, types_view,
};
use crate::stages::semantic::stack_analysis::{StackAnalysis, Substitution, call_result};

verus! {

/// The type of a built-in type name, where the table has it.
pub open spec fn builtin_type(ctx: &HIRContext, name: Seq<char>) -> Option<TypeView> {
    match ctx.find(name) {
        Some(i) => Some(TypeView::BuiltIn(SymbolId(i as usize))),
        None => None,
    }
}

/// The type of a string literal: its bytes.
pub open spec fn string_type(ctx: &HIRContext, s: Seq<char>) -> Option<TypeView> {
    match builtin_type(ctx, "u8"@) {
        Some(u8t) => Some(TypeView::Array { element: Box::new(u8t), size: s.len() as usize }),
        None => None,
    }
}

/// A call of an effect: the stack matched its inputs and now holds its
/// outputs, for some binding of its variables.
pub open spec fn effect_applies(
    before: Seq<TypeView>,
    stack_in: Seq<TypeView>,
    stack_out: Seq<TypeView>,
    after: Seq<TypeView>,
) -> bool {
    exists|s: Substitution| #[trigger] call_result(&s, before, stack_in, stack_out) == Some(after)
}

/// A stack between two instructions.
pub open spec fn stack_state(s: Seq<TypeView>) -> bool {
    true
}

/// How many instructions an instruction is made of, lambda bodies included.
pub open spec fn hir_instruction_size(i: HIRInstruction) -> nat
    decreases i,
{
    match i {
        HIRInstruction::Lambda { body, .. } => 1 + hir_body_size(body@),
        _ => 1,
    }
}

pub open spec fn hir_body_size(body: Seq<Spanned<HIRInstruction>>) -> nat
    decreases body,
{
    if body.len() == 0 {
        0
    } else {
        hir_body_size(body.drop_last()) + hir_instruction_size(body.last().value)
    }
}

/// One instruction takes the stack from `before` to `after`.
pub open spec fn instruction_step(
    ctx: &HIRContext,
    instr: HIRInstruction,
    before: Seq<TypeView>,
    after: Seq<TypeView>,
) -> bool
    decreases hir_instruction_size(instr), 0nat,
{
    match instr {
        HIRInstruction::Call { symbol_id, .. } => symbol_id.0 < ctx.symbols@.len() && match ctx.symbols@[
            symbol_id.0 as int] {
            SymbolKind::Word { stack_in, stack_out, .. } => effect_applies(
                before,
                spanned_view(stack_in@),
                spanned_view(stack_out@),
                after,
            ),
            _ => false,
        },
        HIRInstruction::Literal(HIRLiteral::Bool(_)) => builtin_type(ctx, "bool"@) matches Some(t)
            && after == before.push(t),
        HIRInstruction::Literal(HIRLiteral::U8(_)) => builtin_type(ctx, "u8"@) matches Some(t)
            && after == before.push(t),
        HIRInstruction::Literal(HIRLiteral::U16(_)) => builtin_type(ctx, "u16"@) matches Some(t)
            && after == before.push(t),
        HIRInstruction::Literal(HIRLiteral::String(s)) => string_type(ctx, s@) matches Some(t)
            && after == before.push(t),
        HIRInstruction::Pack { struct_id, .. } => struct_id.0 < ctx.symbols@.len() && match ctx.symbols@[
            struct_id.0 as int] {
            SymbolKind::Struct { fields, .. } => effect_applies(
                before,
                spanned_view(fields@),
                seq![TypeView::Struct(struct_id)],
                after,
            ),
            _ => false,
        },
        HIRInstruction::Unpack { struct_id, .. } => struct_id.0 < ctx.symbols@.len() && match ctx.symbols@[
            struct_id.0 as int] {
            SymbolKind::Struct { fields, .. } => effect_applies(
                before,
                seq![TypeView::Struct(struct_id)],
                spanned_view(fields@),
                after,
            ),
            _ => false,
        },
        HIRInstruction::GetField { struct_id, field_index, .. } => struct_id.0 < ctx.symbols@.len()
            && match ctx.symbols@[struct_id.0 as int] {
            SymbolKind::Struct { fields, .. } => field_index < fields@.len() && effect_applies(
                before,
                seq![TypeView::Struct(struct_id)],
                seq![type_view(fields@[field_index as int].value)],
                after,
            ),
            _ => false,
        },
        HIRInstruction::Lambda { stack_in, stack_out, body } => after == before.push(
            TypeView::Lambda { stack_in: types_view(stack_in@), stack_out: types_view(stack_out@) },
        ) && body_checks(ctx, body@, types_view(stack_in@), types_view(stack_out@)),
    }
}

/// The instructions, one after another, take the stack from `start` to
/// `end`.
pub open spec fn body_checks(
    ctx: &HIRContext,
    body: Seq<Spanned<HIRInstruction>>,
    start: Seq<TypeView>,
    end: Seq<TypeView>,
) -> bool
    decreases hir_body_size(body), 1nat,
{
    if body.len() == 0 {
        start == end
    } else {
        proof {
            assert(hir_instruction_size(body.last().value) >= 1);
        }
        exists|mid: Seq<TypeView>|
            #[trigger] stack_state(mid) && body_checks(ctx, body.drop_last(), start, mid) && instruction_step(
                ctx,
                body.last().value,
                mid,
                end,
            )
    }
}

proof fn lemma_body_checks_step(
    ctx: &HIRContext,
    body: Seq<Spanned<HIRInstruction>>,
    start: Seq<TypeView>,
    mid: Seq<TypeView>,
    end: Seq<TypeView>,
)
    requires
        body.len() > 0,
        body_checks(ctx, body.drop_last(), start, mid),
        instruction_step(ctx, body.last().value, mid, end),
    ensures
        body_checks(ctx, body, start, end),
{
    assert(stack_state(mid));
}

/// The errors of type checking.
pub open spec fn is_type_error(e: CompileError) -> bool {
    ||| e is InvalidStack
    ||| e is CannotInferType
    ||| e is SymbolNotFound
    ||| e is InvalidFieldIndex
    ||| e is InvalidStringLiteral
}

/// Whether every character is ASCII.
fn is_ascii_text(s: &str) -> (r: bool)
    ensures
        r == forall|i: int| 0 <= i < s@.len() ==> s@[i] <= '\x7f',
{
    let n = s.unicode_len();
    let mut i: usize = 0;
    while i < n
        invariant
            n == s@.len(),
            i <= n,
            forall|j: int| 0 <= j < i ==> s@[j] <= '\x7f',
        decreases n - i,
    {
        if s.get_char(i) > '\x7f' {
            return false;
        }
        i += 1;
    }
    true
}

/// The symbol an instruction names is not of the kind it needs: a call of
/// a symbol that is no word, or a struct instruction on one that is no
/// struct.
pub open spec fn instruction_fails_at(ctx: &HIRContext, i: HIRInstruction) -> bool {
    match i {
        HIRInstruction::Call { symbol_id, .. } => !(symbol_id.0 < ctx.symbols@.len()
            && ctx.symbols@[symbol_id.0 as int] is Word),
        HIRInstruction::Pack { struct_id, .. } => !(struct_id.0 < ctx.symbols@.len()
            && ctx.symbols@[struct_id.0 as int] is Struct),
        HIRInstruction::Unpack { struct_id, .. } => !(struct_id.0 < ctx.symbols@.len()
            && ctx.symbols@[struct_id.0 as int] is Struct),
        HIRInstruction::GetField { struct_id, .. } => !(struct_id.0 < ctx.symbols@.len()
            && ctx.symbols@[struct_id.0 as int] is Struct),
        _ => false,
    }
}

/// The result is the error that the symbol was not found, at the span.
pub open spec fn not_found_at(r: Result<Spanned<HIRInstruction>, CompileError>, span: Span) -> bool {
    r matches Err(CompileError::SymbolNotFound { span: s, .. }) && s == span
}

/// A field read of a struct that has no field of that number.
pub open spec fn field_out_of_range(ctx: &HIRContext, i: HIRInstruction) -> bool {
    i matches HIRInstruction::GetField { struct_id, field_index, .. } && struct_id.0 < ctx.symbols@.len() && (
    ctx.symbols@[struct_id.0 as int] matches SymbolKind::Struct { fields, .. } && field_index >= fields@.len())
}

/// The result is the error that the field number is out of range, with
/// the number, the struct's field count and the span.
pub open spec fn field_index_error_at(
    r: Result<Spanned<HIRInstruction>, CompileError>,
    i: HIRInstruction,
    span: Span,
    ctx: &HIRContext,
) -> bool {
    r matches Err(CompileError::InvalidFieldIndex { index, field_count, span: s, .. }) && s == span && (
    i matches HIRInstruction::GetField { struct_id, field_index, .. } && index == field_index && (
    ctx.symbols@[struct_id.0 as int] matches SymbolKind::Struct { fields, .. } && field_count == fields@.len()))
}

/// The word as the stage gives it back: a built-in word unchanged, any
/// other checked, with its signature, id and span.
pub open spec fn word_checked(ctx: &HIRContext, w: Spanned<HIRWord>, out: Spanned<HIRWord>) -> bool {
    &&& out.span == w.span
    &&& w.value.attributes@.contains(HIRWordAttribute::BuiltIn) ==> out == w
    &&& !w.value.attributes@.contains(HIRWordAttribute::BuiltIn) ==> {
        &&& body_checks(
            ctx,
            out.value.body@,
            spanned_view(w.value.signature.stack_in@),
            spanned_view(w.value.signature.stack_out@),
        )
        &&& out.value.signature == w.value.signature
        &&& out.value.id == w.value.id
        &&& out.value.entrypoint == w.value.entrypoint
    }
}

/// `outs` are the words of `ins` in order, each checked, but for `errors`
/// words that are not built in and were left out.
pub open spec fn words_checked(
    ctx: &HIRContext,
    ins: Seq<Spanned<HIRWord>>,
    outs: Seq<Spanned<HIRWord>>,
    errors: int,
) -> bool
    decreases ins.len(),
{
    if ins.len() == 0 {
        outs.len() == 0 && errors == 0
    } else {
        ||| (outs.len() > 0 && word_checked(ctx, ins.last(), outs.last()) && words_checked(
            ctx,
            ins.drop_last(),
            outs.drop_last(),
            errors,
        ))
        ||| (!ins.last().value.attributes@.contains(HIRWordAttribute::BuiltIn) && errors > 0 && words_checked(
            ctx,
            ins.drop_last(),
            outs,
            errors - 1,
        ))
    }
}

/// The sum of the counts.
pub open spec fn count_sum(counts: Seq<int>) -> int
    decreases counts.len(),
{
    if counts.len() == 0 {
        0
    } else {
        count_sum(counts.drop_last()) + counts.last()
    }
}

/// `outs` are the modules of `ins`, each with its words checked, module
/// `k` leaving out `counts[k]` of them.
pub open spec fn modules_checked(ctx: &HIRContext, ins: Seq<HIRModule>, outs: Seq<HIRModule>, counts: Seq<int>) -> bool {
    &&& outs.len() == ins.len()
    &&& counts.len() == ins.len()
    &&& forall|k: int|
        0 <= k < ins.len() ==> {
            &&& (#[trigger] outs[k]).id == ins[k].id
            &&& outs[k].imports == ins[k].imports
            &&& outs[k].structs == ins[k].structs
            &&& words_checked(ctx, ins[k].words@, outs[k].words@, counts[k])
        }
}

/// Checks that word bodies turn their input stacks into their output stacks.
pub struct TypeCheckStage;

impl TypeCheckStage {
    /// The built-in type of a name, where the table has it.
    fn builtin(ctx: &HIRContext, name: &str, span: Span) -> (r: Result<HIRType, CompileError>)
        ensures
            r matches Ok(t) ==> Some(type_view(t)) == builtin_type(ctx, name@),
            r is Err ==> builtin_type(ctx, name@) is None,
            r matches Err(e) ==> e is SymbolNotFound,
    {
        let path = DottedPath::parse(name);
        proof {
            crate::common::lemma_dotted_text_roundtrip(name@);
        }
        match ctx.lookup(&path) {
            Some(id) => Ok(HIRType::BuiltIn(id)),
            None => Err(CompileError::SymbolNotFound { name: String::from_str(name), span }),
        }
    }
}

impl TypeCheckStage {
    /// The types the callee's type variables are bound to; an unbound one
    /// stays a variable.
    fn type_args(s: &Substitution, typevars: &Vec<Spanned<SymbolId>>) -> (r: Vec<HIRType>)
        ensures
            r@.len() == typevars@.len(),
    {
        let mut r: Vec<HIRType> = Vec::new();
        let mut i: usize = 0;
        while i < typevars.len()
            invariant
                i <= typevars@.len(),
                r@.len() == i,
            decreases typevars@.len() - i,
        {
            let v = typevars[i].value;
            let mut found: Option<HIRType> = None;
            let mut k: usize = 0;
            while k < s.type_vars.len()
                decreases s.type_vars@.len() - k,
            {
                if found.is_none() && s.type_vars[k].0.0 == v.0 {
                    found = Some(copy_type(&s.type_vars[k].1));
                }
                k += 1;
            }
            match found {
                Some(t) => r.push(t),
                None => r.push(HIRType::TypeVar(v)),
            }
            i += 1;
        }
        r
    }

    /// Applies one instruction to the stack; a call gets the types its type
    /// variables were bound to.
    fn type_check_instruction(
        ctx: &HIRContext,
        instruction: Spanned<HIRInstruction>,
        analysis: &mut StackAnalysis,
    ) -> (r: Result<Spanned<HIRInstruction>, CompileError>)
        requires
            old(analysis).hir_ctx == ctx,
        ensures
            final(analysis).hir_ctx == ctx,
            r matches Ok(checked) ==> instruction_step(
                ctx,
                checked.value,
                types_view(old(analysis).stack@),
                types_view(final(analysis).stack@),
            ) && checked.span == instruction.span,
            r matches Err(e) ==> is_type_error(e),
            instruction_fails_at(ctx, instruction.value) ==> not_found_at(r, instruction.span),
            field_out_of_range(ctx, instruction.value) ==> field_index_error_at(r, instruction.value, instruction.span, ctx),
        decreases hir_instruction_size(instruction.value), 0nat,
    {
        let span = instruction.span;
        match instruction.value {
            HIRInstruction::Call { name, symbol_id, type_args: _ } => match ctx.get(symbol_id) {
                Some(SymbolKind::Word { stack_in, stack_out, typevars, .. }) => {
                    let s = analysis.apply_call(spanned_values(stack_in), spanned_values(stack_out), span)?;
                    let type_args = Self::type_args(&s, typevars);
                    Ok(Spanned::new(HIRInstruction::Call { name, symbol_id, type_args }, span))
                },
                _ => Err(CompileError::SymbolNotFound { name, span }),
            },
            HIRInstruction::Literal(literal) => {
                let t = match &literal {
                    HIRLiteral::Bool(_) => Self::builtin(ctx, "bool", span)?,
                    HIRLiteral::U8(_) => Self::builtin(ctx, "u8", span)?,
                    HIRLiteral::U16(_) => Self::builtin(ctx, "u16", span)?,
                    HIRLiteral::String(s) => {
                        if !is_ascii_text(s.as_str()) {
                            return Err(CompileError::InvalidStringLiteral { span });
                        }
                        let u8t = Self::builtin(ctx, "u8", span)?;
                        HIRType::Array { element: Box::new(u8t), size: s.unicode_len() }
                    },
                };
                analysis.push(t);
                Ok(Spanned::new(HIRInstruction::Literal(literal), span))
            },
            HIRInstruction::Pack { name, struct_id } => match ctx.get(struct_id) {
                Some(SymbolKind::Struct { fields, .. }) => {
                    let mut out: Vec<HIRType> = Vec::new();
                    out.push(HIRType::Struct(struct_id));
                    proof {
                        assert(types_view(out@) =~= seq![TypeView::Struct(struct_id)]) by {
                            crate::stages::semantic::hir::lemma_types_view(out@);
                        }
                    }
                    let s = analysis.apply_call(spanned_values(fields), out, span)?;
                    Ok(Spanned::new(HIRInstruction::Pack { name, struct_id }, span))
                },
                _ => Err(CompileError::SymbolNotFound { name, span }),
            },
            HIRInstruction::Unpack { name, struct_id } => match ctx.get(struct_id) {
                Some(SymbolKind::Struct { fields, .. }) => {
                    let mut inp: Vec<HIRType> = Vec::new();
                    inp.push(HIRType::Struct(struct_id));
                    proof {
                        assert(types_view(inp@) =~= seq![TypeView::Struct(struct_id)]) by {
                            crate::stages::semantic::hir::lemma_types_view(inp@);
                        }
                    }
                    let s = analysis.apply_call(inp, spanned_values(fields), span)?;
                    Ok(Spanned::new(HIRInstruction::Unpack { name, struct_id }, span))
                },
                _ => Err(CompileError::SymbolNotFound { name, span }),
            },
            HIRInstruction::GetField { name, struct_id, field_index } => match ctx.get(struct_id) {
                Some(SymbolKind::Struct { fields, .. }) => {
                    if field_index >= fields.len() {
                        return Err(
                            CompileError::InvalidFieldIndex {
                                name,
                                index: field_index,
                                field_count: fields.len(),
                                span,
                            },
                        );
                    }
                    let mut inp: Vec<HIRType> = Vec::new();
                    inp.push(HIRType::Struct(struct_id));
                    let mut out: Vec<HIRType> = Vec::new();
                    out.push(copy_type(&fields[field_index].value));
                    proof {
                        crate::stages::semantic::hir::lemma_types_view(inp@);
                        crate::stages::semantic::hir::lemma_types_view(out@);
                        assert(types_view(inp@) =~= seq![TypeView::Struct(struct_id)]);
                        assert(types_view(out@) =~= seq![type_view(fields@[field_index as int].value)]);
                    }
                    let s = analysis.apply_call(inp, out, span)?;
                    Ok(Spanned::new(HIRInstruction::GetField { name, struct_id, field_index }, span))
                },
                _ => Err(CompileError::SymbolNotFound { name, span }),
            },
            HIRInstruction::Lambda { stack_in, stack_out, body } => {
                analysis.push(HIRType::Lambda { stack_in: copy_types(&stack_in), stack_out: copy_types(&stack_out) });
                let mut inner = StackAnalysis::new(ctx, copy_types(&stack_in));
                let last_span = if body.len() > 0 {
                    Some(body[body.len() - 1].span)
                } else {
                    None
                };
                let body = Self::check_body(ctx, body, &mut inner)?;
                let mut extra: Vec<Span> = Vec::new();
                match last_span {
                    Some(sp) => extra.push(sp),
                    None => {},
                }
                inner.match_stack(&stack_out, span, extra)?;
                Ok(Spanned::new(HIRInstruction::Lambda { stack_in, stack_out, body }, span))
            },
        }
    }

    /// Applies the instructions one after another.
    fn check_body(ctx: &HIRContext, body: Vec<Spanned<HIRInstruction>>, analysis: &mut StackAnalysis) -> (r:
        Result<Vec<Spanned<HIRInstruction>>, CompileError>)
        requires
            old(analysis).hir_ctx == ctx,
        ensures
            final(analysis).hir_ctx == ctx,
            r matches Ok(checked) ==> body_checks(
                ctx,
                checked@,
                types_view(old(analysis).stack@),
                types_view(final(analysis).stack@),
            ) && checked@.len() == body@.len(),
            r matches Err(e) ==> is_type_error(e),
        decreases hir_body_size(body@), 1nat,
    {
        let ghost start = types_view(analysis.stack@);
        let ghost original = body@;
        let mut rest = body;
        let mut checked: Vec<Spanned<HIRInstruction>> = Vec::new();
        let ghost mut taken: Seq<Spanned<HIRInstruction>> = Seq::empty();
        while rest.len() > 0
            invariant
                analysis.hir_ctx == ctx,
                start == types_view(old(analysis).stack@),
                original == body@,
                taken + rest@ == original,
                checked@.len() == taken.len(),
                body_checks(ctx, checked@, start, types_view(analysis.stack@)),
            decreases rest@.len(),
        {
            let ghost mid = types_view(analysis.stack@);
            let ghost before = checked@;
            let instruction = rest.remove(0);
            proof {
                assert(original =~= taken.push(instruction) + rest@);
                lemma_hir_body_size_prefix(original, taken.len() as int);
                assert(original[taken.len() as int] == instruction);
            }
            let done = Self::type_check_instruction(ctx, instruction, analysis)?;
            checked.push(done);
            proof {
                taken = taken.push(instruction);
                assert(checked@.drop_last() =~= before);
                assert(stack_state(mid));
                lemma_body_checks_step(ctx, checked@, start, mid, types_view(analysis.stack@));
            }
        }
        Ok(checked)
    }

    /// A word's body turns its input stack into its output stack; the
    /// checked word has its calls' type arguments.
    pub fn type_check_word(word: HIRWord, ctx: &HIRContext) -> (r: Result<HIRWord, CompileError>)
        ensures
            r matches Ok(checked) ==> body_checks(
                ctx,
                checked.body@,
                spanned_view(word.signature.stack_in@),
                spanned_view(word.signature.stack_out@),
            ) && checked.signature == word.signature && checked.id == word.id && checked.entrypoint
                == word.entrypoint,
            r matches Err(e) ==> is_type_error(e),
    {
        let HIRWord { id, signature, body, attributes, entrypoint, substitutions } = word;
        let mut analysis = StackAnalysis::new(ctx, spanned_values(&signature.stack_in));
        let last_span = if body.len() > 0 {
            Some(body[body.len() - 1].span)
        } else {
            None
        };
        let body = Self::check_body(ctx, body, &mut analysis)?;
        let expected = spanned_values(&signature.stack_out);
        let mut extra: Vec<Span> = Vec::new();
        match last_span {
            Some(sp) => extra.push(sp),
            None => {},
        }
        analysis.match_stack(&expected, signature.stack_effect_span, extra)?;
        Ok(HIRWord { id, signature, body, attributes, entrypoint, substitutions })
    }
}

/// The size of a body bounds the size of each of its instructions.
pub proof fn lemma_hir_body_size_prefix(body: Seq<Spanned<HIRInstruction>>, i: int)
    requires
        0 <= i < body.len(),
    ensures
        hir_instruction_size(body[i].value) <= hir_body_size(body),
    decreases body.len(),
{
    if i < body.len() - 1 {
        assert(body.drop_last()[i] == body[i]);
        lemma_hir_body_size_prefix(body.drop_last(), i);
    }
}

/// Whether the word is provided by the compiler.
pub fn is_builtin(word: &HIRWord) -> (r: bool)
    ensures
        r == word.attributes@.contains(HIRWordAttribute::BuiltIn),
{
    let mut i: usize = 0;
    while i < word.attributes.len()
        invariant
            i <= word.attributes@.len(),
            forall|j: int| 0 <= j < i ==> word.attributes@[j] != HIRWordAttribute::BuiltIn,
        decreases word.attributes@.len() - i,
    {
        if word.attributes[i] == HIRWordAttribute::BuiltIn {
            assert(word.attributes@[i as int] == HIRWordAttribute::BuiltIn);
            return true;
        }
        i += 1;
    }
    false
}

impl Stage<CompileContext> for TypeCheckStage {
    type Input = (HIRContext, HIRProgram);

    type Output = (HIRContext, HIRProgram);

    open spec fn runs(
        &self,
        input: Self::Input,
        context: CompileContext,
        after: Self,
        after_context: CompileContext,
        result: StageResult<Self::Output>,
    ) -> bool {
        &&& (errors_only(result.diagnostics))
        &&& (result.output matches Some((ctx, p)) && ctx == input.0 && exists|counts: Seq<int>|
            #[trigger] modules_checked(&ctx, input.1.modules@, p.modules@, counts) && count_sum(counts)
                == result.diagnostics.errors@.len())
        &&& (after_context == context)
    }

    /// Checks every word that is not built in, and gives the program with
    /// the calls' type arguments; each word that does not check is reported.
    fn execute(&mut self, input: (HIRContext, HIRProgram), context: &mut CompileContext) -> (r: StageResult<
        (HIRContext, HIRProgram),
    >)
    {
        let mut diagnostics = Diagnostics::new();
        let (ctx, program) = input;
        let ghost all_modules = program.modules@;
        let mut modules_in = program.modules;
        let mut modules_out: Vec<HIRModule> = Vec::new();
        let ghost n = modules_in@.len();
        let ghost mut counts: Seq<int> = Seq::empty();
        while modules_in.len() > 0
            invariant
                errors_only(diagnostics),
                modules_out@.len() + modules_in@.len() == n,
                n == all_modules.len(),
                modules_in@ == all_modules.subrange(modules_out@.len() as int, n as int),
                modules_checked(&ctx, all_modules.subrange(0, modules_out@.len() as int), modules_out@, counts),
                count_sum(counts) == diagnostics.errors@.len(),
            decreases modules_in@.len(),
        {
            let ghost done = modules_out@.len() as int;
            let ghost module_in = modules_in@[0];
            let HIRModule { id, imports, structs, words } = modules_in.remove(0);
            let ghost all_words = words@;
            let ghost e0 = diagnostics.errors@.len() as int;
            let mut words_in = words;
            let mut words_out: Vec<Spanned<HIRWord>> = Vec::new();
            let ghost mut taken: Seq<Spanned<HIRWord>> = Seq::empty();
            while words_in.len() > 0
                invariant
                    errors_only(diagnostics),
                    taken + words_in@ == all_words,
                    diagnostics.errors@.len() >= e0,
                    words_checked(&ctx, taken, words_out@, diagnostics.errors@.len() - e0),
                decreases words_in@.len(),
            {
                let ghost before_out = words_out@;
                let ghost before_errors = diagnostics.errors@.len() - e0;
                let word = words_in.remove(0);
                let ghost w = word;
                proof {
                    assert(taken.push(w).drop_last() =~= taken);
                    assert(taken.push(w).last() == w);
                    assert(all_words =~= taken.push(w) + words_in@);
                }
                let span = word.span;
                if is_builtin(&word.value) {
                    words_out.push(word);
                    proof {
                        assert(words_out@.drop_last() =~= before_out);
                        assert(word_checked(&ctx, w, words_out@.last()));
                    }
                } else {
                    match Self::type_check_word(word.value, &ctx) {
                        Ok(checked) => {
                            words_out.push(Spanned::new(checked, span));
                            proof {
                                assert(words_out@.drop_last() =~= before_out);
                                assert(word_checked(&ctx, w, words_out@.last()));
                            }
                        },
                        Err(e) => {
                            let ghost before = diagnostics;
                            diagnostics.emit_fatal(e);
                            proof {
                                lemma_emit_keeps_errors_only(before, diagnostics, e);
                                assert(diagnostics.errors@.len() - e0 == before_errors + 1);
                            }
                        },
                    }
                }
                proof {
                    taken = taken.push(w);
                }
            }
            proof {
                assert(taken =~= all_words);
            }
            let ghost count = diagnostics.errors@.len() - e0;
            let ghost before_modules = modules_out@;
            let ghost before_counts = counts;
            modules_out.push(HIRModule { id, imports, structs, words: words_out });
            proof {
                counts = counts.push(count);
                assert(counts.drop_last() =~= before_counts);
                let ins = all_modules.subrange(0, modules_out@.len() as int);
                assert(ins.drop_last() =~= all_modules.subrange(0, done));
                assert(module_in == all_modules[done]);
                assert forall|k: int| 0 <= k < ins.len() implies {
                    &&& (#[trigger] modules_out@[k]).id == ins[k].id
                    &&& modules_out@[k].imports == ins[k].imports
                    &&& modules_out@[k].structs == ins[k].structs
                    &&& words_checked(&ctx, ins[k].words@, modules_out@[k].words@, counts[k])
                } by {
                    if k < done {
                        assert(modules_out@[k] == before_modules[k]);
                        assert(ins[k] == all_modules.subrange(0, done)[k]);
                    }
                }
                assert(modules_in@ =~= all_modules.subrange(modules_out@.len() as int, n as int));
            }
        }
        proof {
            assert(all_modules.subrange(0, n as int) =~= all_modules);
        }
        let result = StageResult::new(Some((ctx, HIRProgram { modules: modules_out })), diagnostics);
        assert(modules_checked(&ctx, all_modules, modules_out@, counts));
        assert(result.output matches Some((c, p)) && c == ctx && p.modules@ == modules_out@);
        assert(count_sum(counts) == result.diagnostics.errors@.len());
        assert(result.output matches Some((c, p)) && modules_checked(&c, all_modules, p.modules@, counts));
        result
    }
}

} // verus!
