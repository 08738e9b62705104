//! Lays out the built-in types and every struct of the program as IR types.
use vstd::prelude::*;

use crate::common::{CompileContext, CompileTarget, DottedPath, Spanned};
use crate::error::{CompileError, Diagnostics, errors_only, lemma_emit_keeps_errors_only};
use crate::pipeline::{Stage, StageResult};
use crate::stages::lower::context::{IRContext, TypeId, type_of_symbol};
use crate::stages::lower::ir::{IRType, IRTypeView, ir_type_view, ir_types_view, lemma_ir_types_view};
use crate::stages::semantic::collect_names::{fields_before, structs_acyclic, type_before};
use crate::stages::semantic::context::{HIRContext, SymbolId, SymbolKind};
use crate::stages::semantic::hir::{HIRProgram, HIRType};
use crate::text::{same_text, string_extend};

verus! {

/// The IR type of a built-in type name: pointers and sizes are 16 bits.
pub open spec fn builtin_ir_type_spec(name: Seq<char>) -> Option<IRType> {
    if name == "bool"@ {
        Some(IRType::Bool)
    } else if name == "u8"@ {
        Some(IRType::U8)
    } else if name == "u16"@ || name == "ptr"@ || name == "usize"@ {
        Some(IRType::U16)
    } else {
        None
    }
}

/// The IR type of a built-in type name, for a target.
pub fn from_builtin_type(target: CompileTarget, name: &str) -> (r: Option<IRType>)
    ensures
        r == builtin_ir_type_spec(name@),
{
    if same_text(name, "bool") {
        Some(IRType::Bool)
    } else if same_text(name, "u8") {
        Some(IRType::U8)
    } else if same_text(name, "u16") || same_text(name, "ptr") || same_text(name, "usize") {
        Some(IRType::U16)
    } else {
        None
    }
}

/// How a type is laid out: a built-in type by its name, a struct (with an
/// id below `bound`) field by field, a lambda as a code address; type and
/// stack variables, arrays and the structs at or past `bound` have no
/// layout.
pub open spec fn layout(ctx: &HIRContext, ty: HIRType, bound: int) -> Option<IRTypeView>
    decreases bound, 0int, 0int,
{
    match ty {
        HIRType::BuiltIn(id) => if id.0 < ctx.symbols@.len() {
            match ctx.symbols@[id.0 as int] {
                SymbolKind::Type { name, .. } => match builtin_ir_type_spec(name@) {
                    Some(t) => Some(ir_type_view(t)),
                    None => None,
                },
                _ => None,
            }
        } else {
            None
        },
        HIRType::Struct(id) => if id.0 < bound && id.0 < ctx.symbols@.len() {
            match ctx.symbols@[id.0 as int] {
                SymbolKind::Struct { fields, .. } => match fields_layout(ctx, fields@, id.0 as int) {
                    Some(fs) => Some(IRTypeView::Struct { fields: fs }),
                    None => None,
                },
                _ => None,
            }
        } else {
            None
        },
        HIRType::Lambda { .. } => Some(IRTypeView::Lambda),
        _ => None,
    }
}

/// The layouts of a struct's fields, if each has one.
pub open spec fn fields_layout(ctx: &HIRContext, fields: Seq<Spanned<HIRType>>, bound: int) -> Option<
    Seq<IRTypeView>,
>
    decreases bound, 1int, fields.len(),
{
    if fields.len() == 0 {
        Some(Seq::empty())
    } else {
        match (fields_layout(ctx, fields.drop_last(), bound), layout(ctx, fields.last().value, bound)) {
            (Some(a), Some(b)) => Some(a.push(b)),
            _ => None,
        }
    }
}

proof fn lemma_fields_layout_prefix_none(ctx: &HIRContext, fields: Seq<Spanned<HIRType>>, k: int, bound: int)
    requires
        0 <= k <= fields.len(),
        fields_layout(ctx, fields.subrange(0, k), bound) is None,
    ensures
        fields_layout(ctx, fields, bound) is None,
    decreases fields.len() - k,
{
    if k == fields.len() {
        assert(fields.subrange(0, k) =~= fields);
    } else {
        assert(fields.drop_last().subrange(0, k) =~= fields.subrange(0, k));
        lemma_fields_layout_prefix_none(ctx, fields.drop_last(), k, bound);
    }
}

/// Whether a type refers only to structs with ids below `bound`.
fn is_type_before(ty: &HIRType, bound: usize) -> (r: bool)
    ensures
        r == type_before(*ty, bound as int),
    decreases ty,
{
    match ty {
        HIRType::Struct(id) => id.0 < bound,
        HIRType::Array { element, .. } => is_type_before(element, bound),
        _ => true,
    }
}

/// Whether every struct's fields refer only to structs registered before it.
pub fn is_acyclic(ctx: &HIRContext) -> (r: bool)
    ensures
        r == structs_acyclic(ctx),
{
    let mut i: usize = 0;
    while i < ctx.symbols.len()
        invariant
            i <= ctx.symbols@.len(),
            forall|j: int| 0 <= j < i ==> fields_before(#[trigger] ctx.symbols@[j], j),
        decreases ctx.symbols@.len() - i,
    {
        match &ctx.symbols[i] {
            SymbolKind::Struct { fields, .. } => {
                let mut k: usize = 0;
                while k < fields.len()
                    invariant
                        i < ctx.symbols@.len(),
                        ctx.symbols@[i as int] is Struct,
                        ctx.symbols@[i as int]->fields == *fields,
                        k <= fields@.len(),
                        forall|m: int| 0 <= m < k ==> type_before(#[trigger] fields@[m].value, i as int),
                    decreases fields@.len() - k,
                {
                    if !is_type_before(&fields[k].value, i) {
                        assert(!type_before(fields@[k as int].value, i as int));
                        assert(!fields_before(ctx.symbols@[i as int], i as int));
                        return false;
                    }
                    k += 1;
                }
            },
            _ => {},
        }
        i += 1;
    }
    true
}

/// `(m, k)` is the place of a struct in the program: module `m`, struct `k`.
pub open spec fn struct_in(p: &HIRProgram, m: int, k: int) -> bool {
    0 <= m < p.modules@.len() && 0 <= k < p.modules@[m].structs@.len()
}

/// The type laid out last for the struct's symbol is its layout.
pub open spec fn registered_layout(ctx: &HIRContext, ir: &IRContext, id: SymbolId) -> bool {
    match type_of_symbol(ir.symbol_id_to_type_id@, id) {
        Some(t) => t.0 < ir.types@.len() && layout(ctx, HIRType::Struct(id), id.0 + 1) == Some(
            ir_type_view(ir.types@[t.0 as int]),
        ),
        None => false,
    }
}

/// Type ids are handed out in order: the `i`th registration has id `i`.
pub open spec fn ids_in_order(ir: &IRContext) -> bool {
    &&& ir.types@.len() == ir.symbol_id_to_type_id@.len()
    &&& forall|i: int| 0 <= i < ir.types@.len() ==> (#[trigger] ir.symbol_id_to_type_id@[i]).1.0 == i
}

proof fn lemma_type_of_symbol_index(pairs: Seq<(SymbolId, TypeId)>, id: SymbolId) -> (i: int)
    requires
        type_of_symbol(pairs, id) is Some,
    ensures
        0 <= i < pairs.len(),
        pairs[i].1 == type_of_symbol(pairs, id)->0,
    decreases pairs.len(),
{
    if pairs.last().0 == id {
        pairs.len() - 1
    } else {
        let j = lemma_type_of_symbol_index(pairs.drop_last(), id);
        assert(pairs.drop_last()[j] == pairs[j]);
        j
    }
}

/// A registration keeps what other symbols have, and gives `id` its type.
proof fn lemma_register_keeps(before: IRContext, after: IRContext, id: SymbolId, other: SymbolId, ctx: &HIRContext)
    requires
        ids_in_order(&before),
        before.types@.len() <= usize::MAX,
        after.types@ == before.types@.push(after.types@.last()),
        after.symbol_id_to_type_id@ == before.symbol_id_to_type_id@.push(
            (id, TypeId(before.types@.len() as usize)),
        ),
        registered_layout(ctx, &before, other),
        other == id ==> layout(ctx, HIRType::Struct(id), id.0 + 1) == Some(ir_type_view(after.types@.last())),
    ensures
        ids_in_order(&after),
        registered_layout(ctx, &after, other),
{
    let pairs = after.symbol_id_to_type_id@;
    assert(pairs.drop_last() =~= before.symbol_id_to_type_id@);
    if other != id {
        let t = type_of_symbol(before.symbol_id_to_type_id@, other)->0;
        let i = lemma_type_of_symbol_index(before.symbol_id_to_type_id@, other);
        assert(before.symbol_id_to_type_id@[i].1.0 == i);
        assert(after.types@[t.0 as int] == before.types@[t.0 as int]);
    }
}

/// Lays out the types of the program.
pub struct CollectSymbolsStage;

impl CollectSymbolsStage {
    /// The IR type of a type: built-in types by name, structs field by
    /// field, lambdas as code addresses; variables and arrays have none.
    pub fn collect_struct_type(
        ctx: &HIRContext,
        target: CompileTarget,
        ty: &HIRType,
        Ghost(bound): Ghost<int>,
    ) -> (r: Option<IRType>)
        requires
            ctx.wf(),
            structs_acyclic(ctx),
            type_before(*ty, bound),
        ensures
            r matches Some(t) ==> layout(ctx, *ty, bound) == Some(ir_type_view(t)),
            r is None ==> layout(ctx, *ty, bound) is None,
        decreases bound, ty,
    {
        match ty {
            HIRType::BuiltIn(id) => match ctx.get(*id) {
                Some(SymbolKind::Type { name, .. }) => from_builtin_type(target, name.as_str()),
                _ => None,
            },
            HIRType::Struct(id) => match ctx.get(*id) {
                Some(SymbolKind::Struct { fields, .. }) => {
                    proof {
                        assert(fields_before(ctx.symbols@[id.0 as int], id.0 as int));
                    }
                    let mut out: Vec<IRType> = Vec::new();
                    let mut k: usize = 0;
                    while k < fields.len()
                        invariant
                            ctx.wf(),
                            structs_acyclic(ctx),
                            id.0 < bound,
                            id.0 < ctx.symbols@.len(),
                            layout(ctx, *ty, bound) == match fields_layout(ctx, fields@, id.0 as int) {
                                Some(fs) => Some(IRTypeView::Struct { fields: fs }),
                                None => None,
                            },
                            ctx.symbols@[id.0 as int] is Struct,
                            ctx.symbols@[id.0 as int]->fields == *fields,
                            k <= fields@.len(),
                            fields_layout(ctx, fields@.subrange(0, k as int), id.0 as int) == Some(
                                ir_types_view(out@),
                            ),
                            forall|m: int|
                                0 <= m < fields@.len() ==> type_before(#[trigger] fields@[m].value, id.0 as int),
                        decreases fields@.len() - k,
                    {
                        let ghost pre = fields@.subrange(0, k as int);
                        let ghost next = fields@.subrange(0, k + 1);
                        assert(next.drop_last() =~= pre);
                        match Self::collect_struct_type(ctx, target, &fields[k].value, Ghost(id.0 as int)) {
                            Some(t) => {
                                let ghost before = out@;
                                out.push(t);
                                assert(out@.drop_last() =~= before);
                            },
                            None => {
                                proof {
                                    assert(next.last() == fields@[k as int]);
                                    assert(fields_layout(ctx, next, id.0 as int) is None);
                                    lemma_fields_layout_prefix_none(ctx, fields@, k + 1, id.0 as int);
                                }
                                return None;
                            },
                        }
                        k += 1;
                    }
                    assert(fields@.subrange(0, fields@.len() as int) =~= fields@);
                    Some(IRType::Struct { fields: out })
                },
                _ => None,
            },
            HIRType::Lambda { .. } => Some(IRType::Lambda),
            _ => None,
        }
    }
}

impl Stage<CompileContext> for CollectSymbolsStage {
    type Input = (HIRContext, HIRProgram);

    type Output = (IRContext, HIRProgram);

    open spec fn runs(
        &self,
        input: Self::Input,
        context: CompileContext,
        after: Self,
        after_context: CompileContext,
        result: StageResult<Self::Output>,
    ) -> bool {
        &&& (errors_only(result.diagnostics))
        &&& (result.output matches Some((ir, p)) && ir.words@.len() == 0 && p == input.1 && ids_in_order(&ir))
        &&& (result.output matches Some((ir, p)) ==> (result.diagnostics.errors@.len() == 0 ==> forall|m: int, k: int|
                #[trigger] struct_in(&p, m, k) ==> registered_layout(&input.0, &ir, p.modules@[m].structs@[k].id)))
        &&& (after_context == context)
    }

    /// Lays out the built-in types, then every struct of every module.
    fn execute(&mut self, input: (HIRContext, HIRProgram), context: &mut CompileContext) -> (r: StageResult<
        (IRContext, HIRProgram),
    >)
    {
        let (ctx, program) = input;
        let mut diagnostics = Diagnostics::new();
        let mut ir_ctx = IRContext::new();
        if !ctx.is_wf() || !is_acyclic(&ctx) {
            diagnostics.emit_fatal(CompileError::unknown("the symbol table is not well formed"));
            return StageResult::new(Some((ir_ctx, program)), diagnostics);
        }
        let names: [&str; 3] = ["bool", "u8", "u16"];
        let mut n: usize = 0;
        while n < 3
            invariant
                ir_ctx.words@.len() == 0,
                ids_in_order(&ir_ctx),
                errors_only(diagnostics),
            decreases 3 - n,
        {
            let name = names[n];
            let ty = match from_builtin_type(context.target, name) {
                Some(t) => t,
                None => {
                    n += 1;
                    continue;
                },
            };
            match ctx.lookup(&DottedPath::parse(name)) {
                Some(id) => {
                    let ghost before = ir_ctx;
                    let count = ir_ctx.types.len();
                    let _ = ir_ctx.register_type(id, ty);
                    proof {
                        assert forall|i: int| 0 <= i < ir_ctx.types@.len() implies (#[trigger] ir_ctx.symbol_id_to_type_id@[i]).1.0 == i by {
                            if i < before.types@.len() {
                                assert(ir_ctx.symbol_id_to_type_id@[i] == before.symbol_id_to_type_id@[i]);
                            }
                        }
                    }
                },
                None => {
                    let mut label = String::from_str("built-in type '");
                    string_extend(&mut label, name);
                    string_extend(&mut label, "' not found");
                    let e = CompileError::Unknown { label };
                    let ghost before = diagnostics;
                    diagnostics.emit_fatal(e);
                    proof {
                        lemma_emit_keeps_errors_only(before, diagnostics, e);
                    }
                },
            }
            n += 1;
        }
        let mut m: usize = 0;
        while m < program.modules.len()
            invariant
                ctx.wf(),
                structs_acyclic(&ctx),
                ctx == input.0,
                program == input.1,
                ir_ctx.words@.len() == 0,
                ids_in_order(&ir_ctx),
                errors_only(diagnostics),
                diagnostics.errors@.len() == 0 ==> forall|m2: int, k2: int|
                    #[trigger] struct_in(&program, m2, k2) && m2 < m ==> registered_layout(&ctx, &ir_ctx, program.modules@[m2].structs@[k2].id),
            decreases program.modules@.len() - m,
        {
            let module = &program.modules[m];
            let mut k: usize = 0;
            while k < module.structs.len()
                invariant
                    ctx.wf(),
                    structs_acyclic(&ctx),
                    ctx == input.0,
                    program == input.1,
                    m < program.modules@.len(),
                    *module == program.modules@[m as int],
                    ir_ctx.words@.len() == 0,
                    ids_in_order(&ir_ctx),
                    errors_only(diagnostics),
                    diagnostics.errors@.len() == 0 ==> forall|m2: int, k2: int|
                        #[trigger] struct_in(&program, m2, k2) && (m2 < m || (m2 == m && k2 < k)) ==> registered_layout(&ctx, &ir_ctx, program.modules@[m2].structs@[k2].id),
                decreases module.structs@.len() - k,
            {
                let item = &module.structs[k];
                let st = HIRType::Struct(item.id);
                let ghost bound = item.id.0 + 1;
                match Self::collect_struct_type(&ctx, context.target, &st, Ghost(bound)) {
                    Some(ty) => {
                        let ghost before = ir_ctx;
                        let ghost view = ir_type_view(ty);
                        let count = ir_ctx.types.len();
                        let _ = ir_ctx.register_type(item.id, ty);
                        proof {
                            assert(ir_ctx.types@.last() == ty);
                            if diagnostics.errors@.len() == 0 {
                                assert forall|m2: int, k2: int|
                                    #[trigger] struct_in(&program, m2, k2) && (m2 < m || (m2 == m && k2 <= k)) implies registered_layout(&ctx, &ir_ctx, program.modules@[m2].structs@[k2].id) by {
                                    let other = program.modules@[m2].structs@[k2].id;
                                    if m2 < m || k2 < k {
                                        lemma_register_keeps(before, ir_ctx, item.id, other, &ctx);
                                    } else {
                                        assert(type_of_symbol(ir_ctx.symbol_id_to_type_id@, item.id) == Some(TypeId(count)));
                                    }
                                }
                            }
                            assert forall|i: int| 0 <= i < ir_ctx.types@.len() implies (#[trigger] ir_ctx.symbol_id_to_type_id@[i]).1.0 == i by {
                                if i < before.types@.len() {
                                    assert(ir_ctx.symbol_id_to_type_id@[i] == before.symbol_id_to_type_id@[i]);
                                }
                            }
                        }
                    },
                    None => {
                        let mut label = String::from_str("cannot collect type for '");
                        string_extend(&mut label, item.name.value.as_str());
                        string_extend(&mut label, "'");
                        let e = CompileError::CannotInferType { label, span: item.name.span };
                        let ghost before = diagnostics;
                        diagnostics.emit_fatal(e);
                        proof {
                            lemma_emit_keeps_errors_only(before, diagnostics, e);
                        }
                    },
                }
                k += 1;
            }
            m += 1;
        }
        StageResult::new(Some((ir_ctx, program)), diagnostics)
    }
}

} // verus!
