//! The first semantic stage: registers every module, struct and word of the
//! program in the symbol table.
//!
//! Structs are registered after the structs their fields name, so a struct
//! that contains itself, directly or through others, is an error.
use vstd::prelude::*;

use crate::common::{CompileContext, DottedPath, Spanned};
use crate::error::{CompileError, Diagnostics, errors_only, lemma_emit_keeps_errors_only};
use crate::pipeline::{Stage, StageResult};
use crate::stages::parse::ast::{ASTProgram, ASTStackEffectItem};
use crate::stages::semantic::context::{HIRContext, SymbolId, SymbolKind, path_key};
use crate::stages::semantic::hir::HIRType;
use crate::text::same_text;

verus! {

/// A type refers only to structs with ids below `bound`.
pub open spec fn type_before(ty: HIRType, bound: int) -> bool
    decreases ty,
{
    match ty {
        HIRType::Struct(id) => id.0 < bound,
        HIRType::Array { element, .. } => type_before(*element, bound),
        _ => true,
    }
}

/// Every struct's fields refer only to structs registered before it: no
/// struct contains itself.
pub open spec fn structs_acyclic(ctx: &HIRContext) -> bool {
    forall|i: int| 0 <= i < ctx.symbols@.len() ==> fields_before(#[trigger] ctx.symbols@[i], i)
}

/// A struct symbol's fields refer only to structs with ids below `bound`.
pub open spec fn fields_before(kind: SymbolKind, bound: int) -> bool {
    match kind {
        SymbolKind::Struct { fields, .. } => forall|k: int|
            0 <= k < fields@.len() ==> type_before(#[trigger] fields@[k].value, bound),
        _ => true,
    }
}

/// How deeply array types nest in an item.
pub open spec fn item_depth(item: ASTStackEffectItem) -> nat
    decreases item,
{
    match item {
        ASTStackEffectItem::Array { element, .. } => 1 + item_depth(element.value),
        _ => 0,
    }
}

/// How many entries are set.
pub open spec fn count_true(s: Seq<bool>) -> nat
    decreases s.len(),
{
    if s.len() == 0 {
        0
    } else {
        count_true(s.drop_last()) + if s.last() {
            1nat
        } else {
            0nat
        }
    }
}

proof fn lemma_count_true_bound(s: Seq<bool>)
    ensures
        count_true(s) <= s.len(),
    decreases s.len(),
{
    if s.len() > 0 {
        lemma_count_true_bound(s.drop_last());
    }
}

proof fn lemma_count_true_update(s: Seq<bool>, i: int, b: bool)
    requires
        0 <= i < s.len(),
    ensures
        count_true(s.update(i, b)) == count_true(s) - (if s[i] {
            1int
        } else {
            0int
        }) + (if b {
            1int
        } else {
            0int
        }),
    decreases s.len(),
{
    let t = s.update(i, b);
    if i < s.len() - 1 {
        assert(t.drop_last() =~= s.drop_last().update(i, b));
        lemma_count_true_update(s.drop_last(), i, b);
    } else {
        assert(t.drop_last() =~= s.drop_last());
    }
}

/// How many entries are set.
pub open spec fn count_some(s: Seq<Option<SymbolId>>) -> nat
    decreases s.len(),
{
    if s.len() == 0 {
        0
    } else {
        count_some(s.drop_last()) + if s.last() is Some {
            1nat
        } else {
            0nat
        }
    }
}

proof fn lemma_count_some_bound(s: Seq<Option<SymbolId>>)
    ensures
        count_some(s) <= s.len(),
        (forall|i: int| 0 <= i < s.len() ==> (#[trigger] s[i]) is Some) ==> count_some(s) == s.len(),
    decreases s.len(),
{
    if s.len() > 0 {
        lemma_count_some_bound(s.drop_last());
        if forall|i: int| 0 <= i < s.len() ==> (#[trigger] s[i]) is Some {
            assert forall|i: int| 0 <= i < s.drop_last().len() implies (#[trigger] s.drop_last()[i]) is Some by {
                assert(s.drop_last()[i] == s[i]);
            }
            assert(s[s.len() - 1] is Some);
        }
    }
}

proof fn lemma_count_some_update(s: Seq<Option<SymbolId>>, i: int, v: Option<SymbolId>)
    requires
        0 <= i < s.len(),
    ensures
        count_some(s.update(i, v)) == count_some(s) - (if s[i] is Some {
            1int
        } else {
            0int
        }) + (if v is Some {
            1int
        } else {
            0int
        }),
    decreases s.len(),
{
    let t = s.update(i, v);
    if i < s.len() - 1 {
        assert(t.drop_last() =~= s.drop_last().update(i, v));
        lemma_count_some_update(s.drop_last(), i, v);
    } else {
        assert(t.drop_last() =~= s.drop_last());
    }
}

/// A struct whose registration is under way has no id yet.
pub open spec fn in_progress_unregistered(visiting: Seq<bool>, visited: Seq<Option<SymbolId>>) -> bool {
    forall|e: int| 0 <= e < visiting.len() && #[trigger] visiting[e] ==> visited[e] is None
}

/// The table gained one struct symbol for each struct newly given an id,
/// and nothing else.
pub open spec fn structs_added(
    before: &HIRContext,
    after: &HIRContext,
    visited_before: Seq<Option<SymbolId>>,
    visited_after: Seq<Option<SymbolId>>,
) -> bool {
    &&& after.symbols@.len() - before.symbols@.len() == count_some(visited_after) - count_some(visited_before)
    &&& forall|i: int| before.symbols@.len() <= i < after.symbols@.len() ==> (#[trigger] after.symbols@[i]) is Struct
}

proof fn lemma_structs_added_trans(
    a: &HIRContext,
    b: &HIRContext,
    c: &HIRContext,
    va: Seq<Option<SymbolId>>,
    vb: Seq<Option<SymbolId>>,
    vc: Seq<Option<SymbolId>>,
)
    requires
        structs_added(a, b, va, vb),
        structs_added(b, c, vb, vc),
        b.symbols@.is_prefix_of(c.symbols@),
    ensures
        structs_added(a, c, va, vc),
{
    assert forall|i: int| a.symbols@.len() <= i < c.symbols@.len() implies (#[trigger] c.symbols@[i]) is Struct by {
        if i < b.symbols@.len() {
            assert(c.symbols@[i] == b.symbols@[i]);
        }
    }
}

proof fn lemma_count_none(s: Seq<Option<SymbolId>>)
    requires
        forall|e: int| 0 <= e < s.len() ==> (#[trigger] s[e]) is None,
    ensures
        count_some(s) == 0,
    decreases s.len(),
{
    if s.len() > 0 {
        assert forall|e: int| 0 <= e < s.drop_last().len() implies (#[trigger] s.drop_last()[e]) is None by {
            assert(s.drop_last()[e] == s[e]);
        }
        lemma_count_none(s.drop_last());
        assert(s[s.len() - 1] is None);
    }
}

/// Ids once given stay.
pub open spec fn ids_kept(before: Seq<Option<SymbolId>>, after: Seq<Option<SymbolId>>) -> bool {
    forall|e: int| 0 <= e < before.len() && (#[trigger] before[e]) is Some ==> after[e] == before[e]
}

/// How many structs the first `m` modules of the program declare.
pub open spec fn structs_in(input: &ASTProgram, m: int) -> nat
    decreases m,
{
    if m <= 0 || m > input.modules@.len() {
        0
    } else {
        structs_in(input, m - 1) + input.modules@[m - 1].structs@.len()
    }
}

/// A struct of the program, by the module it is in and its place there.
pub struct StructDeclaration {
    pub module: usize,
    pub index: usize,
    pub name: DottedPath,
}

/// The first declaration of a struct of this full name.
pub open spec fn first_decl(decls: Seq<StructDeclaration>, name: Seq<Seq<char>>) -> Option<int>
    decreases decls.len(),
{
    if decls.len() == 0 {
        None
    } else {
        match first_decl(decls.drop_last(), name) {
            Some(d) => Some(d),
            None => if decls.last().name@ == name {
                Some(decls.len() - 1)
            } else {
                None
            },
        }
    }
}

/// `first_decl` is the first position whose name matches.
proof fn lemma_first_decl(decls: Seq<StructDeclaration>, name: Seq<Seq<char>>, d: int)
    requires
        0 <= d <= decls.len(),
        forall|e: int| 0 <= e < d ==> (#[trigger] decls[e]).name@ != name,
    ensures
        d < decls.len() && decls[d].name@ == name ==> first_decl(decls, name) == Some(d),
        d == decls.len() ==> first_decl(decls, name) is None,
    decreases decls.len(),
{
    if decls.len() > 0 {
        if d < decls.len() {
            if d < decls.len() - 1 {
                assert forall|e: int| 0 <= e < d implies (#[trigger] decls.drop_last()[e]).name@ != name by {
                    assert(decls.drop_last()[e] == decls[e]);
                }
                assert(decls.drop_last()[d] == decls[d]);
                lemma_first_decl(decls.drop_last(), name, d);
            } else {
                assert forall|e: int| 0 <= e < decls.len() - 1 implies (#[trigger] decls.drop_last()[e]).name@
                    != name by {
                    assert(decls.drop_last()[e] == decls[e]);
                }
                lemma_first_decl(decls.drop_last(), name, decls.len() - 1);
            }
        } else {
            assert forall|e: int| 0 <= e < decls.len() - 1 implies (#[trigger] decls.drop_last()[e]).name@
                != name by {
                assert(decls.drop_last()[e] == decls[e]);
            }
            lemma_first_decl(decls.drop_last(), name, decls.len() - 1);
        }
    }
}

/// The declaration a field's type name names: in the module where the
/// name has one segment, else by its full name.
pub open spec fn declared(decls: Seq<StructDeclaration>, module_name: Seq<Seq<char>>, name: Seq<Seq<char>>) -> Option<
    int,
> {
    if name.len() == 1 && first_decl(decls, module_name + name) is Some {
        first_decl(decls, module_name + name)
    } else {
        first_decl(decls, name)
    }
}

/// Where the struct of this full name is first declared, if anywhere.
fn find_declaration(decls: &Vec<StructDeclaration>, name: &DottedPath) -> (r: Option<usize>)
    ensures
        r matches Some(d) ==> d < decls@.len() && decls@[d as int].name@ == name@,
        r is None ==> forall|d: int| 0 <= d < decls@.len() ==> (#[trigger] decls@[d]).name@ != name@,
        r matches Some(d) ==> first_decl(decls@, name@) == Some(d as int),
        r is None ==> first_decl(decls@, name@) is None,
{
    let mut d: usize = 0;
    while d < decls.len()
        invariant
            d <= decls@.len(),
            forall|e: int| 0 <= e < d ==> (#[trigger] decls@[e]).name@ != name@,
        decreases decls@.len() - d,
    {
        if decls[d].name.same_path(name) {
            proof {
                lemma_first_decl(decls@, name@, d as int);
            }
            return Some(d);
        }
        d += 1;
    }
    proof {
        lemma_first_decl(decls@, name@, decls@.len() as int);
    }
    None
}

/// The declarations point into the program.
pub open spec fn declarations_valid(input: &ASTProgram, decls: Seq<StructDeclaration>) -> bool {
    forall|d: int|
        0 <= d < decls.len() ==> (#[trigger] decls[d]).module < input.modules@.len()
            && decls[d].index < input.modules@[decls[d].module as int].structs@.len()
}

/// What a struct registration keeps: the table stays well formed, keeps what
/// it found, and its structs stay acyclic.
pub open spec fn table_grows(before: &HIRContext, after: &HIRContext) -> bool {
    &&& after.wf()
    &&& structs_acyclic(after)
    &&& before.symbols@.is_prefix_of(after.symbols@)
    &&& forall|k: Seq<char>| before.find(k) is Some ==> #[trigger] after.find(k) == before.find(k)
}

/// The errors of struct registration.
pub open spec fn is_struct_error(e: CompileError) -> bool {
    ||| e is RecursiveStruct
    ||| e is SymbolNotFound
    ||| e is InvalidSymbol
    ||| e is SymbolAlreadyExists
    ||| e is Unknown
}

/// The innermost item of an array item: what names the element type.
pub open spec fn field_leaf(item: ASTStackEffectItem) -> ASTStackEffectItem
    decreases item,
{
    match item {
        ASTStackEffectItem::Array { element, .. } => field_leaf(element.value),
        _ => item,
    }
}

/// The type a struct field's item stands for: a struct it names by its
/// registered id, a built-in type by its symbol, and an array of such.
pub open spec fn field_resolves(
    ctx: &HIRContext,
    visited: Seq<Option<SymbolId>>,
    decls: Seq<StructDeclaration>,
    module_name: Seq<Seq<char>>,
    item: ASTStackEffectItem,
    ty: HIRType,
) -> bool
    decreases item,
{
    match item {
        ASTStackEffectItem::Symbol { name } => match declared(decls, module_name, name@) {
            Some(d) => visited[d] is Some && ty == HIRType::Struct(visited[d].unwrap()),
            None => ctx.find(path_key(name@)) matches Some(i) && ctx.symbols@[i] is Type && ty
                == HIRType::BuiltIn(SymbolId(i as usize)),
        },
        ASTStackEffectItem::Array { element, size } => ty matches HIRType::Array { element: e, size: s } && s
            == size && field_resolves(ctx, visited, decls, module_name, element.value, *e),
        _ => false,
    }
}

/// The type name at the item's leaf names no declared struct.
pub open spec fn leaf_undeclared(
    decls: Seq<StructDeclaration>,
    module_name: Seq<Seq<char>>,
    item: ASTStackEffectItem,
) -> bool {
    field_leaf(item) matches ASTStackEffectItem::Symbol { name } && declared(decls, module_name, name@) is None
}

/// The type name at the item's leaf is, by its full name, a built-in type.
pub open spec fn leaf_builtin(ctx: &HIRContext, item: ASTStackEffectItem) -> bool {
    field_leaf(item) matches ASTStackEffectItem::Symbol { name } && (ctx.find(path_key(name@)) matches Some(i)
        && ctx.symbols@[i] is Type)
}

/// The type name at the item's leaf names a struct whose registration is
/// under way: the struct would contain itself.
pub open spec fn leaf_in_progress(
    decls: Seq<StructDeclaration>,
    module_name: Seq<Seq<char>>,
    visiting: Seq<bool>,
    item: ASTStackEffectItem,
) -> bool {
    field_leaf(item) matches ASTStackEffectItem::Symbol { name } && (declared(decls, module_name, name@) matches Some(
        d,
    ) && visiting[d])
}

/// Registration of the structs.
pub struct CollectNamesStage;

impl CollectNamesStage {
    /// The type of a struct field; a struct it names is registered first.
    fn register_struct_field(
        input: &ASTProgram,
        field: &Spanned<ASTStackEffectItem>,
        module_name: &DottedPath,
        decls: &Vec<StructDeclaration>,
        visiting: &mut Vec<bool>,
        visited: &mut Vec<Option<SymbolId>>,
        context: &mut HIRContext,
    ) -> (r: Result<HIRType, CompileError>)
        requires
            old(context).wf(),
            structs_acyclic(old(context)),
            declarations_valid(input, decls@),
            old(visiting)@.len() == decls@.len(),
            old(visited)@.len() == decls@.len(),
            forall|d: int|
                0 <= d < decls@.len() && (#[trigger] old(visited)@[d]) is Some ==> old(visited)@[d].unwrap().0
                    < old(context).symbols@.len(),
        ensures
            table_grows(old(context), final(context)),
            final(visiting)@.len() == decls@.len(),
            final(visited)@.len() == decls@.len(),
            forall|d: int|
                0 <= d < decls@.len() && (#[trigger] final(visited)@[d]) is Some ==> final(visited)@[d].unwrap().0
                    < final(context).symbols@.len(),
            r matches Ok(ty) ==> type_before(ty, final(context).symbols@.len() as int),
            r is Ok ==> final(visiting)@ == old(visiting)@,
            r matches Err(e) ==> is_struct_error(e),
            in_progress_unregistered(old(visiting)@, old(visited)@) ==> in_progress_unregistered(
                final(visiting)@,
                final(visited)@,
            ),
            ids_kept(old(visited)@, final(visited)@),
            in_progress_unregistered(old(visiting)@, old(visited)@) ==> structs_added(
                old(context),
                final(context),
                old(visited)@,
                final(visited)@,
            ),
            r matches Ok(ty) ==> field_resolves(
                final(context),
                final(visited)@,
                decls@,
                module_name@,
                field.value,
                ty,
            ),
            !(field_leaf(field.value) is Symbol) ==> (r matches Err(e) && e is InvalidSymbol
                && *final(context) == *old(context) && final(visited)@ == old(visited)@),
            leaf_undeclared(decls@, module_name@, field.value) ==> {
                &&& *final(context) == *old(context)
                &&& final(visited)@ == old(visited)@
                &&& (r is Ok <==> leaf_builtin(old(context), field.value))
                &&& (r matches Err(e) ==> e is SymbolNotFound)
            },
            leaf_in_progress(decls@, module_name@, old(visiting)@, field.value) ==> (r matches Err(e)
                && e is RecursiveStruct && *final(context) == *old(context) && final(visited)@ == old(
                visited,
            )@),
        decreases decls@.len() - count_true(old(visiting)@), 1nat, item_depth(field.value),
    {
        match &field.value {
            ASTStackEffectItem::Symbol { name } => {
                let mut found: Option<usize> = None;
                if name.len() == 1 {
                    let local = module_name.extend(name);
                    found = find_declaration(decls, &local);
                }
                if found.is_none() {
                    found = find_declaration(decls, name);
                }
                match found {
                    Some(d) => {
                        if visiting[d] {
                            return Err(
                                CompileError::RecursiveStruct {
                                    name: decls[d].name.to_dotted_string(),
                                    span: field.span,
                                },
                            );
                        }
                        let id = Self::register_struct(d, input, decls, visiting, visited, context)?;
                        Ok(HIRType::Struct(id))
                    },
                    None => match context.lookup_and_get(name) {
                        Some((id, SymbolKind::Type { .. })) => {
                            proof {
                                crate::stages::semantic::context::lemma_symbol_index(
                                    context.names(),
                                    path_key(name@),
                                );
                            }
                            Ok(HIRType::BuiltIn(id))
                        },
                        _ => Err(
                            CompileError::SymbolNotFound {
                                name: name.to_dotted_string(),
                                span: field.span,
                            },
                        ),
                    },
                }
            },
            ASTStackEffectItem::Array { element, size } => {
                let ty = Self::register_struct_field(
                    input,
                    element,
                    module_name,
                    decls,
                    visiting,
                    visited,
                    context,
                )?;
                Ok(HIRType::Array { element: Box::new(ty), size: *size })
            },
            _ => Err(
                CompileError::InvalidSymbol {
                    name: String::from_str(
                        "stack variables and lambdas are not supported in struct fields",
                    ),
                    span: field.span,
                },
            ),
        }
    }

    /// Registers the declared struct `d`, after the structs its fields name.
    fn register_struct(
        d: usize,
        input: &ASTProgram,
        decls: &Vec<StructDeclaration>,
        visiting: &mut Vec<bool>,
        visited: &mut Vec<Option<SymbolId>>,
        context: &mut HIRContext,
    ) -> (r: Result<SymbolId, CompileError>)
        requires
            old(context).wf(),
            structs_acyclic(old(context)),
            declarations_valid(input, decls@),
            d < decls@.len(),
            !old(visiting)@[d as int],
            old(visiting)@.len() == decls@.len(),
            old(visited)@.len() == decls@.len(),
            forall|e: int|
                0 <= e < decls@.len() && (#[trigger] old(visited)@[e]) is Some ==> old(visited)@[e].unwrap().0
                    < old(context).symbols@.len(),
        ensures
            table_grows(old(context), final(context)),
            final(visiting)@.len() == decls@.len(),
            final(visited)@.len() == decls@.len(),
            forall|e: int|
                0 <= e < decls@.len() && (#[trigger] final(visited)@[e]) is Some ==> final(visited)@[e].unwrap().0
                    < final(context).symbols@.len(),
            r matches Ok(id) ==> id.0 < final(context).symbols@.len(),
            r matches Ok(id) ==> final(visited)@[d as int] == Some(id),
            r is Ok ==> final(visiting)@ == old(visiting)@,
            r matches Err(e) ==> is_struct_error(e),
            in_progress_unregistered(old(visiting)@, old(visited)@) ==> in_progress_unregistered(
                final(visiting)@,
                final(visited)@,
            ),
            ids_kept(old(visited)@, final(visited)@),
            in_progress_unregistered(old(visiting)@, old(visited)@) ==> structs_added(
                old(context),
                final(context),
                old(visited)@,
                final(visited)@,
            ),
        decreases decls@.len() - count_true(old(visiting)@), 0nat, 0nat,
    {
        match visited[d] {
            Some(id) => {
                return Ok(id);
            },
            None => {},
        }
        proof {
            lemma_count_true_update(visiting@, d as int, true);
            lemma_count_true_bound(visiting@.update(d as int, true));
        }
        let ghost ipu = in_progress_unregistered(old(visiting)@, old(visited)@);
        visiting.set(d, true);
        let decl = &decls[d];
        let module = &input.modules[decl.module];
        let item = &module.structs[decl.index].value;
        let mut fields: Vec<Spanned<HIRType>> = Vec::new();
        let mut i: usize = 0;
        while i < item.fields.len()
            invariant
                table_grows(old(context), context),
                declarations_valid(input, decls@),
                visiting@ == old(visiting)@.update(d as int, true),
                old(visiting)@.len() == decls@.len(),
                count_true(visiting@) == count_true(old(visiting)@) + 1,
                count_true(visiting@) <= decls@.len(),
                visited@.len() == decls@.len(),
                d < decls@.len(),
                forall|e: int|
                    0 <= e < decls@.len() && (#[trigger] visited@[e]) is Some ==> visited@[e].unwrap().0
                        < context.symbols@.len(),
                forall|k: int|
                    0 <= k < fields@.len() ==> type_before(
                        #[trigger] fields@[k].value,
                        context.symbols@.len() as int,
                    ),
                i <= item.fields@.len(),
                ipu == in_progress_unregistered(old(visiting)@, old(visited)@),
                ipu ==> in_progress_unregistered(visiting@, visited@),
                ipu ==> structs_added(old(context), context, old(visited)@, visited@),
                ids_kept(old(visited)@, visited@),
                old(visited)@.len() == decls@.len(),
                old(visited)@[d as int] is None,
                !old(visiting)@[d as int],
            decreases item.fields@.len() - i,
        {
            let field = &item.fields[i];
            let ghost before_len = context.symbols@.len();
            let ghost ctx_before = *context;
            let ghost visited_before = visited@;
            let result = Self::register_struct_field(
                input,
                field,
                &module.name.value,
                decls,
                visiting,
                visited,
                context,
            );
            proof {
                if ipu {
                    lemma_structs_added_trans(old(context), &ctx_before, context, old(visited)@, visited_before, visited@);
                }
                assert forall|e: int| 0 <= e < old(visited)@.len() && (#[trigger] old(visited)@[e]) is Some implies visited@[e]
                    == old(visited)@[e] by {
                    assert(visited_before.len() == old(visited)@.len());
                    assert(visited_before[e] == old(visited)@[e]);
                    assert(visited_before[e] is Some);
                    assert(ids_kept(visited_before, visited@));
                    assert(visited@[e] == visited_before[e]);
                }
            }
            let ty = match result {
                Ok(ty) => ty,
                Err(e) => {
                    return Err(e);
                },
            };
            fields.push(Spanned::new(ty, field.span));
            proof {
                assert forall|k: int| 0 <= k < fields@.len() implies type_before(
                    #[trigger] fields@[k].value,
                    context.symbols@.len() as int,
                ) by {
                    if k < fields@.len() - 1 {
                        lemma_type_before_mono(fields@[k].value, before_len as int, context.symbols@.len() as int);
                    }
                }
            }
            i += 1;
        }
        let module_id = match context.lookup(&module.name.value) {
            Some(id) => id,
            None => {
                return Err(
                    CompileError::SymbolNotFound {
                        name: module.name.value.to_dotted_string(),
                        span: item.name.span,
                    },
                );
            },
        };
        let ghost before = *context;
        let ghost visited_mid = visited@;
        proof {
            if ipu {
                assert(visiting@[d as int]);
                assert(visited@[d as int] is None);
            }
        }
        let id = match context.register_struct(module_id, item, fields) {
            Ok(id) => id,
            Err(e) => {
                return Err(e);
            },
        };
        proof {
            assert(context.symbols@.drop_last() == before.symbols@);
            assert forall|j: int| 0 <= j < context.symbols@.len() implies fields_before(
                #[trigger] context.symbols@[j],
                j,
            ) by {
                if j < before.symbols@.len() {
                    assert(context.symbols@[j] == before.symbols@[j]);
                }
            }
            assert(context.symbols@.subrange(0, old(context).symbols@.len() as int)
                =~= before.symbols@.subrange(0, old(context).symbols@.len() as int));
        }
        let ghost visiting_mid = visiting@;
        visiting.set(d, false);
        visited.set(d, Some(id));
        assert(visiting@ =~= old(visiting)@);
        proof {
            if ipu {
                lemma_count_some_update(visited_mid, d as int, Some(id));
                assert forall|e: int| 0 <= e < visiting@.len() && #[trigger] visiting@[e] implies visited@[e] is None by {
                    assert(e != d);
                    assert(visiting_mid[e]);
                }
                assert forall|j: int|
                    old(context).symbols@.len() <= j < context.symbols@.len() implies (#[trigger] context.symbols@[j]) is Struct by {
                    if j < before.symbols@.len() {
                        assert(context.symbols@[j] == before.symbols@[j]);
                    }
                }
            }
        }
        Ok(id)
    }
}

proof fn lemma_type_before_mono(ty: HIRType, a: int, b: int)
    requires
        type_before(ty, a),
        a <= b,
    ensures
        type_before(ty, b),
    decreases ty,
{
    match ty {
        HIRType::Array { element, .. } => lemma_type_before_mono(*element, a, b),
        _ => {},
    }
}

impl CollectNamesStage {
    /// Registers every struct of the program, each after the structs its
    /// fields name; a struct declared twice, or one that contains itself, is
    /// reported.
    fn register_structs(input: &ASTProgram, context: &mut HIRContext, diagnostics: &mut Diagnostics)
        requires
            old(context).wf(),
            structs_acyclic(old(context)),
            errors_only(*old(diagnostics)),
        ensures
            table_grows(old(context), final(context)),
            errors_only(*final(diagnostics)),
            forall|i: int|
                old(context).symbols@.len() <= i < final(context).symbols@.len() ==> (
                #[trigger] final(context).symbols@[i]) is Struct,
            final(diagnostics).errors@.len() >= old(diagnostics).errors@.len(),
            final(diagnostics).errors@.len() == old(diagnostics).errors@.len() ==> *final(diagnostics) == *old(
                diagnostics,
            ) && final(context).symbols@.len() == old(context).symbols@.len() + structs_in(
                input,
                input.modules@.len() as int,
            ),
    {
        let ghost d0 = *diagnostics;
        let mut decls: Vec<StructDeclaration> = Vec::new();
        let mut m: usize = 0;
        while m < input.modules.len()
            invariant
                context.wf(),
                *context == *old(context),
                errors_only(*diagnostics),
                declarations_valid(input, decls@),
                m <= input.modules@.len(),
                d0 == *old(diagnostics),
                diagnostics.errors@.len() >= d0.errors@.len(),
                diagnostics.errors@.len() == d0.errors@.len() ==> *diagnostics == d0 && decls@.len() == structs_in(
                    input,
                    m as int,
                ),
            decreases input.modules@.len() - m,
        {
            let module = &input.modules[m];
            let mut j: usize = 0;
            while j < module.structs.len()
                invariant
                    context.wf(),
                    *context == *old(context),
                    errors_only(*diagnostics),
                    declarations_valid(input, decls@),
                    m < input.modules@.len(),
                    *module == input.modules@[m as int],
                    j <= module.structs@.len(),
                    d0 == *old(diagnostics),
                    diagnostics.errors@.len() >= d0.errors@.len(),
                    diagnostics.errors@.len() == d0.errors@.len() ==> *diagnostics == d0 && decls@.len()
                        == structs_in(input, m as int) + j,
                decreases module.structs@.len() - j,
            {
                let item = &module.structs[j].value;
                let name = module.name.value.append(item.name.value.as_str());
                if find_declaration(&decls, &name).is_some() || context.lookup(&name).is_some() {
                    let ghost before = *diagnostics;
                    let e = CompileError::SymbolAlreadyExists {
                        name: name.to_dotted_string(),
                        span: item.name.span,
                    };
                    diagnostics.emit_fatal(e);
                    proof {
                        lemma_emit_keeps_errors_only(before, *diagnostics, e);
                    }
                } else {
                    decls.push(StructDeclaration { module: m, index: j, name });
                }
                j += 1;
            }
            proof {
                assert(structs_in(input, m + 1) == structs_in(input, m as int) + module.structs@.len());
            }
            m += 1;
        }
        let n = decls.len();
        let mut visited: Vec<Option<SymbolId>> = Vec::new();
        while visited.len() < n
            invariant
                visited@.len() <= n,
                forall|e: int| 0 <= e < visited@.len() ==> (#[trigger] visited@[e]) is None,
            decreases n - visited@.len(),
        {
            visited.push(None);
        }
        let ghost none_seq = visited@;
        proof {
            lemma_count_none(none_seq);
        }
        let mut d: usize = 0;
        while d < n
            invariant
                n == decls@.len(),
                declarations_valid(input, decls@),
                table_grows(old(context), context),
                errors_only(*diagnostics),
                visited@.len() == n,
                none_seq.len() == n,
                count_some(none_seq) == 0,
                forall|e: int|
                    0 <= e < n && (#[trigger] visited@[e]) is Some ==> visited@[e].unwrap().0
                        < context.symbols@.len(),
                d <= n,
                structs_added(old(context), context, none_seq, visited@),
                d0 == *old(diagnostics),
                diagnostics.errors@.len() >= d0.errors@.len(),
                diagnostics.errors@.len() == d0.errors@.len() ==> *diagnostics == d0 && n == structs_in(
                    input,
                    input.modules@.len() as int,
                ) && forall|e: int| 0 <= e < d ==> (#[trigger] visited@[e]) is Some,
            decreases n - d,
        {
            if visited[d].is_none() {
                let mut visiting: Vec<bool> = Vec::new();
                while visiting.len() < n
                    invariant
                        visiting@.len() <= n,
                        forall|e: int| 0 <= e < visiting@.len() ==> !(#[trigger] visiting@[e]),
                    decreases n - visiting@.len(),
                {
                    visiting.push(false);
                }
                let ghost before = *context;
                let ghost visited_before = visited@;
                let ghost diags_before = *diagnostics;
                match Self::register_struct(d, input, &decls, &mut visiting, &mut visited, context) {
                    Ok(_) => {},
                    Err(e) => {
                        diagnostics.emit_fatal(e);
                        proof {
                            lemma_emit_keeps_errors_only(diags_before, *diagnostics, e);
                        }
                    },
                }
                proof {
                    assert(context.symbols@.subrange(0, old(context).symbols@.len() as int)
                        =~= before.symbols@.subrange(0, old(context).symbols@.len() as int));
                    lemma_structs_added_trans(old(context), &before, context, none_seq, visited_before, visited@);
                    assert forall|e: int| 0 <= e < d + 1 && diagnostics.errors@.len() == d0.errors@.len() implies (
                    #[trigger] visited@[e]) is Some by {
                        if e < d {
                            assert(visited_before[e] is Some);
                        }
                    }
                }
            }
            d += 1;
        }
        proof {
            lemma_count_some_bound(visited@);
        }
    }
}

impl Stage<CompileContext> for CollectNamesStage {
    type Input = ASTProgram;

    type Output = (HIRContext, ASTProgram);

    open spec fn runs(
        &self,
        input: Self::Input,
        context: CompileContext,
        after: Self,
        after_context: CompileContext,
        result: StageResult<Self::Output>,
    ) -> bool {
        &&& (result.output is Some)
        &&& (errors_only(result.diagnostics))
        &&& (result.output matches Some((ctx, program)) && ctx.wf() && structs_acyclic(&ctx) && forall|i: int|
                0 <= i < program.modules@.len() ==> ctx.find(
                    path_key(#[trigger] program.modules@[i].name.value@),
                ) is Some)
        &&& (after_context == context)
    }

    /// Registers the modules, then the structs, then the words of the
    /// program; `main` of the first module is the entrypoint.
    fn execute(&mut self, input: ASTProgram, context: &mut CompileContext) -> (r: StageResult<
        (HIRContext, ASTProgram),
    >)
    {
        let mut diagnostics = Diagnostics::new();
        let mut ctx = match HIRContext::new() {
            Ok(c) => c,
            Err(e) => {
                diagnostics.emit_fatal(e);
                return StageResult::new(None, diagnostics);
            },
        };
        let mut m: usize = 0;
        while m < input.modules.len()
            invariant
                ctx.wf(),
                structs_acyclic(&ctx),
                errors_only(diagnostics),
                m <= input.modules@.len(),
                forall|i: int|
                    0 <= i < m ==> ctx.find(path_key(#[trigger] input.modules@[i].name.value@))
                        is Some,
            decreases input.modules@.len() - m,
        {
            let ghost before = ctx;
            match ctx.register_module(&input.modules[m]) {
                Ok(_) => {},
                Err(e) => {
                    let ghost before_d = diagnostics;
                    diagnostics.emit_fatal(e);
                    proof {
                        lemma_emit_keeps_errors_only(before_d, diagnostics, e);
                    }
                },
            }
            proof {
                assert forall|i: int| 0 <= i < ctx.symbols@.len() implies fields_before(
                    #[trigger] ctx.symbols@[i],
                    i,
                ) by {
                    if i < before.symbols@.len() {
                        assert(ctx.symbols@[i] == before.symbols@[i]);
                    }
                }
            }
            m += 1;
        }
        Self::register_structs(&input, &mut ctx, &mut diagnostics);
        let mut m: usize = 0;
        while m < input.modules.len()
            invariant
                ctx.wf(),
                structs_acyclic(&ctx),
                errors_only(diagnostics),
                m <= input.modules@.len(),
                forall|i: int|
                    0 <= i < input.modules@.len() ==> ctx.find(
                        path_key(#[trigger] input.modules@[i].name.value@),
                    ) is Some,
            decreases input.modules@.len() - m,
        {
            let module = &input.modules[m];
            let mut j: usize = 0;
            while j < module.words.len()
                invariant
                    ctx.wf(),
                    structs_acyclic(&ctx),
                    errors_only(diagnostics),
                    m < input.modules@.len(),
                    *module == input.modules@[m as int],
                    j <= module.words@.len(),
                    forall|i: int|
                        0 <= i < input.modules@.len() ==> ctx.find(
                            path_key(#[trigger] input.modules@[i].name.value@),
                        ) is Some,
                decreases module.words@.len() - j,
            {
                let word = &module.words[j].value;
                let entrypoint = m == 0 && same_text(word.name.value.as_str(), "main");
                let ghost before = ctx;
                match ctx.register_word(&module.name.value, word, entrypoint) {
                    Ok(_) => {},
                    Err(e) => {
                        let ghost before_d = diagnostics;
                        diagnostics.emit_fatal(e);
                        proof {
                            lemma_emit_keeps_errors_only(before_d, diagnostics, e);
                        }
                    },
                }
                proof {
                    assert forall|i: int| 0 <= i < ctx.symbols@.len() implies fields_before(
                        #[trigger] ctx.symbols@[i],
                        i,
                    ) by {
                        if i < before.symbols@.len() {
                            assert(ctx.symbols@[i] == before.symbols@[i]);
                        }
                    }
                }
                j += 1;
            }
            m += 1;
        }
        StageResult::new(Some((ctx, input)), diagnostics)
    }
}

} // verus!
