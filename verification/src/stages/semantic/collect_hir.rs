//! The second semantic stage: resolves the names in every word body and
//! builds the HIR of the program.
use vstd::prelude::*;

use crate::common::{CompileContext, DottedPath, Span, Spanned};
use crate::error::{CompileError, Diagnostics, errors_only, lemma_emit_keeps_errors_only};
use crate::pipeline::{Stage, StageResult};
use crate::stages::parse::ast::{
    ASTAttribute, ASTInstruction, ASTLiteral, ASTModule, ASTProgram, ASTStruct, ASTWord,
};
use crate::stages::semantic::context::{HIRContext, SymbolId, SymbolKind, path_key};
use crate::stages::semantic::hir::{
    HIRInstruction, HIRLiteral, HIRModule, HIRProgram, HIRStruct, HIRType, HIRWord,
    HIRWordAttribute, HIRWordSignature, copy_type, type_view,
};
use crate::text::{all_digits, copy_string, decimal_value, is_digit, join_seq, same_text, string_views};

verus! {

/// The value of a field number written in a call path.
pub fn parse_index(s: &str) -> (r: Option<usize>)
    ensures
        r matches Some(n) ==> all_digits(s@) && decimal_value(s@) == n,
        r is None ==> !all_digits(s@) || decimal_value(s@) > usize::MAX,
{
    let n = s.unicode_len();
    if n == 0 {
        return None;
    }
    let mut value: usize = 0;
    let mut i: usize = 0;
    while i < n
        invariant
            n == s@.len(),
            i <= n,
            forall|j: int| 0 <= j < i ==> is_digit(#[trigger] s@[j]),
            value == decimal_value(s@.subrange(0, i as int)),
        decreases n - i,
    {
        let c = s.get_char(i);
        if !('0' <= c && c <= '9') {
            return None;
        }
        let d = (c as u32 - '0' as u32) as usize;
        let ghost sub = s@.subrange(0, i + 1);
        assert(sub.drop_last() =~= s@.subrange(0, i as int));
        assert(decimal_value(sub) == decimal_value(sub.drop_last()) * 10 + (d as nat));
        if value > (usize::MAX - d) / 10 {
            proof {
                lemma_decimal_prefix_bound(s@, i as int + 1);
            }
            return None;
        }
        value = value * 10 + d;
        i += 1;
    }
    assert(s@.subrange(0, n as int) =~= s@);
    Some(value)
}

/// A number only grows as digits are added.
proof fn lemma_decimal_prefix_bound(s: Seq<char>, k: int)
    requires
        0 < k <= s.len(),
        forall|j: int| 0 <= j < k ==> is_digit(#[trigger] s[j]),
    ensures
        all_digits(s) ==> decimal_value(s.subrange(0, k)) <= decimal_value(s),
    decreases s.len() - k,
{
    if k < s.len() && all_digits(s) {
        assert forall|j: int| 0 <= j < k + 1 implies is_digit(#[trigger] s[j]) by {}
        lemma_decimal_prefix_bound(s, k + 1);
        let sub = s.subrange(0, k + 1);
        assert(sub.drop_last() =~= s.subrange(0, k));
        assert(decimal_value(sub) == decimal_value(s.subrange(0, k)) * 10 + crate::text::digit_value(
            sub.last(),
        ));
    } else if k == s.len() {
        assert(s.subrange(0, k) =~= s);
    }
}

/// The word a call names: in the module where the name has one segment,
/// else by its full name.
pub open spec fn resolve_word(ctx: &HIRContext, module_name: Seq<Seq<char>>, name: Seq<Seq<char>>) -> Option<
    int,
> {
    if name.len() == 1 && (ctx.find(path_key(module_name + name)) matches Some(i) && ctx.symbols@[i] is Word) {
        ctx.find(path_key(module_name + name))
    } else if ctx.find(path_key(name)) matches Some(i) && ctx.symbols@[i] is Word {
        ctx.find(path_key(name))
    } else {
        None
    }
}

/// The struct a pack or unpack names, the same way.
pub open spec fn resolve_struct(ctx: &HIRContext, module_name: Seq<Seq<char>>, name: Seq<Seq<char>>) -> Option<
    int,
> {
    if name.len() == 1 && (ctx.find(path_key(module_name + name)) matches Some(i) && ctx.symbols@[i] is Struct) {
        ctx.find(path_key(module_name + name))
    } else if ctx.find(path_key(name)) matches Some(i) && ctx.symbols@[i] is Struct {
        ctx.find(path_key(name))
    } else {
        None
    }
}

/// The symbol is a struct with a field of that index.
pub open spec fn field_exists(ctx: &HIRContext, struct_id: SymbolId, field_index: usize) -> bool {
    struct_id.0 < ctx.symbols@.len() && match ctx.symbols@[struct_id.0 as int] {
        SymbolKind::Struct { fields, .. } => field_index < fields@.len(),
        _ => false,
    }
}

/// A path segment that reads as a field number.
pub open spec fn is_index(s: Seq<char>) -> bool {
    all_digits(s) && decimal_value(s) <= usize::MAX
}

/// Some segment of the path reads as a field number.
pub open spec fn has_index_segment(p: Seq<Seq<char>>) -> bool {
    exists|i: int| 0 <= i < p.len() && is_index(#[trigger] p[i])
}

/// The candidate under which a one-segment name is looked up first.
pub open spec fn local_first(ctx: &HIRContext, module_name: Seq<Seq<char>>, name: Seq<Seq<char>>) -> bool {
    name.len() == 1 && ctx.find(path_key(module_name + name)) is Some
}

/// The symbol a name names, of whatever kind: in the module where the name
/// has one segment, else by its full name.
pub open spec fn resolve_any(ctx: &HIRContext, module_name: Seq<Seq<char>>, name: Seq<Seq<char>>) -> Option<int> {
    if local_first(ctx, module_name, name) {
        ctx.find(path_key(module_name + name))
    } else {
        ctx.find(path_key(name))
    }
}

/// The full path under which `resolve_any` found the symbol.
pub open spec fn resolve_any_path(ctx: &HIRContext, module_name: Seq<Seq<char>>, name: Seq<Seq<char>>) -> Seq<
    Seq<char>,
> {
    if local_first(ctx, module_name, name) {
        module_name + name
    } else {
        name
    }
}

/// The full path under which `resolve_word` found the word.
pub open spec fn resolve_word_path(ctx: &HIRContext, module_name: Seq<Seq<char>>, name: Seq<Seq<char>>) -> Seq<
    Seq<char>,
> {
    if name.len() == 1 && (ctx.find(path_key(module_name + name)) matches Some(i) && ctx.symbols@[i] is Word) {
        module_name + name
    } else {
        name
    }
}

/// The name a struct symbol carries.
pub open spec fn struct_name(ctx: &HIRContext, i: int) -> Seq<char> {
    match ctx.symbols@[i] {
        SymbolKind::Struct { name, .. } => name@,
        _ => Seq::empty(),
    }
}

/// A call path ending in a field number: a field read.
pub open spec fn is_field_call(p: Seq<Seq<char>>) -> bool {
    p.len() > 0 && is_index(p.last())
}

/// A field read whose struct path finds a symbol that is no struct.
pub open spec fn field_call_not_struct(ctx: &HIRContext, module_name: Seq<Seq<char>>, p: Seq<Seq<char>>) -> bool {
    &&& is_field_call(p)
    &&& !has_index_segment(p.drop_last())
    &&& resolve_any(ctx, module_name, p.drop_last()) matches Some(i)
    &&& ctx.symbols@[i] !is Struct
}

/// A field read of a struct that has no field of that number.
pub open spec fn field_call_out_of_range(ctx: &HIRContext, module_name: Seq<Seq<char>>, p: Seq<Seq<char>>) -> bool {
    &&& is_field_call(p)
    &&& !has_index_segment(p.drop_last())
    &&& resolve_any(ctx, module_name, p.drop_last()) matches Some(i)
    &&& ctx.symbols@[i] matches SymbolKind::Struct { fields, .. }
    &&& decimal_value(p.last()) >= fields@.len()
}

/// Whether a call path resolves: a field read of an existing field, or a
/// word, with no field number before the end.
pub open spec fn call_resolvable(ctx: &HIRContext, module_name: Seq<Seq<char>>, p: Seq<Seq<char>>) -> bool {
    if is_field_call(p) {
        &&& !has_index_segment(p.drop_last())
        &&& resolve_any(ctx, module_name, p.drop_last()) matches Some(i)
        &&& ctx.symbols@[i] matches SymbolKind::Struct { fields, .. }
        &&& decimal_value(p.last()) < fields@.len()
    } else {
        !has_index_segment(p) && resolve_word(ctx, module_name, p) is Some
    }
}

/// What a resolvable call path becomes.
pub open spec fn call_resolved(
    ctx: &HIRContext,
    module_name: Seq<Seq<char>>,
    p: Seq<Seq<char>>,
    h: HIRInstruction,
) -> bool {
    if is_field_call(p) {
        h matches HIRInstruction::GetField { name, struct_id, field_index } && resolve_any(
            ctx,
            module_name,
            p.drop_last(),
        ) == Some(struct_id.0 as int) && field_index == decimal_value(p.last()) && name@ == struct_name(
            ctx,
            struct_id.0 as int,
        )
    } else {
        h matches HIRInstruction::Call { name, symbol_id, type_args } && resolve_word(ctx, module_name, p)
            == Some(symbol_id.0 as int) && type_args@.len() == 0 && name@ == join_seq(
            resolve_word_path(ctx, module_name, p),
            '.',
        )
    }
}

/// Whether every name in an instruction resolves; `wordpath` is the full
/// path of the word whose body holds it.
pub open spec fn instruction_resolvable(
    ctx: &HIRContext,
    module_name: Seq<Seq<char>>,
    wordpath: Seq<Seq<char>>,
    a: ASTInstruction,
) -> bool
    decreases a,
{
    match a {
        ASTInstruction::Literal(_) => true,
        ASTInstruction::Call(p) => call_resolvable(ctx, module_name, p@),
        ASTInstruction::Pack(p) => resolve_struct(ctx, module_name, p@) is Some,
        ASTInstruction::PackPostfix(p) => resolve_struct(ctx, module_name, p@) is Some,
        ASTInstruction::Unpack(p) => resolve_struct(ctx, module_name, p@) is Some,
        ASTInstruction::Lambda { stack_effect, body } => {
            &&& crate::stages::semantic::context::all_resolvable(
                ctx,
                module_name,
                wordpath,
                stack_effect.value.stack_in@,
            )
            &&& crate::stages::semantic::context::all_resolvable(
                ctx,
                module_name,
                wordpath,
                stack_effect.value.stack_out@,
            )
            &&& forall|i: int|
                0 <= i < body@.len() ==> instruction_resolvable(
                    ctx,
                    module_name,
                    wordpath,
                    #[trigger] body@[i].value,
                )
        },
    }
}

/// What an instruction was resolved to, against what it was written as.
pub open spec fn resolved(
    ctx: &HIRContext,
    module_name: Seq<Seq<char>>,
    wordpath: Seq<Seq<char>>,
    a: ASTInstruction,
    h: HIRInstruction,
) -> bool
    decreases a,
{
    match a {
        ASTInstruction::Literal(ASTLiteral::Bool(b)) => h == HIRInstruction::Literal(HIRLiteral::Bool(b)),
        ASTInstruction::Literal(ASTLiteral::U8(v)) => h == HIRInstruction::Literal(HIRLiteral::U8(v)),
        ASTInstruction::Literal(ASTLiteral::U16(v)) => h == HIRInstruction::Literal(HIRLiteral::U16(v)),
        ASTInstruction::Literal(ASTLiteral::String(s)) => h matches HIRInstruction::Literal(
            HIRLiteral::String(t),
        ) && t@ == s@,
        ASTInstruction::Call(p) => call_resolved(ctx, module_name, p@, h),
        ASTInstruction::Pack(p) => h matches HIRInstruction::Pack { name, struct_id } && resolve_struct(
            ctx,
            module_name,
            p@,
        ) == Some(struct_id.0 as int) && name@ == struct_name(ctx, struct_id.0 as int),
        ASTInstruction::PackPostfix(p) => h matches HIRInstruction::Pack { name, struct_id }
            && resolve_struct(ctx, module_name, p@) == Some(struct_id.0 as int) && name@ == struct_name(
            ctx,
            struct_id.0 as int,
        ),
        ASTInstruction::Unpack(p) => h matches HIRInstruction::Unpack { name, struct_id }
            && resolve_struct(ctx, module_name, p@) == Some(struct_id.0 as int) && name@ == struct_name(
            ctx,
            struct_id.0 as int,
        ),
        ASTInstruction::Lambda { stack_effect, body } => {
            &&& h matches HIRInstruction::Lambda { stack_in, stack_out, body: hbody }
            &&& crate::stages::semantic::context::resolves_all(
                ctx,
                module_name,
                wordpath,
                stack_effect.value.stack_in@,
                stack_in@,
            )
            &&& crate::stages::semantic::context::resolves_all(
                ctx,
                module_name,
                wordpath,
                stack_effect.value.stack_out@,
                stack_out@,
            )
            &&& hbody@.len() == body@.len()
            &&& forall|i: int|
                0 <= i < body@.len() ==> resolved(
                    ctx,
                    module_name,
                    wordpath,
                    #[trigger] body@[i].value,
                    hbody@[i].value,
                ) && hbody@[i].span == body@[i].span
        },
    }
}

/// Every attribute is `builtin`.
pub open spec fn attributes_known(attrs: Seq<Spanned<ASTAttribute>>) -> bool {
    forall|j: int| 0 <= j < attrs.len() ==> (#[trigger] attrs[j]).value.name@ == "builtin"@
}

/// The result reports the first attribute that is not `builtin`, by its
/// name and span.
pub open spec fn attribute_error(r: Result<HIRWord, CompileError>, attrs: Seq<Spanned<ASTAttribute>>) -> bool {
    r matches Err(CompileError::InvalidAttribute { name, span, .. }) && exists|j: int|
        0 <= j < attrs.len() && attributes_known(attrs.subrange(0, j)) && (#[trigger] attrs[j]).value.name@
            != "builtin"@ && name@ == attrs[j].value.name@ && span == attrs[j].span
}

/// The error is reported at the span.
pub open spec fn error_at(e: CompileError, span: Span) -> bool {
    match e {
        CompileError::SymbolNotFound { span: s, .. } => s == span,
        CompileError::InvalidSymbol { span: s, .. } => s == span,
        CompileError::InvalidFieldIndex { span: s, .. } => s == span,
        _ => false,
    }
}

/// The fields of a call's resolution error: a missing symbol by the call
/// path, a symbol of the wrong kind by the path it was found under, and a
/// field number out of range with the struct's name and field count.
pub open spec fn call_error_fields(
    ctx: &HIRContext,
    module_name: Seq<Seq<char>>,
    p: Seq<Seq<char>>,
    r: Result<HIRInstruction, CompileError>,
    span: Span,
) -> bool {
    match r {
        Err(CompileError::SymbolNotFound { name, .. }) => name@ == join_seq(p, '.'),
        Err(CompileError::InvalidSymbol { name, .. }) => name@ == join_seq(
            resolve_any_path(ctx, module_name, p.drop_last()),
            '.',
        ),
        Err(CompileError::InvalidFieldIndex { name, index, field_count, .. }) => {
            &&& resolve_any(ctx, module_name, p.drop_last()) matches Some(i)
            &&& name@ == struct_name(ctx, i)
            &&& index == decimal_value(p.last())
            &&& (ctx.symbols@[i] matches SymbolKind::Struct { fields, .. } && field_count == fields@.len())
        },
        _ => true,
    }
}

/// The errors of name resolution in bodies.
pub open spec fn is_resolution_error(e: CompileError) -> bool {
    ||| e is SymbolNotFound
    ||| e is InvalidSymbol
    ||| e is InvalidFieldIndex
    ||| e is InvalidAttribute
}

/// Whether a word's HIR can be built: every attribute is `builtin`, its
/// full path names a word, and every name in its body resolves.
pub open spec fn word_resolvable(ctx: &HIRContext, module_name: Seq<Seq<char>>, word: ASTWord) -> bool {
    &&& forall|j: int| 0 <= j < word.attributes@.len() ==> (#[trigger] word.attributes@[j]).value.name@ == "builtin"@
    &&& ctx.find(path_key(module_name.push(word.name.value@))) matches Some(i)
    &&& ctx.symbols@[i] is Word
    &&& forall|i: int|
        0 <= i < word.body@.len() ==> instruction_resolvable(
            ctx,
            module_name,
            module_name.push(word.name.value@),
            #[trigger] word.body@[i].value,
        )
}

/// The positions of the words of a list whose HIR can be built, in order.
pub open spec fn built_words(ctx: &HIRContext, module_name: Seq<Seq<char>>, words: Seq<Spanned<ASTWord>>) -> Seq<
    int,
>
    decreases words.len(),
{
    if words.len() == 0 {
        Seq::empty()
    } else if word_resolvable(ctx, module_name, words.last().value) {
        built_words(ctx, module_name, words.drop_last()).push(words.len() - 1)
    } else {
        built_words(ctx, module_name, words.drop_last())
    }
}

/// Every position `built_words` gives lies in the list.
proof fn lemma_built_words_bounds(ctx: &HIRContext, module_name: Seq<Seq<char>>, words: Seq<Spanned<ASTWord>>)
    ensures
        forall|k: int|
            0 <= k < built_words(ctx, module_name, words).len() ==> 0 <= #[trigger] built_words(
                ctx,
                module_name,
                words,
            )[k] < words.len(),
    decreases words.len(),
{
    if words.len() > 0 {
        let before = built_words(ctx, module_name, words.drop_last());
        lemma_built_words_bounds(ctx, module_name, words.drop_last());
        assert forall|k: int|
            0 <= k < built_words(ctx, module_name, words).len() implies 0 <= #[trigger] built_words(
                ctx,
                module_name,
                words,
            )[k] < words.len() by {
            if k < before.len() {
                assert(before[k] < words.drop_last().len());
            }
        }
    }
}

/// The HIR of a module as `analyze_module` builds it: the module's id, and
/// the words whose HIR can be built, in order, each with its span and id.
pub open spec fn module_analyzed(ctx: &HIRContext, module: ASTModule, m: HIRModule) -> bool {
    &&& ctx.find(path_key(module.name.value@)) == Some(m.id.0 as int)
    &&& m.words@.len() == built_words(ctx, module.name.value@, module.words@).len()
    &&& forall|k: int|
        0 <= k < m.words@.len() ==> #[trigger] m.words@[k].span == module.words@[built_words(
            ctx,
            module.name.value@,
            module.words@,
        )[k]].value.name.span && ctx.find(
            path_key(
                module.name.value@.push(
                    module.words@[built_words(ctx, module.name.value@, module.words@)[k]].value.name.value@,
                ),
            ),
        ) == Some(m.words@[k].value.id.0 as int)
}

/// The positions of the modules whose name is registered, in order.
pub open spec fn registered_modules(ctx: &HIRContext, modules: Seq<ASTModule>) -> Seq<int>
    decreases modules.len(),
{
    if modules.len() == 0 {
        Seq::empty()
    } else if ctx.find(path_key(modules.last().name.value@)) is Some {
        registered_modules(ctx, modules.drop_last()).push(modules.len() - 1)
    } else {
        registered_modules(ctx, modules.drop_last())
    }
}

proof fn lemma_registered_modules_bounds(ctx: &HIRContext, modules: Seq<ASTModule>)
    ensures
        forall|k: int|
            0 <= k < registered_modules(ctx, modules).len() ==> 0 <= #[trigger] registered_modules(ctx, modules)[k]
                < modules.len(),
    decreases modules.len(),
{
    if modules.len() > 0 {
        let before = registered_modules(ctx, modules.drop_last());
        lemma_registered_modules_bounds(ctx, modules.drop_last());
        assert forall|k: int|
            0 <= k < registered_modules(ctx, modules).len() implies 0 <= #[trigger] registered_modules(ctx, modules)[k]
                < modules.len() by {
            if k < before.len() {
                assert(before[k] < modules.drop_last().len());
            }
        }
    }
}

/// The HIR modules are those of the registered modules, in order.
pub open spec fn modules_analyzed(ctx: &HIRContext, modules: Seq<ASTModule>, out: Seq<HIRModule>) -> bool {
    &&& out.len() == registered_modules(ctx, modules).len()
    &&& forall|k: int|
        0 <= k < out.len() ==> module_analyzed(ctx, modules[registered_modules(ctx, modules)[k]], #[trigger] out[k])
}

/// The struct is registered under the module's name and its own.
pub open spec fn struct_found(ctx: &HIRContext, module_name: Seq<Seq<char>>, item: ASTStruct) -> bool {
    ctx.find(path_key(module_name.push(item.name.value@))) matches Some(i) && ctx.symbols@[i] is Struct
}

/// The first `ni` imports of the module are registered, its first `ns`
/// structs found and the HIR of its first `nw` words can be built.
#[verifier::opaque]
pub open spec fn prefix_clean(ctx: &HIRContext, module: ASTModule, ni: int, ns: int, nw: int) -> bool {
    &&& forall|j: int| 0 <= j < ni ==> ctx.find(path_key((#[trigger] module.imports@[j]).value.name@)) is Some
    &&& forall|j: int| 0 <= j < ns ==> struct_found(ctx, module.name.value@, (#[trigger] module.structs@[j]).value)
    &&& forall|j: int| 0 <= j < nw ==> word_resolvable(ctx, module.name.value@, (#[trigger] module.words@[j]).value)
}

/// Every name of the module resolves: the module, its imports, its
/// structs and its words.
pub open spec fn module_clean(ctx: &HIRContext, module: ASTModule) -> bool {
    &&& ctx.find(path_key(module.name.value@)) is Some
    &&& prefix_clean(ctx, module, module.imports@.len() as int, module.structs@.len() as int, module.words@.len() as int)
}

proof fn lemma_prefix_clean_step(ctx: &HIRContext, module: ASTModule, ni: int, ns: int, nw: int, which: int)
    requires
        0 <= ni,
        0 <= ns,
        0 <= nw,
    ensures
        which == 0 ==> prefix_clean(ctx, module, ni + 1, ns, nw) == (prefix_clean(ctx, module, ni, ns, nw)
            && ctx.find(path_key(module.imports@[ni].value.name@)) is Some),
        which == 1 ==> prefix_clean(ctx, module, ni, ns + 1, nw) == (prefix_clean(ctx, module, ni, ns, nw)
            && struct_found(ctx, module.name.value@, module.structs@[ns].value)),
        which == 2 ==> prefix_clean(ctx, module, ni, ns, nw + 1) == (prefix_clean(ctx, module, ni, ns, nw)
            && word_resolvable(ctx, module.name.value@, module.words@[nw].value)),
        prefix_clean(ctx, module, 0, 0, 0),
{
    reveal(prefix_clean);
}

/// `outs` are the HIR words of the words of `ws` whose HIR can be built,
/// in order, with their spans and ids.
pub open spec fn words_built(
    ctx: &HIRContext,
    mname: Seq<Seq<char>>,
    ws: Seq<Spanned<ASTWord>>,
    outs: Seq<Spanned<HIRWord>>,
) -> bool {
    &&& outs.len() == built_words(ctx, mname, ws).len()
    &&& forall|k: int|
        0 <= k < outs.len() ==> {
            let j = built_words(ctx, mname, ws)[k];
            &&& 0 <= j < ws.len()
            &&& #[trigger] outs[k].span == ws[j].value.name.span
            &&& ctx.find(path_key(mname.push(ws[j].value.name.value@))) == Some(outs[k].value.id.0 as int)
        }
}

proof fn lemma_words_built_step(
    ctx: &HIRContext,
    mname: Seq<Seq<char>>,
    ws: Seq<Spanned<ASTWord>>,
    outs: Seq<Spanned<HIRWord>>,
    next: Seq<Spanned<HIRWord>>,
)
    requires
        ws.len() > 0,
        words_built(ctx, mname, ws.drop_last(), outs),
        word_resolvable(ctx, mname, ws.last().value) ==> next.len() == outs.len() + 1 && next.drop_last() == outs
            && next.last().span == ws.last().value.name.span && ctx.find(
            path_key(mname.push(ws.last().value.name.value@)),
        ) == Some(next.last().value.id.0 as int),
        !word_resolvable(ctx, mname, ws.last().value) ==> next == outs,
    ensures
        words_built(ctx, mname, ws, next),
{
    lemma_built_words_bounds(ctx, mname, ws.drop_last());
    let pre = ws.drop_last();
    if word_resolvable(ctx, mname, ws.last().value) {
        assert(built_words(ctx, mname, ws) == built_words(ctx, mname, pre).push(ws.len() - 1));
    } else {
        assert(built_words(ctx, mname, ws) == built_words(ctx, mname, pre));
    }
    assert forall|k: int| 0 <= k < next.len() implies {
        let j = built_words(ctx, mname, ws)[k];
        &&& 0 <= j < ws.len()
        &&& #[trigger] next[k].span == ws[j].value.name.span
        &&& ctx.find(path_key(mname.push(ws[j].value.name.value@))) == Some(next[k].value.id.0 as int)
    } by {
        if k < outs.len() {
            assert(built_words(ctx, mname, ws)[k] == built_words(ctx, mname, pre)[k]);
            if word_resolvable(ctx, mname, ws.last().value) {
                assert(next[k] == next.drop_last()[k]);
            }
            assert(next[k] == outs[k]);
            let j = built_words(ctx, mname, pre)[k];
            assert(outs[k].span == pre[j].value.name.span);
            assert(0 <= j < pre.len());
            assert(ws[j] == pre[j]);
        } else {
            assert(built_words(ctx, mname, ws)[k] == ws.len() - 1);
            assert(next[k] == next.last());
            assert(ws[ws.len() - 1] == ws.last());
        }
    }
}

/// Builds the HIR of every module.
pub struct CollectHIRStage;

impl CollectHIRStage {
    /// The word a one-segment name names in the module, else the word of
    /// the full name.
    fn find_word(ctx: &HIRContext, module: &ASTModule, name: &DottedPath) -> (r: Option<(SymbolId, String)>)
        requires
            ctx.wf(),
        ensures
            r matches Some((id, full)) ==> resolve_word(ctx, module.name.value@, name@) == Some(id.0 as int)
                && full@ == join_seq(resolve_word_path(ctx, module.name.value@, name@), '.'),
            r is None ==> resolve_word(ctx, module.name.value@, name@) is None,
    {
        if name.len() == 1 {
            let local = module.name.value.extend(name);
            match ctx.lookup_and_get(&local) {
                Some((id, SymbolKind::Word { .. })) => {
                    return Some((id, local.to_dotted_string()));
                },
                _ => {},
            }
        }
        match ctx.lookup_and_get(name) {
            Some((id, SymbolKind::Word { .. })) => Some((id, name.to_dotted_string())),
            _ => None,
        }
    }

    /// The struct a one-segment name names in the module, else the struct
    /// of the full name.
    fn find_struct(ctx: &HIRContext, module: &ASTModule, name: &DottedPath) -> (r: Option<SymbolId>)
        requires
            ctx.wf(),
        ensures
            r matches Some(id) ==> resolve_struct(ctx, module.name.value@, name@) == Some(id.0 as int)
                && id.0 < ctx.symbols@.len(),
            r is None ==> resolve_struct(ctx, module.name.value@, name@) is None,
    {
        if name.len() == 1 {
            let local = module.name.value.extend(name);
            match ctx.lookup_and_get(&local) {
                Some((id, SymbolKind::Struct { .. })) => {
                    proof {
                        crate::stages::semantic::context::lemma_symbol_index(ctx.names(), path_key(local@));
                    }
                    return Some(id);
                },
                _ => {},
            }
        }
        match ctx.lookup_and_get(name) {
            Some((id, SymbolKind::Struct { .. })) => {
                proof {
                    crate::stages::semantic::context::lemma_symbol_index(ctx.names(), path_key(name@));
                }
                Some(id)
            },
            _ => None,
        }
    }

    /// The symbol a one-segment name names in the module, else the symbol
    /// of the full name, of whatever kind.
    fn find_any(ctx: &HIRContext, module: &ASTModule, name: &DottedPath) -> (r: Option<(SymbolId, DottedPath)>)
        requires
            ctx.wf(),
        ensures
            r matches Some((id, full)) ==> resolve_any(ctx, module.name.value@, name@) == Some(id.0 as int)
                && id.0 < ctx.symbols@.len() && full@ == resolve_any_path(ctx, module.name.value@, name@),
            r is None ==> resolve_any(ctx, module.name.value@, name@) is None,
    {
        if name.len() == 1 {
            let local = module.name.value.extend(name);
            match ctx.lookup_and_get(&local) {
                Some((id, _)) => {
                    proof {
                        crate::stages::semantic::context::lemma_symbol_index(ctx.names(), path_key(local@));
                    }
                    return Some((id, local));
                },
                None => {},
            }
        }
        match ctx.lookup_and_get(name) {
            Some((id, _)) => {
                proof {
                    crate::stages::semantic::context::lemma_symbol_index(ctx.names(), path_key(name@));
                }
                Some((id, name.copy()))
            },
            None => None,
        }
    }

    /// Resolves the names of one instruction.
    fn analyze_instruction(
        module: &ASTModule,
        word: &ASTWord,
        instruction: &Spanned<ASTInstruction>,
        ctx: &HIRContext,
    ) -> (r: Result<HIRInstruction, CompileError>)
        requires
            ctx.wf(),
        ensures
            r is Ok <==> instruction_resolvable(
                ctx,
                module.name.value@,
                module.name.value@.push(word.name.value@),
                instruction.value,
            ),
            r matches Ok(h) ==> resolved(
                ctx,
                module.name.value@,
                module.name.value@.push(word.name.value@),
                instruction.value,
                h,
            ),
            r matches Err(e) ==> is_resolution_error(e),
            instruction.value matches ASTInstruction::Call(p) ==> (r matches Err(e) ==> ((e is InvalidSymbol
                <==> field_call_not_struct(ctx, module.name.value@, p@)) && (e is InvalidFieldIndex
                <==> field_call_out_of_range(ctx, module.name.value@, p@)))),
            instruction.value matches ASTInstruction::Call(p) ==> call_error_fields(ctx, module.name.value@, p@, r, instruction.span),
            !(instruction.value is Lambda) ==> (r matches Err(e) ==> error_at(e, instruction.span)),
        decreases instruction_size(instruction.value), 0nat,
    {
        match &instruction.value {
            ASTInstruction::Literal(literal) => match literal {
                ASTLiteral::Bool(b) => Ok(HIRInstruction::Literal(HIRLiteral::Bool(*b))),
                ASTLiteral::U8(v) => Ok(HIRInstruction::Literal(HIRLiteral::U8(*v))),
                ASTLiteral::U16(v) => Ok(HIRInstruction::Literal(HIRLiteral::U16(*v))),
                ASTLiteral::String(s) => Ok(HIRInstruction::Literal(HIRLiteral::String(copy_string(s)))),
            },
            ASTInstruction::Call(call) => {
                let ghost p = call@;
                let n = call.0.len();
                let last_index = if n == 0 {
                    None
                } else {
                    parse_index(call.0[n - 1].as_str())
                };
                assert(last_index is Some <==> is_field_call(p));
                assert(last_index matches Some(f) ==> f == decimal_value(p.last()));
                let prefix_len = if last_index.is_some() {
                    n - 1
                } else {
                    n
                };
                let mut segments: Vec<String> = Vec::new();
                let mut i: usize = 0;
                while i < prefix_len
                    invariant
                        n == call.0@.len(),
                        p == call@,
                        prefix_len <= n,
                        last_index is Some ==> n > 0 && prefix_len == n - 1,
                        last_index is None ==> prefix_len == n,
                        last_index is Some <==> is_field_call(p),
                        instruction.value matches ASTInstruction::Call(q) && q@ == p,
                        last_index matches Some(f) ==> f == decimal_value(p.last()),
                        i <= prefix_len,
                        string_views(segments@) =~= p.subrange(0, i as int),
                        forall|j: int| 0 <= j < i ==> !is_index(#[trigger] p[j]),
                    decreases prefix_len - i,
                {
                    if parse_index(call.0[i].as_str()).is_some() {
                        assert(is_index(p[i as int]));
                        assert(has_index_segment(p.subrange(0, prefix_len as int))) by {
                            assert(p.subrange(0, prefix_len as int)[i as int] == p[i as int]);
                        }
                        if last_index.is_some() {
                            assert(p.subrange(0, prefix_len as int) =~= p.drop_last());
                        } else {
                            assert(p.subrange(0, prefix_len as int) =~= p);
                        }
                        return Err(
                            CompileError::SymbolNotFound {
                                name: call.to_dotted_string(),
                                span: instruction.span,
                            },
                        );
                    }
                    let ghost before = segments@;
                    segments.push(copy_string(&call.0[i]));
                    proof {
                        crate::text::lemma_views_push(before, segments@.last());
                        assert(segments@ =~= before.push(segments@.last()));
                    }
                    i += 1;
                }
                let ghost prefix = p.subrange(0, prefix_len as int);
                assert(!has_index_segment(prefix)) by {
                    assert forall|j: int| 0 <= j < prefix.len() implies !is_index(#[trigger] prefix[j]) by {
                        assert(prefix[j] == p[j]);
                    }
                }
                match last_index {
                    Some(field_index) => {
                        assert(prefix =~= p.drop_last());
                        let struct_name = DottedPath(segments);
                        assert(struct_name@ == p.drop_last());
                        let (id, full) = match Self::find_any(ctx, module, &struct_name) {
                            Some(found) => found,
                            None => {
                                return Err(
                                    CompileError::SymbolNotFound {
                                        name: call.to_dotted_string(),
                                        span: instruction.span,
                                    },
                                );
                            },
                        };
                        match ctx.get(id) {
                            Some(SymbolKind::Struct { name, fields }) => {
                                if field_index >= fields.len() {
                                    return Err(
                                        CompileError::InvalidFieldIndex {
                                            name: copy_string(name),
                                            index: field_index,
                                            field_count: fields.len(),
                                            span: instruction.span,
                                        },
                                    );
                                }
                                Ok(
                                    HIRInstruction::GetField {
                                        name: copy_string(name),
                                        struct_id: id,
                                        field_index,
                                    },
                                )
                            },
                            _ => Err(
                                CompileError::InvalidSymbol {
                                    name: full.to_dotted_string(),
                                    span: instruction.span,
                                },
                            ),
                        }
                    },
                    None => {
                        assert(prefix =~= p);
                        match Self::find_word(ctx, module, call) {
                            Some((symbol_id, name)) => Ok(
                                HIRInstruction::Call { name, symbol_id, type_args: Vec::new() },
                            ),
                            None => Err(
                                CompileError::SymbolNotFound {
                                    name: call.to_dotted_string(),
                                    span: instruction.span,
                                },
                            ),
                        }
                    },
                }
            },
            ASTInstruction::Pack(name) | ASTInstruction::PackPostfix(name) | ASTInstruction::Unpack(
                name,
            ) => {
                let struct_id = match Self::find_struct(ctx, module, name) {
                    Some(id) => id,
                    None => {
                        return Err(
                            CompileError::SymbolNotFound {
                                name: name.to_dotted_string(),
                                span: instruction.span,
                            },
                        );
                    },
                };
                let full_name = match ctx.get(struct_id) {
                    Some(SymbolKind::Struct { name, .. }) => copy_string(name),
                    _ => name.to_dotted_string(),
                };
                match &instruction.value {
                    ASTInstruction::Unpack(_) => Ok(HIRInstruction::Unpack { name: full_name, struct_id }),
                    _ => Ok(HIRInstruction::Pack { name: full_name, struct_id }),
                }
            },
            ASTInstruction::Lambda { stack_effect, body } => {
                let wordpath = module.name.value.append(word.name.value.as_str());
                let stack_in = match ctx.resolve_items(&module.name.value, &wordpath, &stack_effect.value.stack_in) {
                    Ok(t) => t,
                    Err(e) => {
                        return Err(e);
                    },
                };
                let stack_out = match ctx.resolve_items(&module.name.value, &wordpath, &stack_effect.value.stack_out) {
                    Ok(t) => t,
                    Err(e) => {
                        return Err(e);
                    },
                };
                let result_body = Self::analyze_body(module, word, body, ctx)?;
                Ok(HIRInstruction::Lambda { stack_in, stack_out, body: result_body })
            },
        }
    }
}

/// How many instructions an instruction is made of, lambda bodies included.
pub open spec fn instruction_size(i: ASTInstruction) -> nat
    decreases i,
{
    match i {
        ASTInstruction::Lambda { body, .. } => 1 + body_size(body@),
        _ => 1,
    }
}

pub open spec fn body_size(body: Seq<Spanned<ASTInstruction>>) -> nat
    decreases body,
{
    if body.len() == 0 {
        0
    } else {
        body_size(body.drop_last()) + instruction_size(body.last().value)
    }
}

proof fn lemma_body_size(body: Seq<Spanned<ASTInstruction>>, i: int)
    requires
        0 <= i < body.len(),
    ensures
        instruction_size(body[i].value) <= body_size(body),
    decreases body.len(),
{
    if i < body.len() - 1 {
        assert(body.drop_last()[i] == body[i]);
        lemma_body_size(body.drop_last(), i);
    }
}

impl CollectHIRStage {
    /// Resolves the names of a body, instruction by instruction.
    #[verifier::spinoff_prover]
    fn analyze_body(
        module: &ASTModule,
        word: &ASTWord,
        body: &Vec<Spanned<ASTInstruction>>,
        ctx: &HIRContext,
    ) -> (r: Result<Vec<Spanned<HIRInstruction>>, CompileError>)
        requires
            ctx.wf(),
        ensures
            r is Ok <==> forall|i: int|
                0 <= i < body@.len() ==> instruction_resolvable(
                    ctx,
                    module.name.value@,
                    module.name.value@.push(word.name.value@),
                    #[trigger] body@[i].value,
                ),
            r matches Ok(h) ==> h@.len() == body@.len() && forall|i: int|
                0 <= i < body@.len() ==> resolved(
                    ctx,
                    module.name.value@,
                    module.name.value@.push(word.name.value@),
                    #[trigger] body@[i].value,
                    h@[i].value,
                ) && h@[i].span == body@[i].span,
            r matches Err(e) ==> is_resolution_error(e),
        decreases body_size(body@), 1nat,
    {
        let ghost wp = module.name.value@.push(word.name.value@);
        let mut result: Vec<Spanned<HIRInstruction>> = Vec::new();
        let mut i: usize = 0;
        while i < body.len()
            invariant
                ctx.wf(),
                wp == module.name.value@.push(word.name.value@),
                i <= body@.len(),
                result@.len() == i,
                forall|j: int|
                    0 <= j < i ==> instruction_resolvable(ctx, module.name.value@, wp, #[trigger] body@[j].value),
                forall|j: int|
                    0 <= j < i ==> resolved(
                        ctx,
                        module.name.value@,
                        wp,
                        #[trigger] body@[j].value,
                        result@[j].value,
                    ) && result@[j].span == body@[j].span,
            decreases body@.len() - i,
        {
            proof {
                lemma_body_size(body@, i as int);
            }
            let instr = match Self::analyze_instruction(module, word, &body[i], ctx) {
                Ok(h) => h,
                Err(e) => {
                    assert(!instruction_resolvable(ctx, module.name.value@, wp, body@[i as int].value));
                    return Err(e);
                },
            };
            let ghost old_result = result@;
            result.push(Spanned::new(instr, body[i].span));
            proof {
                assert forall|j: int| 0 <= j < i + 1 implies resolved(
                    ctx,
                    module.name.value@,
                    wp,
                    #[trigger] body@[j].value,
                    result@[j].value,
                ) && result@[j].span == body@[j].span by {
                    if j < i {
                        assert(result@[j] == old_result[j]);
                    }
                }
            }
            i += 1;
        }
        Ok(result)
    }
}

/// A copy of typed stack items.
pub fn copy_spanned_types(v: &Vec<Spanned<HIRType>>) -> (r: Vec<Spanned<HIRType>>)
    ensures
        r@.len() == v@.len(),
        forall|i: int|
            0 <= i < v@.len() ==> type_view(#[trigger] r@[i].value) == type_view(v@[i].value)
                && r@[i].span == v@[i].span,
{
    let mut r: Vec<Spanned<HIRType>> = Vec::new();
    let mut i: usize = 0;
    while i < v.len()
        invariant
            i <= v@.len(),
            r@.len() == i,
            forall|j: int|
                0 <= j < i ==> type_view(#[trigger] r@[j].value) == type_view(v@[j].value) && r@[j].span
                    == v@[j].span,
        decreases v@.len() - i,
    {
        r.push(Spanned::new(copy_type(&v[i].value), v[i].span));
        i += 1;
    }
    r
}

/// A copy of spanned symbol ids.
pub fn copy_spanned_ids(v: &Vec<Spanned<SymbolId>>) -> (r: Vec<Spanned<SymbolId>>)
    ensures
        r@.len() == v@.len(),
        forall|i: int| 0 <= i < v@.len() ==> #[trigger] r@[i] == v@[i],
{
    let mut r: Vec<Spanned<SymbolId>> = Vec::new();
    let mut i: usize = 0;
    while i < v.len()
        invariant
            i <= v@.len(),
            r@.len() == i,
            forall|j: int| 0 <= j < i ==> #[trigger] r@[j] == v@[j],
        decreases v@.len() - i,
    {
        r.push(Spanned::new(v[i].value, v[i].span));
        i += 1;
    }
    r
}

impl CollectHIRStage {
    /// The HIR of a struct: its symbol and its field types.
    fn analyze_struct(module: &ASTModule, item: &ASTStruct, ctx: &HIRContext) -> (r: Result<HIRStruct, CompileError>)
        requires
            ctx.wf(),
        ensures
            r matches Ok(st) ==> ctx.find(path_key(module.name.value@.push(item.name.value@))) == Some(
                st.id.0 as int,
            ) && st.name.value@ == path_key(module.name.value@.push(item.name.value@)),
            r matches Err(e) ==> e is SymbolNotFound,
            r is Ok <==> struct_found(ctx, module.name.value@, *item),
    {
        let fullpath = module.name.value.append(item.name.value.as_str());
        match ctx.lookup_and_get(&fullpath) {
            Some((id, SymbolKind::Struct { fields, .. })) => Ok(
                HIRStruct {
                    id,
                    name: Spanned::new(fullpath.to_dotted_string(), item.name.span),
                    fields: copy_spanned_types(fields),
                },
            ),
            _ => Err(CompileError::SymbolNotFound { name: fullpath.to_dotted_string(), span: item.name.span }),
        }
    }

    /// The HIR of a word: its signature from the symbol table, its
    /// attributes, and its body with every name resolved.
    fn analyze_word(module: &ASTModule, is_first: bool, word: &ASTWord, ctx: &HIRContext) -> (r: Result<
        HIRWord,
        CompileError,
    >)
        requires
            ctx.wf(),
        ensures
            r is Ok <==> word_resolvable(ctx, module.name.value@, *word),
            !attributes_known(word.attributes@) ==> attribute_error(r, word.attributes@),
            r matches Ok(w) ==> ctx.find(path_key(module.name.value@.push(word.name.value@)))
                == Some(w.id.0 as int) && w.id.0 < ctx.symbols@.len() && ctx.symbols@[w.id.0 as int] is Word
                && w.entrypoint == (is_first && word.name.value@ == "main"@) && w.attributes@.len()
                == word.attributes@.len() && w.body@.len() == word.body@.len() && forall|i: int|
                0 <= i < word.body@.len() ==> resolved(
                    ctx,
                    module.name.value@,
                    module.name.value@.push(word.name.value@),
                    #[trigger] word.body@[i].value,
                    w.body@[i].value,
                ) && w.body@[i].span == word.body@[i].span,
            r matches Err(e) ==> is_resolution_error(e),
    {
        let mut attributes: Vec<HIRWordAttribute> = Vec::new();
        let mut i: usize = 0;
        while i < word.attributes.len()
            invariant
                i <= word.attributes@.len(),
                attributes@.len() == i,
                forall|j: int| 0 <= j < i ==> (#[trigger] word.attributes@[j]).value.name@ == "builtin"@,
            decreases word.attributes@.len() - i,
        {
            let attribute = &word.attributes[i];
            if same_text(attribute.value.name.as_str(), "builtin") {
                attributes.push(HIRWordAttribute::BuiltIn);
            } else {
                let e = CompileError::InvalidAttribute {
                    name: copy_string(&attribute.value.name),
                    reason: String::from_str("unknown attribute"),
                    span: attribute.span,
                };
                proof {
                    assert forall|k: int| 0 <= k < i implies (#[trigger] word.attributes@.subrange(0, i as int)[k]).value.name@
                        == "builtin"@ by {
                        assert(word.attributes@.subrange(0, i as int)[k] == word.attributes@[k]);
                    }
                    assert(attributes_known(word.attributes@.subrange(0, i as int)));
                }
                return Err(e);
            }
            i += 1;
        }
        let fullpath = module.name.value.append(word.name.value.as_str());
        let (id, symbol) = match ctx.lookup_and_get(&fullpath) {
            Some(found) => found,
            None => {
                return Err(
                    CompileError::SymbolNotFound {
                        name: copy_string(&word.name.value),
                        span: word.name.span,
                    },
                );
            },
        };
        proof {
            crate::stages::semantic::context::lemma_symbol_index(ctx.names(), path_key(fullpath@));
        }
        let signature = match symbol {
            SymbolKind::Word { typevars, stackvars, stack_in, stack_out, .. } => HIRWordSignature {
                name: Spanned::new(fullpath.to_dotted_string(), word.name.span),
                stack_effect_span: word.stack_effect.span,
                stack_in: copy_spanned_types(stack_in),
                stack_out: copy_spanned_types(stack_out),
                type_vars: copy_spanned_ids(typevars),
                stack_vars: copy_spanned_ids(stackvars),
            },
            _ => {
                return Err(
                    CompileError::InvalidSymbol { name: copy_string(&word.name.value), span: word.name.span },
                );
            },
        };
        let body = Self::analyze_body(module, word, &word.body, ctx)?;
        let entrypoint = is_first && same_text(word.name.value.as_str(), "main");
        Ok(HIRWord { id, signature, body, attributes, entrypoint, substitutions: Vec::new() })
    }

    /// The HIR of a module; what fails is reported and left out.
    fn analyze_module(module: &ASTModule, ctx: &HIRContext, diagnostics: &mut Diagnostics) -> (r: Option<
        HIRModule,
    >)
        requires
            ctx.wf(),
            errors_only(*old(diagnostics)),
        ensures
            errors_only(*final(diagnostics)),
            r matches Some(m) ==> ctx.find(path_key(module.name.value@)) == Some(m.id.0 as int)
                && m.words@.len() == built_words(ctx, module.name.value@, module.words@).len() && forall|k: int|
                0 <= k < m.words@.len() ==> #[trigger] m.words@[k].span == module.words@[built_words(
                    ctx,
                    module.name.value@,
                    module.words@,
                )[k]].value.name.span && ctx.find(
                    path_key(
                        module.name.value@.push(
                            module.words@[built_words(ctx, module.name.value@, module.words@)[k]].value.name.value@,
                        ),
                    ),
                ) == Some(m.words@[k].value.id.0 as int),
            r is None ==> ctx.find(path_key(module.name.value@)) is None,
            final(diagnostics).errors@.len() >= old(diagnostics).errors@.len(),
            final(diagnostics).errors@.len() == old(diagnostics).errors@.len() ==> *final(diagnostics) == *old(
                diagnostics,
            ),
            final(diagnostics).errors@.len() == old(diagnostics).errors@.len() <==> module_clean(ctx, *module),
    {
        let ghost d0 = *diagnostics;
        let ghost ni = module.imports@.len() as int;
        let ghost ns = module.structs@.len() as int;
        proof {
            lemma_prefix_clean_step(ctx, *module, 0, 0, 0, 3);
        }
        let module_id = match ctx.lookup(&module.name.value) {
            Some(id) => id,
            None => {
                let e = CompileError::SymbolNotFound {
                    name: module.name.value.to_dotted_string(),
                    span: module.name.span,
                };
                let ghost before = *diagnostics;
                diagnostics.emit_fatal(e);
                proof {
                    lemma_emit_keeps_errors_only(before, *diagnostics, e);
                }
                return None;
            },
        };
        let mut imports: Vec<Spanned<SymbolId>> = Vec::new();
        let mut i: usize = 0;
        while i < module.imports.len()
            invariant
                ctx.wf(),
                errors_only(*diagnostics),
                i <= module.imports@.len(),
                d0 == *old(diagnostics),
                diagnostics.errors@.len() >= d0.errors@.len(),
                diagnostics.errors@.len() == d0.errors@.len() ==> *diagnostics == d0,
                diagnostics.errors@.len() == d0.errors@.len() <==> prefix_clean(ctx, *module, i as int, 0, 0),
            decreases module.imports@.len() - i,
        {
            proof {
                lemma_prefix_clean_step(ctx, *module, i as int, 0, 0, 0);
            }
            let import = &module.imports[i];
            match ctx.lookup(&import.value.name) {
                Some(id) => imports.push(Spanned::new(id, import.span)),
                None => {
                    let e = CompileError::SymbolNotFound {
                        name: import.value.name.to_dotted_string(),
                        span: import.span,
                    };
                    let ghost before = *diagnostics;
                    diagnostics.emit_fatal(e);
                    proof {
                        lemma_emit_keeps_errors_only(before, *diagnostics, e);
                    }
                },
            }
            i += 1;
        }
        let mut structs: Vec<HIRStruct> = Vec::new();
        let mut i: usize = 0;
        while i < module.structs.len()
            invariant
                ctx.wf(),
                errors_only(*diagnostics),
                i <= module.structs@.len(),
                ni == module.imports@.len(),
                d0 == *old(diagnostics),
                diagnostics.errors@.len() >= d0.errors@.len(),
                diagnostics.errors@.len() == d0.errors@.len() ==> *diagnostics == d0,
                diagnostics.errors@.len() == d0.errors@.len() <==> prefix_clean(ctx, *module, ni, i as int, 0),
            decreases module.structs@.len() - i,
        {
            proof {
                lemma_prefix_clean_step(ctx, *module, ni, i as int, 0, 1);
            }
            match Self::analyze_struct(module, &module.structs[i].value, ctx) {
                Ok(st) => structs.push(st),
                Err(e) => {
                    let ghost before = *diagnostics;
                    diagnostics.emit_fatal(e);
                    proof {
                        lemma_emit_keeps_errors_only(before, *diagnostics, e);
                    }
                },
            }
            i += 1;
        }
        let mut words: Vec<Spanned<HIRWord>> = Vec::new();
        let ghost mname = module.name.value@;
        let mut i: usize = 0;
        while i < module.words.len()
            invariant
                ctx.wf(),
                errors_only(*diagnostics),
                mname == module.name.value@,
                i <= module.words@.len(),
                ni == module.imports@.len(),
                ns == module.structs@.len(),
                d0 == *old(diagnostics),
                diagnostics.errors@.len() >= d0.errors@.len(),
                diagnostics.errors@.len() == d0.errors@.len() ==> *diagnostics == d0,
                diagnostics.errors@.len() == d0.errors@.len() <==> prefix_clean(ctx, *module, ni, ns, i as int),
                words_built(ctx, mname, module.words@.subrange(0, i as int), words@),
            decreases module.words@.len() - i,
        {
            let word = &module.words[i];
            proof {
                lemma_prefix_clean_step(ctx, *module, ni, ns, i as int, 2);
            }
            let ghost pre = module.words@.subrange(0, i as int);
            let ghost post = module.words@.subrange(0, i + 1);
            assert(post.drop_last() =~= pre);
            proof {
                lemma_built_words_bounds(ctx, mname, pre);
            }
            let ghost old_words = words@;
            match Self::analyze_word(module, i == 0, &word.value, ctx) {
                Ok(w) => {
                    words.push(Spanned::new(w, word.value.name.span));
                    proof {
                        assert(words@.drop_last() =~= old_words);
                    }
                },
                Err(e) => {
                    let ghost before = *diagnostics;
                    diagnostics.emit_fatal(e);
                    proof {
                        lemma_emit_keeps_errors_only(before, *diagnostics, e);
                    }
                },
            }
            proof {
                assert(post.last() == module.words@[i as int]);
                lemma_words_built_step(ctx, mname, post, old_words, words@);
            }
            i += 1;
        }
        assert(module.words@.subrange(0, module.words@.len() as int) =~= module.words@);
        proof {
            lemma_built_words_bounds(ctx, mname, module.words@);
            assert(words_built(ctx, mname, module.words@, words@));
        }
        Some(HIRModule { id: module_id, imports, structs, words })
    }
}

impl Stage<CompileContext> for CollectHIRStage {
    type Input = (HIRContext, ASTProgram);

    type Output = (HIRContext, HIRProgram);

    open spec fn runs(
        &self,
        input: Self::Input,
        context: CompileContext,
        after: Self,
        after_context: CompileContext,
        result: StageResult<Self::Output>,
    ) -> bool {
        &&& (errors_only(result.diagnostics))
        &&& (input.0.wf() ==> (result.output matches Some((ctx, p)) && ctx == input.0 && modules_analyzed(
            &ctx,
            input.1.modules@,
            p.modules@,
        )))
        &&& (!input.0.wf() ==> result.output is None && result.diagnostics.fatal)
        &&& (input.0.wf() ==> (result.diagnostics.errors@.len() == 0 <==> forall|i: int|
            0 <= i < input.1.modules@.len() ==> module_clean(&input.0, #[trigger] input.1.modules@[i])))
        &&& (after_context == context)
    }

    /// The HIR of every module whose name is registered.
    fn execute(&mut self, input: (HIRContext, ASTProgram), context: &mut CompileContext) -> (r: StageResult<
        (HIRContext, HIRProgram),
    >)
    {
        let (ctx, ast) = input;
        let mut diagnostics = Diagnostics::new();
        if !ctx.is_wf() {
            diagnostics.emit_fatal(CompileError::unknown("the symbol table is not well formed"));
            return StageResult::new(None, diagnostics);
        }
        let mut modules: Vec<HIRModule> = Vec::new();
        let mut i: usize = 0;
        assert(ast.modules@.subrange(0, 0) =~= Seq::<ASTModule>::empty());
        while i < ast.modules.len()
            invariant
                ctx.wf(),
                errors_only(diagnostics),
                i <= ast.modules@.len(),
                modules_analyzed(&ctx, ast.modules@.subrange(0, i as int), modules@),
                diagnostics.errors@.len() == 0 <==> forall|j: int|
                    0 <= j < i ==> module_clean(&ctx, #[trigger] ast.modules@[j]),
            decreases ast.modules@.len() - i,
        {
            let ghost pre = ast.modules@.subrange(0, i as int);
            let ghost post = ast.modules@.subrange(0, i + 1);
            let ghost old_modules = modules@;
            assert(post.drop_last() =~= pre);
            assert(post.last() == ast.modules@[i as int]);
            match Self::analyze_module(&ast.modules[i], &ctx, &mut diagnostics) {
                Some(m) => {
                    modules.push(m);
                    proof {
                        assert(registered_modules(&ctx, post) == registered_modules(&ctx, pre).push(i as int));
                        assert forall|k: int| 0 <= k < modules@.len() implies module_analyzed(
                            &ctx,
                            post[registered_modules(&ctx, post)[k]],
                            #[trigger] modules@[k],
                        ) by {
                            if k < old_modules.len() {
                                assert(modules@[k] == old_modules[k]);
                                assert(registered_modules(&ctx, post)[k] == registered_modules(&ctx, pre)[k]);
                                lemma_registered_modules_bounds(&ctx, pre);
                                assert(post[registered_modules(&ctx, pre)[k]] == pre[registered_modules(&ctx, pre)[k]]);
                            }
                        }
                    }
                },
                None => {
                    proof {
                        assert(registered_modules(&ctx, post) == registered_modules(&ctx, pre));
                        lemma_registered_modules_bounds(&ctx, pre);
                        assert forall|k: int| 0 <= k < modules@.len() implies module_analyzed(
                            &ctx,
                            post[registered_modules(&ctx, post)[k]],
                            #[trigger] modules@[k],
                        ) by {
                            assert(post[registered_modules(&ctx, pre)[k]] == pre[registered_modules(&ctx, pre)[k]]);
                        }
                    }
                },
            }
            i += 1;
        }
        assert(ast.modules@.subrange(0, ast.modules@.len() as int) =~= ast.modules@);
        StageResult::new(Some((ctx, HIRProgram { modules })), diagnostics)
    }
}

} // verus!
