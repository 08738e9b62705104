//! Instantiates the words the program reaches, once for each list of type
//! arguments they are called with.
use vstd::prelude::*;

use crate::common::{CompileContext, Spanned};
use crate::error::{CompileError, Diagnostics, errors_only, lemma_emit_keeps_errors_only};
use crate::pipeline::{Stage, StageResult};
use crate::stages::lower::context::{IRContext, WordIRInfo, instances_distinct, word_position};
use crate::stages::semantic::context::SymbolId;
use crate::stages::semantic::hir::{
    HIRInstruction, HIRProgram, HIRType, HIRWord, HIRWordAttribute, TypeView, copy_type,
    copy_types, lemma_types_view_push, type_view, types_view,
};
use crate::stages::semantic::type_check::{
    hir_body_size, hir_instruction_size, is_builtin, lemma_hir_body_size_prefix,
};
use crate::text::{copy_string, string_extend, usize_to_string};

verus! {

/// The type a type variable is bound to: its first binding.
pub open spec fn first_binding(subs: Seq<(SymbolId, HIRType)>, v: SymbolId) -> Option<TypeView>
    decreases subs.len(),
{
    if subs.len() == 0 {
        None
    } else if subs[0].0 == v {
        Some(type_view(subs[0].1))
    } else {
        first_binding(subs.drop_first(), v)
    }
}

/// A type with its type variables replaced by their bindings; none where a
/// type variable is unbound or a stack variable occurs.
pub open spec fn substituted(t: HIRType, subs: Seq<(SymbolId, HIRType)>) -> Option<TypeView>
    decreases t,
{
    match t {
        HIRType::BuiltIn(id) => Some(TypeView::BuiltIn(id)),
        HIRType::Struct(id) => Some(TypeView::Struct(id)),
        HIRType::TypeVar(v) => first_binding(subs, v),
        HIRType::StackVar(_) => None,
        HIRType::Lambda { stack_in, stack_out } => match (
            substituted_all(stack_in@, subs),
            substituted_all(stack_out@, subs),
        ) {
            (Some(i), Some(o)) => Some(TypeView::Lambda { stack_in: i, stack_out: o }),
            _ => None,
        },
        HIRType::Array { element, size } => match substituted(*element, subs) {
            Some(e) => Some(TypeView::Array { element: Box::new(e), size }),
            None => None,
        },
    }
}

/// Each type of a list substituted, if each can be.
pub open spec fn substituted_all(ts: Seq<HIRType>, subs: Seq<(SymbolId, HIRType)>) -> Option<
    Seq<TypeView>,
>
    decreases ts,
{
    if ts.len() == 0 {
        Some(Seq::empty())
    } else {
        match (substituted_all(ts.drop_last(), subs), substituted(ts.last(), subs)) {
            (Some(a), Some(b)) => Some(a.push(b)),
            _ => None,
        }
    }
}

proof fn lemma_substituted_all_prefix_none(ts: Seq<HIRType>, subs: Seq<(SymbolId, HIRType)>, k: int)
    requires
        0 <= k <= ts.len(),
        substituted_all(ts.subrange(0, k), subs) is None,
    ensures
        substituted_all(ts, subs) is None,
    decreases ts.len() - k,
{
    if k == ts.len() {
        assert(ts.subrange(0, k) =~= ts);
    } else {
        assert(ts.drop_last().subrange(0, k) =~= ts.subrange(0, k));
        lemma_substituted_all_prefix_none(ts.drop_last(), subs, k);
    }
}

/// The first binding of a type variable.
fn find_binding<'a>(subs: &'a Vec<(SymbolId, HIRType)>, v: SymbolId) -> (r: Option<&'a HIRType>)
    ensures
        r matches Some(t) ==> first_binding(subs@, v) == Some(type_view(*t)),
        r is None ==> first_binding(subs@, v) is None,
{
    let mut i: usize = 0;
    assert(subs@.subrange(0, subs@.len() as int) =~= subs@);
    while i < subs.len()
        invariant
            i <= subs@.len(),
            first_binding(subs@.subrange(i as int, subs@.len() as int), v) == first_binding(subs@, v),
        decreases subs@.len() - i,
    {
        let ghost rest = subs@.subrange(i as int, subs@.len() as int);
        assert(rest.drop_first() =~= subs@.subrange(i + 1, subs@.len() as int));
        assert(rest[0] == subs@[i as int]);
        if subs[i].0.0 == v.0 {
            return Some(&subs[i].1);
        }
        i += 1;
    }
    None
}

/// A type with its type variables replaced by their first bindings.
pub fn substitute_type(ty: &HIRType, subs: &Vec<(SymbolId, HIRType)>) -> (r: Option<HIRType>)
    ensures
        r matches Some(t) ==> substituted(*ty, subs@) == Some(type_view(t)),
        r is None ==> substituted(*ty, subs@) is None,
    decreases ty,
{
    match ty {
        HIRType::BuiltIn(id) => Some(HIRType::BuiltIn(*id)),
        HIRType::Struct(id) => Some(HIRType::Struct(*id)),
        HIRType::TypeVar(v) => match find_binding(subs, *v) {
            Some(t) => Some(copy_type(t)),
            None => None,
        },
        HIRType::StackVar(_) => None,
        HIRType::Lambda { stack_in, stack_out } => {
            let i = match substitute_types(stack_in, subs) {
                Some(i) => i,
                None => {
                    return None;
                },
            };
            let o = match substitute_types(stack_out, subs) {
                Some(o) => o,
                None => {
                    return None;
                },
            };
            Some(HIRType::Lambda { stack_in: i, stack_out: o })
        },
        HIRType::Array { element, size } => match substitute_type(element, subs) {
            Some(e) => Some(HIRType::Array { element: Box::new(e), size: *size }),
            None => None,
        },
    }
}

/// Each type of a list substituted, if each can be.
pub fn substitute_types(ts: &Vec<HIRType>, subs: &Vec<(SymbolId, HIRType)>) -> (r: Option<
    Vec<HIRType>,
>)
    ensures
        r matches Some(out) ==> substituted_all(ts@, subs@) == Some(types_view(out@)),
        r is None ==> substituted_all(ts@, subs@) is None,
    decreases ts@,
{
    let mut out: Vec<HIRType> = Vec::new();
    let mut i: usize = 0;
    while i < ts.len()
        invariant
            i <= ts@.len(),
            substituted_all(ts@.subrange(0, i as int), subs@) == Some(types_view(out@)),
        decreases ts@.len() - i,
    {
        let ghost pre = ts@.subrange(0, i as int);
        let ghost next = ts@.subrange(0, i + 1);
        assert(next.drop_last() =~= pre);
        assert(next.last() == ts@[i as int]);
        match substitute_type(&ts[i], subs) {
            Some(t) => {
                proof {
                    lemma_types_view_push(out@, t);
                }
                out.push(t);
            },
            None => {
                proof {
                    lemma_substituted_all_prefix_none(ts@, subs@, i + 1);
                }
                return None;
            },
        }
        i += 1;
    }
    assert(ts@.subrange(0, ts@.len() as int) =~= ts@);
    Some(out)
}

/// `(m, k)` is the place of a word in the program: module `m`, word `k`.
pub open spec fn word_in(p: &HIRProgram, m: int, k: int) -> bool {
    0 <= m < p.modules@.len() && 0 <= k < p.modules@[m].words@.len()
}

/// The program has a word with this symbol.
pub open spec fn defines_word(p: &HIRProgram, id: SymbolId) -> bool {
    exists|m: int, k: int| #[trigger] word_in(p, m, k) && p.modules@[m].words@[k].value.id == id
}

/// `a` begins with `b`.
pub open spec fn extends<T>(a: Seq<T>, b: Seq<T>) -> bool {
    b.len() <= a.len() && forall|i: int| 0 <= i < b.len() ==> #[trigger] a[i] == b[i]
}

/// `(m, k)` is the first place, in the order of the program, of a word
/// with this symbol.
pub open spec fn first_place(p: &HIRProgram, id: SymbolId, m: int, k: int) -> bool {
    &&& word_in(p, m, k)
    &&& p.modules@[m].words@[k].value.id == id
    &&& forall|m2: int, k2: int|
        #[trigger] word_in(p, m2, k2) && (m2 < m || (m2 == m && k2 < k)) ==> p.modules@[m2].words@[k2].value.id
            != id
}

/// A word has one first place.
proof fn lemma_first_place_unique(p: &HIRProgram, id: SymbolId, m: int, k: int, m2: int, k2: int)
    requires
        first_place(p, id, m, k),
        first_place(p, id, m2, k2),
    ensures
        m == m2 && k == k2,
{
    assert(word_in(p, m, k) && word_in(p, m2, k2));
}

/// A call of this symbol needs an instance: the first word of the program
/// with it is not built in.
pub open spec fn needs_instance(p: &HIRProgram, id: SymbolId) -> bool {
    exists|m: int, k: int|
        #[trigger] first_place(p, id, m, k) && !p.modules@[m].words@[k].value.attributes@.contains(
            HIRWordAttribute::BuiltIn,
        )
}

/// The first word of the program with this symbol.
pub fn find_word<'a>(p: &'a HIRProgram, id: SymbolId) -> (r: Option<&'a Spanned<HIRWord>>)
    ensures
        r matches Some(w) ==> w.value.id == id && exists|m: int, k: int|
            #[trigger] word_in(p, m, k) && p.modules@[m].words@[k] == *w,
        r matches Some(w) ==> exists|m: int, k: int|
            #[trigger] first_place(p, id, m, k) && p.modules@[m].words@[k] == *w,
        r is Some <==> defines_word(p, id),
{
    let mut m: usize = 0;
    while m < p.modules.len()
        invariant
            m <= p.modules@.len(),
            forall|m2: int, k2: int|
                #[trigger] word_in(p, m2, k2) && m2 < m ==> p.modules@[m2].words@[k2].value.id != id,
        decreases p.modules@.len() - m,
    {
        let module = &p.modules[m];
        let mut k: usize = 0;
        while k < module.words.len()
            invariant
                m < p.modules@.len(),
                *module == p.modules@[m as int],
                k <= module.words@.len(),
                forall|m2: int, k2: int|
                    #[trigger] word_in(p, m2, k2) && m2 < m ==> p.modules@[m2].words@[k2].value.id != id,
                forall|k2: int| 0 <= k2 < k ==> module.words@[k2].value.id != id,
            decreases module.words@.len() - k,
        {
            if module.words[k].value.id.0 == id.0 {
                assert(word_in(p, m as int, k as int));
                assert(first_place(p, id, m as int, k as int));
                return Some(&module.words[k]);
            }
            k += 1;
        }
        m += 1;
    }
    None
}

/// The calls of an instruction, those of a lambda's body included, in
/// order.
pub open spec fn instruction_calls(i: HIRInstruction) -> Seq<HIRInstruction>
    decreases i,
{
    match i {
        HIRInstruction::Call { .. } => seq![i],
        HIRInstruction::Lambda { body, .. } => body_calls(body@),
        _ => Seq::empty(),
    }
}

/// The calls of a body, those of lambda bodies included, in order.
pub open spec fn body_calls(body: Seq<Spanned<HIRInstruction>>) -> Seq<HIRInstruction>
    decreases body,
{
    if body.len() == 0 {
        Seq::empty()
    } else {
        body_calls(body.drop_last()) + instruction_calls(body.last().value)
    }
}

/// The instance a call needs: its word with the call's type arguments
/// substituted, where the word is not built in and the substitution
/// succeeds.
pub open spec fn call_instance(p: &HIRProgram, subs: Seq<(SymbolId, HIRType)>, c: HIRInstruction) -> Option<
    (SymbolId, Seq<TypeView>),
> {
    match c {
        HIRInstruction::Call { symbol_id, type_args, .. } => if needs_instance(p, symbol_id) {
            match substituted_all(type_args@, subs) {
                Some(args) => Some((symbol_id, args)),
                None => None,
            }
        } else {
            None
        },
        _ => None,
    }
}

/// A call that is reported: of a word the program lacks, or of a word that
/// needs an instance whose type arguments cannot be substituted.
pub open spec fn call_fails(p: &HIRProgram, subs: Seq<(SymbolId, HIRType)>, c: HIRInstruction) -> bool {
    c matches HIRInstruction::Call { symbol_id, type_args, .. } && (!defines_word(p, symbol_id) || (
    needs_instance(p, symbol_id) && substituted_all(type_args@, subs) is None))
}

/// The instance is recorded, if there is one.
pub open spec fn covered(words: Seq<WordIRInfo>, inst: Option<(SymbolId, Seq<TypeView>)>) -> bool {
    match inst {
        Some((id, args)) => word_position(words, id, args) is Some,
        None => true,
    }
}

/// Every call's instance is recorded.
pub open spec fn all_covered(
    words: Seq<WordIRInfo>,
    p: &HIRProgram,
    subs: Seq<(SymbolId, HIRType)>,
    calls: Seq<HIRInstruction>,
) -> bool {
    forall|j: int| 0 <= j < calls.len() ==> covered(words, call_instance(p, subs, #[trigger] calls[j]))
}

/// Some call is reported.
pub open spec fn any_fails(p: &HIRProgram, subs: Seq<(SymbolId, HIRType)>, calls: Seq<HIRInstruction>) -> bool {
    exists|j: int| 0 <= j < calls.len() && call_fails(p, subs, #[trigger] calls[j])
}

/// The instance is the one some call needs.
pub open spec fn made_by(
    p: &HIRProgram,
    subs: Seq<(SymbolId, HIRType)>,
    calls: Seq<HIRInstruction>,
    w: WordIRInfo,
) -> bool {
    exists|j: int|
        0 <= j < calls.len() && call_instance(p, subs, #[trigger] calls[j]) == Some(
            (w.source_word, types_view(w.type_args@)),
        )
}

/// Every instance recorded from `from` on is one some call needs.
pub open spec fn all_made(
    words: Seq<WordIRInfo>,
    from: int,
    p: &HIRProgram,
    subs: Seq<(SymbolId, HIRType)>,
    calls: Seq<HIRInstruction>,
) -> bool {
    forall|i: int| from <= i < words.len() ==> made_by(p, subs, calls, #[trigger] words[i])
}

proof fn lemma_calls_concat(
    words: Seq<WordIRInfo>,
    p: &HIRProgram,
    subs: Seq<(SymbolId, HIRType)>,
    a: Seq<HIRInstruction>,
    b: Seq<HIRInstruction>,
)
    ensures
        all_covered(words, p, subs, a) && all_covered(words, p, subs, b) ==> all_covered(words, p, subs, a + b),
        any_fails(p, subs, a + b) <==> any_fails(p, subs, a) || any_fails(p, subs, b),
        forall|w: WordIRInfo| #[trigger] made_by(p, subs, a, w) ==> made_by(p, subs, a + b, w),
        forall|w: WordIRInfo| #[trigger] made_by(p, subs, b, w) ==> made_by(p, subs, a + b, w),
{
    let c = a + b;
    if all_covered(words, p, subs, a) && all_covered(words, p, subs, b) {
        assert forall|j: int| 0 <= j < c.len() implies covered(words, call_instance(p, subs, #[trigger] c[j])) by {
            if j < a.len() {
                assert(c[j] == a[j]);
            } else {
                assert(c[j] == b[j - a.len()]);
            }
        }
    }
    if any_fails(p, subs, c) {
        let j = choose|j: int| 0 <= j < c.len() && call_fails(p, subs, #[trigger] c[j]);
        if j < a.len() {
            assert(c[j] == a[j]);
        } else {
            assert(c[j] == b[j - a.len()]);
        }
    }
    if any_fails(p, subs, a) {
        let j = choose|j: int| 0 <= j < a.len() && call_fails(p, subs, #[trigger] a[j]);
        assert(c[j] == a[j]);
    }
    if any_fails(p, subs, b) {
        let j = choose|j: int| 0 <= j < b.len() && call_fails(p, subs, #[trigger] b[j]);
        assert(c[j + a.len()] == b[j]);
    }
    assert forall|w: WordIRInfo| #[trigger] made_by(p, subs, a, w) implies made_by(p, subs, c, w) by {
        let j = choose|j: int|
            0 <= j < a.len() && call_instance(p, subs, #[trigger] a[j]) == Some(
                (w.source_word, types_view(w.type_args@)),
            );
        assert(c[j] == a[j]);
    }
    assert forall|w: WordIRInfo| #[trigger] made_by(p, subs, b, w) implies made_by(p, subs, c, w) by {
        let j = choose|j: int|
            0 <= j < b.len() && call_instance(p, subs, #[trigger] b[j]) == Some(
                (w.source_word, types_view(w.type_args@)),
            );
        assert(c[j + a.len()] == b[j]);
    }
}

proof fn lemma_covered_extends(
    a: Seq<WordIRInfo>,
    b: Seq<WordIRInfo>,
    p: &HIRProgram,
    subs: Seq<(SymbolId, HIRType)>,
    calls: Seq<HIRInstruction>,
)
    requires
        extends(b, a),
        all_covered(a, p, subs, calls),
    ensures
        all_covered(b, p, subs, calls),
{
    assert forall|j: int| 0 <= j < calls.len() implies covered(b, call_instance(p, subs, #[trigger] calls[j])) by {
        if let Some((id, args)) = call_instance(p, subs, calls[j]) {
            lemma_word_position_extends(a, b, id, args);
        }
    }
}

/// Registers an instance of every word that the body calls, with the call's
/// type arguments substituted; built-in words are not instantiated.
fn collect_calls(
    program: &HIRProgram,
    body: &Vec<Spanned<HIRInstruction>>,
    subs: &Vec<(SymbolId, HIRType)>,
    ir_ctx: &mut IRContext,
    diagnostics: &mut Diagnostics,
)
    requires
        errors_only(*old(diagnostics)),
    ensures
        errors_only(*final(diagnostics)),
        instances_distinct(old(ir_ctx).words@) ==> instances_distinct(final(ir_ctx).words@),
        extends(final(ir_ctx).words@, old(ir_ctx).words@),
        forall|i: int|
            old(ir_ctx).words@.len() <= i < final(ir_ctx).words@.len() ==> defines_word(
                program,
                #[trigger] final(ir_ctx).words@[i].source_word,
            ),
        all_covered(final(ir_ctx).words@, program, subs@, body_calls(body@)),
        all_made(final(ir_ctx).words@, old(ir_ctx).words@.len() as int, program, subs@, body_calls(body@)),
        any_fails(program, subs@, body_calls(body@)) ==> final(diagnostics).fatal,
        !any_fails(program, subs@, body_calls(body@)) ==> *final(diagnostics) == *old(diagnostics),
        final(ir_ctx).types == old(ir_ctx).types,
        final(ir_ctx).symbol_id_to_type_id == old(ir_ctx).symbol_id_to_type_id,
        final(ir_ctx).external_symbols == old(ir_ctx).external_symbols,
    decreases hir_body_size(body@),
{
    let ghost start = *ir_ctx;
    let ghost start_d = *diagnostics;
    let mut i: usize = 0;
    assert(body@.subrange(0, 0) =~= Seq::<Spanned<HIRInstruction>>::empty());
    while i < body.len()
        invariant
            i <= body@.len(),
            errors_only(*diagnostics),
            instances_distinct(start.words@) ==> instances_distinct(ir_ctx.words@),
            extends(ir_ctx.words@, start.words@),
            forall|j: int|
                start.words@.len() <= j < ir_ctx.words@.len() ==> defines_word(
                    program,
                    #[trigger] ir_ctx.words@[j].source_word,
                ),
            all_covered(ir_ctx.words@, program, subs@, body_calls(body@.subrange(0, i as int))),
            all_made(ir_ctx.words@, start.words@.len() as int, program, subs@, body_calls(body@.subrange(0, i as int))),
            any_fails(program, subs@, body_calls(body@.subrange(0, i as int))) ==> diagnostics.fatal,
            !any_fails(program, subs@, body_calls(body@.subrange(0, i as int))) ==> *diagnostics == start_d,
            ir_ctx.types == start.types,
            ir_ctx.symbol_id_to_type_id == start.symbol_id_to_type_id,
            ir_ctx.external_symbols == start.external_symbols,
        decreases body@.len() - i,
    {
        let ghost pre = body_calls(body@.subrange(0, i as int));
        let ghost next_body = body@.subrange(0, i + 1);
        let ghost extra = instruction_calls(body@[i as int].value);
        let ghost before = *ir_ctx;
        let ghost before_d = *diagnostics;
        proof {
            assert(next_body.drop_last() =~= body@.subrange(0, i as int));
            assert(next_body.last() == body@[i as int]);
            assert(body_calls(next_body) == pre + extra);
        }
        let instruction = &body[i];
        match &instruction.value {
            HIRInstruction::Call { name, symbol_id, type_args } => {
                assert(extra == seq![instruction.value]);
                assert(extra[0] == instruction.value);
                match find_word(program, *symbol_id) {
                    None => {
                        assert(!needs_instance(program, *symbol_id));
                        assert(call_fails(program, subs@, extra[0]));
                        let e = CompileError::SymbolNotFound {
                            name: copy_string(name),
                            span: instruction.span,
                        };
                        diagnostics.emit_fatal(e);
                        proof {
                            lemma_emit_keeps_errors_only(before_d, *diagnostics, e);
                        }
                    },
                    Some(word) => {
                        let ghost wm: int;
                        let ghost wk: int;
                        proof {
                            let (m0, k0) = choose|m: int, k: int|
                                #[trigger] first_place(program, *symbol_id, m, k) && program.modules@[m].words@[k]
                                    == *word;
                            wm = m0;
                            wk = k0;
                            assert(word_in(program, wm, wk));
                            assert forall|m: int, k: int| #[trigger]
                                first_place(program, *symbol_id, m, k) implies m == wm && k == wk by {
                                lemma_first_place_unique(program, *symbol_id, m, k, wm, wk);
                            }
                        }
                        if !is_builtin(&word.value) {
                            assert(needs_instance(program, *symbol_id));
                            match substitute_types(type_args, subs) {
                                None => {
                                    assert(call_fails(program, subs@, extra[0]));
                                    let mut label = String::from_str("cannot resolve type arguments for '");
                                    string_extend(&mut label, name.as_str());
                                    string_extend(&mut label, "'");
                                    let e = CompileError::CannotInferType { label, span: instruction.span };
                                    diagnostics.emit_fatal(e);
                                    proof {
                                        lemma_emit_keeps_errors_only(before_d, *diagnostics, e);
                                    }
                                },
                                Some(args) => {
                                    assert(!call_fails(program, subs@, extra[0]));
                                    let info = WordIRInfo {
                                        name: copy_string(&word.value.signature.name.value),
                                        source_word: *symbol_id,
                                        type_args: args,
                                    };
                                    let ghost winfo = info;
                                    let _ = ir_ctx.register_word(info);
                                    proof {
                                        assert(call_instance(program, subs@, extra[0]) == Some(
                                            (winfo.source_word, types_view(winfo.type_args@)),
                                        ));
                                        if ir_ctx.words@.len() > before.words@.len() {
                                            assert(ir_ctx.words@.last() == winfo);
                                            assert(made_by(program, subs@, extra, winfo));
                                        }
                                    }
                                },
                            }
                        } else {
                            assert(!needs_instance(program, *symbol_id));
                            assert(!call_fails(program, subs@, extra[0]));
                        }
                    },
                }
                proof {
                    assert(any_fails(program, subs@, extra) <==> call_fails(program, subs@, extra[0]));
                }
            },
            HIRInstruction::Lambda { body: inner, .. } => {
                proof {
                    lemma_hir_body_size_prefix(body@, i as int);
                }
                assert(extra == body_calls(inner@));
                collect_calls(program, inner, subs, ir_ctx, diagnostics);
            },
            _ => {
                assert(extra.len() == 0);
                assert(!any_fails(program, subs@, extra));
            },
        }
        proof {
            assert(extends(ir_ctx.words@, before.words@));
            assert forall|j: int|
                start.words@.len() <= j < ir_ctx.words@.len() implies defines_word(
                program,
                #[trigger] ir_ctx.words@[j].source_word,
            ) by {
                if j < before.words@.len() {
                    assert(ir_ctx.words@[j] == before.words@[j]);
                }
            }
            lemma_covered_extends(before.words@, ir_ctx.words@, program, subs@, pre);
            lemma_calls_concat(ir_ctx.words@, program, subs@, pre, extra);
            assert forall|k: int|
                start.words@.len() <= k < ir_ctx.words@.len() implies made_by(
                program,
                subs@,
                pre + extra,
                #[trigger] ir_ctx.words@[k],
            ) by {
                if k < before.words@.len() {
                    assert(ir_ctx.words@[k] == before.words@[k]);
                    assert(made_by(program, subs@, pre, before.words@[k]));
                } else {
                    assert(made_by(program, subs@, extra, ir_ctx.words@[k]));
                }
            }
        }
        i += 1;
    }
    assert(body@.subrange(0, body@.len() as int) =~= body@);
}

proof fn lemma_word_position_extends(a: Seq<WordIRInfo>, b: Seq<WordIRInfo>, source: SymbolId, args: Seq<TypeView>)
    requires
        extends(b, a),
        word_position(a, source, args) is Some,
    ensures
        word_position(b, source, args) == word_position(a, source, args),
    decreases b.len(),
{
    if b.len() == a.len() {
        assert(b =~= a);
    } else {
        assert(extends(b.drop_last(), a)) by {
            assert forall|i: int| 0 <= i < a.len() implies #[trigger] b.drop_last()[i] == a[i] by {
                assert(b[i] == a[i]);
            }
        }
        lemma_word_position_extends(a, b.drop_last(), source, args);
    }
}

/// The most instances a program may have: the machine's address space
/// cannot hold more words.
pub const MAX_WORD_INSTANCES: usize = 65535;

/// Instantiates the entrypoints, then every word that an instance calls.
pub struct MonomorphizeStage;

impl Stage<CompileContext> for MonomorphizeStage {
    type Input = (IRContext, HIRProgram);

    type Output = (IRContext, HIRProgram);

    open spec fn runs(
        &self,
        input: Self::Input,
        context: CompileContext,
        after: Self,
        after_context: CompileContext,
        result: StageResult<Self::Output>,
    ) -> bool {
        &&& (errors_only(result.diagnostics))
        &&& (result.output matches Some((ir, p)) && {
                &&& p == input.1
                &&& ir.types == input.0.types
                &&& ir.symbol_id_to_type_id == input.0.symbol_id_to_type_id
                &&& ir.external_symbols == input.0.external_symbols
                &&& extends(ir.words@, input.0.words@)
                &&& (instances_distinct(input.0.words@) ==> instances_distinct(ir.words@))
                &&& forall|i: int|
                    input.0.words@.len() <= i < ir.words@.len() ==> defines_word(
                        &p,
                        #[trigger] ir.words@[i].source_word,
                    )
                &&& forall|m: int, k: int|
                    #[trigger] word_in(&p, m, k) && p.modules@[m].words@[k].value.entrypoint
                        && !p.modules@[m].words@[k].value.attributes@.contains(
                        HIRWordAttribute::BuiltIn,
                    ) ==> word_position(ir.words@, p.modules@[m].words@[k].value.id, Seq::empty())
                        is Some
            })
        &&& (after_context == context)
    }

    /// Every entrypoint that is not built in gets an instance without type
    /// arguments; instances are then taken in the order they were made and
    /// the calls of each registered in turn. The instances made come after
    /// those the context had, and each is of a word of the program.
    fn execute(&mut self, input: (IRContext, HIRProgram), context: &mut CompileContext) -> (r: StageResult<
        (IRContext, HIRProgram),
    >)
    {
        let (mut ir_ctx, program) = input;
        let ghost original = ir_ctx;
        let base = ir_ctx.words.len();
        let mut diagnostics = Diagnostics::new();
        let mut m: usize = 0;
        while m < program.modules.len()
            invariant
                m <= program.modules@.len(),
                errors_only(diagnostics),
                instances_distinct(original.words@) ==> instances_distinct(ir_ctx.words@),
                extends(ir_ctx.words@, original.words@),
                forall|j: int|
                    original.words@.len() <= j < ir_ctx.words@.len() ==> defines_word(
                        &program,
                        #[trigger] ir_ctx.words@[j].source_word,
                    ),
                ir_ctx.types == original.types,
                ir_ctx.symbol_id_to_type_id == original.symbol_id_to_type_id,
                ir_ctx.external_symbols == original.external_symbols,
                forall|m2: int, k2: int|
                    #[trigger] word_in(&program, m2, k2) && m2 < m && program.modules@[m2].words@[k2].value.entrypoint
                        && !program.modules@[m2].words@[k2].value.attributes@.contains(
                        HIRWordAttribute::BuiltIn,
                    ) ==> word_position(ir_ctx.words@, program.modules@[m2].words@[k2].value.id, Seq::empty())
                        is Some,
            decreases program.modules@.len() - m,
        {
            let module = &program.modules[m];
            let mut k: usize = 0;
            while k < module.words.len()
                invariant
                    m < program.modules@.len(),
                    *module == program.modules@[m as int],
                    k <= module.words@.len(),
                    errors_only(diagnostics),
                    instances_distinct(original.words@) ==> instances_distinct(ir_ctx.words@),
                    extends(ir_ctx.words@, original.words@),
                    forall|j: int|
                        original.words@.len() <= j < ir_ctx.words@.len() ==> defines_word(
                            &program,
                            #[trigger] ir_ctx.words@[j].source_word,
                        ),
                    ir_ctx.types == original.types,
                    ir_ctx.symbol_id_to_type_id == original.symbol_id_to_type_id,
                    ir_ctx.external_symbols == original.external_symbols,
                    forall|m2: int, k2: int|
                        #[trigger] word_in(&program, m2, k2) && (m2 < m || (m2 == m && k2 < k))
                            && program.modules@[m2].words@[k2].value.entrypoint
                            && !program.modules@[m2].words@[k2].value.attributes@.contains(
                            HIRWordAttribute::BuiltIn,
                        ) ==> word_position(ir_ctx.words@, program.modules@[m2].words@[k2].value.id, Seq::empty())
                            is Some,
                decreases module.words@.len() - k,
            {
                let word = &module.words[k];
                if word.value.entrypoint && !is_builtin(&word.value) {
                    let ghost before = ir_ctx.words@;
                    let info = WordIRInfo {
                        name: copy_string(&word.value.signature.name.value),
                        source_word: word.value.id,
                        type_args: Vec::new(),
                    };
                    proof {
                        assert(types_view(info.type_args@) =~= Seq::<TypeView>::empty());
                        assert(word_in(&program, m as int, k as int));
                    }
                    let _ = ir_ctx.register_word(info);
                    proof {
                        assert(extends(ir_ctx.words@, before));
                        assert forall|m2: int, k2: int|
                            #[trigger] word_in(&program, m2, k2) && (m2 < m || (m2 == m && k2 <= k))
                                && program.modules@[m2].words@[k2].value.entrypoint
                                && !program.modules@[m2].words@[k2].value.attributes@.contains(
                                HIRWordAttribute::BuiltIn,
                            ) implies word_position(ir_ctx.words@, program.modules@[m2].words@[k2].value.id, Seq::empty())
                                is Some by {
                            if m2 < m || k2 < k {
                                lemma_word_position_extends(
                                    before,
                                    ir_ctx.words@,
                                    program.modules@[m2].words@[k2].value.id,
                                    Seq::empty(),
                                );
                            }
                        }
                    }
                }
                k += 1;
            }
            m += 1;
        }
        let mut i: usize = base;
        let mut processed: usize = 0;
        while i < ir_ctx.words.len()
            invariant
                original.words@.len() <= i,
                i <= ir_ctx.words@.len(),
                processed <= MAX_WORD_INSTANCES,
                errors_only(diagnostics),
                instances_distinct(original.words@) ==> instances_distinct(ir_ctx.words@),
                extends(ir_ctx.words@, original.words@),
                forall|j: int|
                    original.words@.len() <= j < ir_ctx.words@.len() ==> defines_word(
                        &program,
                        #[trigger] ir_ctx.words@[j].source_word,
                    ),
                ir_ctx.types == original.types,
                ir_ctx.symbol_id_to_type_id == original.symbol_id_to_type_id,
                ir_ctx.external_symbols == original.external_symbols,
                forall|m2: int, k2: int|
                    #[trigger] word_in(&program, m2, k2) && program.modules@[m2].words@[k2].value.entrypoint
                        && !program.modules@[m2].words@[k2].value.attributes@.contains(
                        HIRWordAttribute::BuiltIn,
                    ) ==> word_position(ir_ctx.words@, program.modules@[m2].words@[k2].value.id, Seq::empty())
                        is Some,
            decreases MAX_WORD_INSTANCES - processed,
        {
            if processed >= MAX_WORD_INSTANCES {
                let e = CompileError::unknown("too many word instances");
                let ghost before = diagnostics;
                diagnostics.emit_fatal(e);
                proof {
                    lemma_emit_keeps_errors_only(before, diagnostics, e);
                }
                break;
            }
            let source = ir_ctx.words[i].source_word;
            let type_args = copy_types(&ir_ctx.words[i].type_args);
            match find_word(&program, source) {
                None => {
                    let mut label = String::from_str("source word '");
                    let n = usize_to_string(source.0);
                    string_extend(&mut label, n.as_str());
                    string_extend(&mut label, "' not found");
                    let e = CompileError::Unknown { label };
                    let ghost before = diagnostics;
                    diagnostics.emit_fatal(e);
                    proof {
                        lemma_emit_keeps_errors_only(before, diagnostics, e);
                    }
                },
                Some(word) => {
                    let vars = &word.value.signature.type_vars;
                    if vars.len() != type_args.len() {
                        let mut label = String::from_str("cannot resolve type arguments for '");
                        string_extend(&mut label, word.value.signature.name.value.as_str());
                        string_extend(&mut label, "'");
                        let e = CompileError::CannotInferType { label, span: word.span };
                        let ghost before = diagnostics;
                        diagnostics.emit_fatal(e);
                        proof {
                            lemma_emit_keeps_errors_only(before, diagnostics, e);
                        }
                    } else {
                        let mut subs: Vec<(SymbolId, HIRType)> = Vec::new();
                        let mut j: usize = 0;
                        while j < vars.len()
                            invariant
                                vars@.len() == type_args@.len(),
                                j <= vars@.len(),
                            decreases vars@.len() - j,
                        {
                            subs.push((vars[j].value, copy_type(&type_args[j])));
                            j += 1;
                        }
                        let ghost before = ir_ctx.words@;
                        collect_calls(&program, &word.value.body, &subs, &mut ir_ctx, &mut diagnostics);
                        proof {
                            assert forall|m2: int, k2: int|
                                #[trigger] word_in(&program, m2, k2) && program.modules@[m2].words@[k2].value.entrypoint
                                    && !program.modules@[m2].words@[k2].value.attributes@.contains(
                                    HIRWordAttribute::BuiltIn,
                                ) implies word_position(ir_ctx.words@, program.modules@[m2].words@[k2].value.id, Seq::empty())
                                    is Some by {
                                lemma_word_position_extends(
                                    before,
                                    ir_ctx.words@,
                                    program.modules@[m2].words@[k2].value.id,
                                    Seq::empty(),
                                );
                            }
                        }
                    }
                },
            }
            i += 1;
            processed += 1;
        }
        StageResult::new(Some((ir_ctx, program)), diagnostics)
    }
}

} // verus!
