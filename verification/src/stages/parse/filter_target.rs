//! `#[target = "..."]`: definitions that exist for some targets only.
//!
//! A definition without a target attribute is kept for every target; one
//! with target attributes is kept when one of them names the target of the
//! compilation. Kept definitions lose their target attributes.
use vstd::prelude::*;

use crate::common::{CompileContext, CompileTarget, Spanned, target_name};
use crate::error::{CompileError, Diagnostic, DiagnosticKind, Diagnostics};
use crate::pipeline::{Stage, StageResult};
use crate::stages::parse::ast::{ASTAttribute, ASTImport, ASTModule, ASTProgram, ASTWord};
use crate::text::{same_text, string_extend};

verus! {

pub open spec fn is_target_attribute(a: ASTAttribute) -> bool {
    a.name@ == "target"@
}

/// The target a name stands for.
pub open spec fn named_target(v: Seq<char>) -> Option<CompileTarget> {
    if v == target_name(CompileTarget::Interpreter) {
        Some(CompileTarget::Interpreter)
    } else if v == target_name(CompileTarget::Z80UnknownCpm) {
        Some(CompileTarget::Z80UnknownCpm)
    } else {
        None
    }
}

/// The target a target attribute names, if it names one.
pub open spec fn attribute_target(a: ASTAttribute) -> Option<CompileTarget> {
    match a.value {
        Some(v) => named_target(v@),
        None => None,
    }
}

/// A target attribute without a value, or whose value names no target.
pub open spec fn bad_target_attribute(a: ASTAttribute) -> bool {
    is_target_attribute(a) && attribute_target(a) is None
}

/// The diagnostic for a bad target attribute.
pub open spec fn is_target_error(e: CompileError, a: Spanned<ASTAttribute>) -> bool {
    &&& e matches CompileError::InvalidAttribute { name, reason, span }
    &&& name@ == "target"@
    &&& span == a.span
    &&& reason@ == match a.value.value {
        None => "expected #[target = \"<target>\"]"@,
        Some(v) => "unknown target \""@ + v@ + "\";"@,
    }
}

/// No target attribute, or one that names `target`.
pub open spec fn target_allowed(attrs: Seq<Spanned<ASTAttribute>>, target: CompileTarget) -> bool {
    (forall|i: int| 0 <= i < attrs.len() ==> !is_target_attribute(#[trigger] attrs[i].value)) || (
    exists|i: int|
        0 <= i < attrs.len() && is_target_attribute(#[trigger] attrs[i].value) && attribute_target(
            attrs[i].value,
        ) == Some(target))
}

/// The attributes that are not target attributes, in order.
pub open spec fn strip_targets(attrs: Seq<Spanned<ASTAttribute>>) -> Seq<Spanned<ASTAttribute>>
    decreases attrs.len(),
{
    if attrs.len() == 0 {
        attrs
    } else if is_target_attribute(attrs.last().value) {
        strip_targets(attrs.drop_last())
    } else {
        strip_targets(attrs.drop_last()).push(attrs.last())
    }
}


/// Definitions with these attributes are kept for `target`: no bad target
/// attribute, and no target attribute or one that names `target`.
pub open spec fn kept_for(attrs: Seq<Spanned<ASTAttribute>>, target: CompileTarget) -> bool {
    &&& forall|i: int| 0 <= i < attrs.len() ==> !bad_target_attribute(#[trigger] attrs[i].value)
    &&& target_allowed(attrs, target)
}

/// Some attribute is a bad target attribute.
pub open spec fn has_bad_target(attrs: Seq<Spanned<ASTAttribute>>) -> bool {
    exists|i: int| 0 <= i < attrs.len() && bad_target_attribute(#[trigger] attrs[i].value)
}

/// Attribute `i` is the first bad target attribute.
pub open spec fn is_first_bad_target(attrs: Seq<Spanned<ASTAttribute>>, i: int) -> bool {
    &&& 0 <= i < attrs.len()
    &&& bad_target_attribute(attrs[i].value)
    &&& forall|j: int| 0 <= j < i ==> !bad_target_attribute(#[trigger] attrs[j].value)
}

/// The first bad target attribute's position.
pub open spec fn first_bad_target(attrs: Seq<Spanned<ASTAttribute>>) -> int {
    choose|i: int| is_first_bad_target(attrs, i)
}

/// There is one first bad target attribute.
pub proof fn lemma_first_bad_target(attrs: Seq<Spanned<ASTAttribute>>, i: int)
    requires
        is_first_bad_target(attrs, i),
    ensures
        first_bad_target(attrs) == i,
{
    let k = first_bad_target(attrs);
    assert(is_first_bad_target(attrs, k));
    if k < i {
        assert(!bad_target_attribute(attrs[k].value));
    } else if i < k {
        assert(!bad_target_attribute(attrs[i].value));
    }
}

/// The positions, in order, of the attribute lists that are kept.
pub open spec fn kept_positions(lists: Seq<Seq<Spanned<ASTAttribute>>>, target: CompileTarget) -> Seq<int>
    decreases lists.len(),
{
    if lists.len() == 0 {
        Seq::empty()
    } else if kept_for(lists.last(), target) {
        kept_positions(lists.drop_last(), target).push(lists.len() - 1)
    } else {
        kept_positions(lists.drop_last(), target)
    }
}

/// The positions, in order, of the attribute lists with a bad target
/// attribute.
pub open spec fn bad_positions(lists: Seq<Seq<Spanned<ASTAttribute>>>) -> Seq<int>
    decreases lists.len(),
{
    if lists.len() == 0 {
        Seq::empty()
    } else if has_bad_target(lists.last()) {
        bad_positions(lists.drop_last()).push(lists.len() - 1)
    } else {
        bad_positions(lists.drop_last())
    }
}

/// The reports for the lists with a bad target attribute: one error each, in
/// order, for its first bad target attribute.
pub open spec fn target_errors(lists: Seq<Seq<Spanned<ASTAttribute>>>, errors: Seq<Diagnostic>) -> bool {
    let bad = bad_positions(lists);
    &&& errors.len() == bad.len()
    &&& forall|k: int|
        0 <= k < bad.len() ==> (#[trigger] errors[k]).kind == DiagnosticKind::Error && is_target_error(
            errors[k].error,
            lists[bad[k]][first_bad_target(lists[bad[k]])],
        )
}

/// The attributes of each word.
pub open spec fn word_attrs(ws: Seq<Spanned<ASTWord>>) -> Seq<Seq<Spanned<ASTAttribute>>> {
    ws.map_values(|w: Spanned<ASTWord>| w.value.attributes@)
}

/// `a` is `b` without its target attributes.
pub open spec fn stripped_word(a: Spanned<ASTWord>, b: Spanned<ASTWord>) -> bool {
    &&& a.span == b.span
    &&& a.value.name == b.value.name
    &&& a.value.body == b.value.body
    &&& a.value.word_vars == b.value.word_vars
    &&& a.value.stack_effect == b.value.stack_effect
    &&& a.value.attributes@ == strip_targets(b.value.attributes@)
}

/// `out` holds the words of `ws` kept for `target`, in order, without their
/// target attributes.
pub open spec fn words_filtered(ws: Seq<Spanned<ASTWord>>, out: Seq<Spanned<ASTWord>>, target: CompileTarget) -> bool {
    let kept = kept_positions(word_attrs(ws), target);
    &&& out.len() == kept.len()
    &&& forall|k: int| 0 <= k < kept.len() ==> stripped_word(#[trigger] out[k], ws[kept[k]])
}

/// Lists with an entry added: kept and bad positions grow by that entry.
pub proof fn lemma_positions_push(
    lists: Seq<Seq<Spanned<ASTAttribute>>>,
    attrs: Seq<Spanned<ASTAttribute>>,
    target: CompileTarget,
)
    ensures
        kept_positions(lists.push(attrs), target) == if kept_for(attrs, target) {
            kept_positions(lists, target).push(lists.len() as int)
        } else {
            kept_positions(lists, target)
        },
        bad_positions(lists.push(attrs)) == if has_bad_target(attrs) {
            bad_positions(lists).push(lists.len() as int)
        } else {
            bad_positions(lists)
        },
{
    assert(lists.push(attrs).drop_last() =~= lists);
}

/// Kept and bad positions are positions of the list.
pub proof fn lemma_positions_bounds(lists: Seq<Seq<Spanned<ASTAttribute>>>, target: CompileTarget)
    ensures
        forall|k: int|
            0 <= k < kept_positions(lists, target).len() ==> 0 <= #[trigger] kept_positions(lists, target)[k]
                < lists.len(),
        forall|k: int|
            0 <= k < bad_positions(lists).len() ==> 0 <= #[trigger] bad_positions(lists)[k] < lists.len(),
    decreases lists.len(),
{
    if lists.len() > 0 {
        let init = lists.drop_last();
        lemma_positions_bounds(init, target);
        let kp = kept_positions(lists, target);
        let kp0 = kept_positions(init, target);
        assert forall|k: int| 0 <= k < kp.len() implies 0 <= #[trigger] kp[k] < lists.len() by {
            if k < kp0.len() {
                assert(kp[k] == kp0[k]);
            }
        }
        let bp = bad_positions(lists);
        let bp0 = bad_positions(init);
        assert forall|k: int| 0 <= k < bp.len() implies 0 <= #[trigger] bp[k] < lists.len() by {
            if k < bp0.len() {
                assert(bp[k] == bp0[k]);
            }
        }
    }
}

/// Each word's attributes, for the first `d` words.
pub proof fn lemma_word_attrs_take(ws: Seq<Spanned<ASTWord>>, d: int)
    requires
        0 <= d < ws.len(),
    ensures
        word_attrs(ws.take(d + 1)) == word_attrs(ws.take(d)).push(ws[d].value.attributes@),
        word_attrs(ws.take(d)).len() == d,
{
    assert(word_attrs(ws.take(d + 1)) =~= word_attrs(ws.take(d)).push(ws[d].value.attributes@));
}

/// The diagnostic for a bad target attribute.
fn target_error(attr: &Spanned<ASTAttribute>) -> (r: CompileError)
    requires
        bad_target_attribute(attr.value),
    ensures
        is_target_error(r, *attr),
{
    let reason = match &attr.value.value {
        None => String::from_str("expected #[target = \"<target>\"]"),
        Some(v) => {
            let mut s = String::from_str("unknown target \"");
            string_extend(&mut s, v.as_str());
            string_extend(&mut s, "\";");
            s
        },
    };
    CompileError::InvalidAttribute { name: String::from_str("target"), reason, span: attr.span }
}

/// Whether definitions with these attributes exist for `target`; the first
/// bad target attribute is an error.
pub fn target_matches(attributes: &Vec<Spanned<ASTAttribute>>, target: CompileTarget) -> (r: Result<
    bool,
    CompileError,
>)
    ensures
        r is Ok <==> forall|i: int|
            0 <= i < attributes@.len() ==> !bad_target_attribute(#[trigger] attributes@[i].value),
        r matches Ok(b) ==> b == target_allowed(attributes@, target),
        r matches Err(e) ==> exists|i: int|
            0 <= i < attributes@.len() && bad_target_attribute(#[trigger] attributes@[i].value)
                && is_target_error(e, attributes@[i]) && forall|j: int|
                0 <= j < i ==> !bad_target_attribute(#[trigger] attributes@[j].value),
{
    let mut any_target = false;
    let mut found = false;
    let mut i: usize = 0;
    while i < attributes.len()
        invariant
            i <= attributes@.len(),
            forall|j: int| 0 <= j < i ==> !bad_target_attribute(#[trigger] attributes@[j].value),
            any_target == exists|j: int|
                0 <= j < i && is_target_attribute(#[trigger] attributes@[j].value),
            found == exists|j: int|
                0 <= j < i && is_target_attribute(#[trigger] attributes@[j].value)
                    && attribute_target(attributes@[j].value) == Some(target),
        decreases attributes@.len() - i,
    {
        let attr = &attributes[i];
        if same_text(attr.value.name.as_str(), "target") {
            let t = match &attr.value.value {
                Some(v) => {
                    let t = CompileTarget::from_name(v.as_str());
                    proof {
                        reveal_strlit("interpreter");
                        reveal_strlit("z80-unknown-cpm");
                        assert("interpreter"@.len() == 11);
                        assert(named_target(v@) == t);
                    }
                    t
                },
                None => None,
            };
            match t {
                Some(t) => {
                    any_target = true;
                    if t == target {
                        found = true;
                    }
                    assert(attribute_target(attributes@[i as int].value) == Some(t));
                },
                None => {
                    assert(bad_target_attribute(attributes@[i as int].value));
                    return Err(target_error(attr));
                },
            }
        }
        i += 1;
    }
    proof {
        if !any_target {
            assert forall|j: int| 0 <= j < attributes@.len() implies !is_target_attribute(
                #[trigger] attributes@[j].value,
            ) by {}
        }
    }
    Ok(!any_target || found)
}

/// The attributes without the target ones, in order.
pub fn strip_target_attributes(attributes: Vec<Spanned<ASTAttribute>>) -> (r: Vec<Spanned<ASTAttribute>>)
    ensures
        r@ == strip_targets(attributes@),
{
    let mut rest = attributes;
    let mut kept: Vec<Spanned<ASTAttribute>> = Vec::new();
    let ghost mut taken: Seq<Spanned<ASTAttribute>> = Seq::empty();
    while rest.len() > 0
        invariant
            taken + rest@ == attributes@,
            kept@ == strip_targets(taken),
        decreases rest@.len(),
    {
        let attr = rest.remove(0);
        proof {
            assert(taken.push(attr).drop_last() =~= taken);
            assert(taken.push(attr) + rest@ =~= attributes@);
            taken = taken.push(attr);
        }
        if !same_text(attr.value.name.as_str(), "target") {
            kept.push(attr);
        }
    }
    assert(taken =~= attributes@);
    kept
}

/// Drops the word where it is not for `target`, reporting a bad target
/// attribute; a kept word loses its target attributes.
pub fn filter_word(word: ASTWord, target: CompileTarget, diagnostics: &mut Diagnostics) -> (r: Option<
    ASTWord,
>)
    ensures
        r matches Some(w) ==> target_allowed(word.attributes@, target) && w.attributes@
            == strip_targets(word.attributes@) && w.name == word.name && w.body == word.body
            && w.word_vars == word.word_vars && w.stack_effect == word.stack_effect,
        (forall|i: int| 0 <= i < word.attributes@.len()
            ==> !bad_target_attribute(#[trigger] word.attributes@[i].value))
            ==> (r is Some <==> target_allowed(word.attributes@, target))
            && *final(diagnostics) == *old(diagnostics),
        (exists|i: int| 0 <= i < word.attributes@.len()
            && bad_target_attribute(#[trigger] word.attributes@[i].value))
            ==> r is None && final(diagnostics).fatal
            && final(diagnostics).errors@.len() == old(diagnostics).errors@.len() + 1
            && final(diagnostics).errors@.drop_last() == old(diagnostics).errors@
            && final(diagnostics).errors@.last().kind == DiagnosticKind::Error
            && final(diagnostics).errors@.last().error is InvalidAttribute
            && is_target_error(
                final(diagnostics).errors@.last().error,
                word.attributes@[first_bad_target(word.attributes@)],
            ),
        r is Some <==> kept_for(word.attributes@, target),
{
    match target_matches(&word.attributes, target) {
        Err(e) => {
            proof {
                let i = choose|i: int|
                    0 <= i < word.attributes@.len() && bad_target_attribute(#[trigger] word.attributes@[i].value)
                        && is_target_error(e, word.attributes@[i]) && forall|j: int|
                        0 <= j < i ==> !bad_target_attribute(#[trigger] word.attributes@[j].value);
                assert(is_first_bad_target(word.attributes@, i));
                lemma_first_bad_target(word.attributes@, i);
            }
            diagnostics.emit_fatal(e);
            assert(final(diagnostics).errors@.drop_last() =~= old(diagnostics).errors@);
            None
        },
        Ok(false) => None,
        Ok(true) => {
            let ASTWord { name, body, word_vars, stack_effect, attributes } = word;
            let attributes = strip_target_attributes(attributes);
            Some(ASTWord { name, body, word_vars, stack_effect, attributes })
        },
    }
}

/// The attributes of each word of each module, modules in order.
pub open spec fn program_word_attrs(mods: Seq<ASTModule>) -> Seq<Seq<Spanned<ASTAttribute>>>
    decreases mods.len(),
{
    if mods.len() == 0 {
        Seq::empty()
    } else {
        program_word_attrs(mods.drop_last()) + word_attrs(mods.last().words@)
    }
}

pub proof fn lemma_program_word_attrs_push(mods: Seq<ASTModule>, m: ASTModule)
    ensures
        program_word_attrs(mods.push(m)) == program_word_attrs(mods) + word_attrs(m.words@),
{
    assert(mods.push(m).drop_last() =~= mods);
}

/// Bad positions of two lists one after the other.
pub proof fn lemma_bad_positions_append(a: Seq<Seq<Spanned<ASTAttribute>>>, b: Seq<Seq<Spanned<ASTAttribute>>>)
    ensures
        bad_positions(a + b) == bad_positions(a) + bad_positions(b).map_values(|k: int| k + a.len()),
    decreases b.len(),
{
    if b.len() == 0 {
        assert(a + b =~= a);
        assert(bad_positions(b).map_values(|k: int| k + a.len()) =~= Seq::<int>::empty());
    } else {
        lemma_bad_positions_append(a, b.drop_last());
        assert((a + b).drop_last() =~= a + b.drop_last());
        assert((a + b).last() == b.last());
        if has_bad_target(b.last()) {
            assert(bad_positions(b).map_values(|k: int| k + a.len()) =~= bad_positions(b.drop_last()).map_values(
                |k: int| k + a.len(),
            ).push(b.len() - 1 + a.len()));
        } else {
            assert(bad_positions(b).map_values(|k: int| k + a.len()) =~= bad_positions(b.drop_last()).map_values(
                |k: int| k + a.len(),
            ));
        }
    }
}

/// The reports for two lists one after the other are their reports one
/// after the other.
pub proof fn lemma_target_errors_append(
    a: Seq<Seq<Spanned<ASTAttribute>>>,
    b: Seq<Seq<Spanned<ASTAttribute>>>,
    ea: Seq<Diagnostic>,
    eb: Seq<Diagnostic>,
)
    requires
        target_errors(a, ea),
        target_errors(b, eb),
    ensures
        target_errors(a + b, ea + eb),
{
    lemma_bad_positions_append(a, b);
    lemma_positions_bounds(a, CompileTarget::Interpreter);
    lemma_positions_bounds(b, CompileTarget::Interpreter);
    let bad = bad_positions(a + b);
    let ba = bad_positions(a);
    let bb = bad_positions(b);
    assert forall|k: int| 0 <= k < bad.len() implies (#[trigger] (ea + eb)[k]).kind == DiagnosticKind::Error
        && is_target_error((ea + eb)[k].error, (a + b)[bad[k]][first_bad_target((a + b)[bad[k]])]) by {
        if k < ba.len() {
            assert(bad[k] == ba[k]);
            assert((a + b)[ba[k]] == a[ba[k]]);
            assert(ea[k] == (ea + eb)[k]);
        } else {
            let k2 = k - ba.len();
            assert(bad[k] == bb[k2] + a.len());
            assert((a + b)[bb[k2] + a.len()] == b[bb[k2]]);
            assert(eb[k2] == (ea + eb)[k]);
        }
    }
}

/// Keeps the words for `target`, without their target attributes; a word
/// with a bad target attribute is reported and dropped.
pub fn filter_module_words(words: Vec<Spanned<ASTWord>>, target: CompileTarget, diagnostics: &mut Diagnostics) -> (r: Vec<
    Spanned<ASTWord>,
>)
    ensures
        words_filtered(words@, r@, target),
        final(diagnostics).errors@.subrange(0, old(diagnostics).errors@.len() as int) == old(diagnostics).errors@,
        final(diagnostics).errors@.len() >= old(diagnostics).errors@.len(),
        target_errors(
            word_attrs(words@),
            final(diagnostics).errors@.subrange(
                old(diagnostics).errors@.len() as int,
                final(diagnostics).errors@.len() as int,
            ),
        ),
        final(diagnostics).fatal == (old(diagnostics).fatal || final(diagnostics).errors@.len() > old(
            diagnostics,
        ).errors@.len()),
{
    let ghost all = words@;
    let ghost e0 = diagnostics.errors@;
    let ghost f0 = diagnostics.fatal;
    let mut rest = words;
    let mut kept: Vec<Spanned<ASTWord>> = Vec::new();
    proof {
        assert(all.take(0) =~= Seq::<Spanned<ASTWord>>::empty());
        assert(word_attrs(all.take(0)) =~= Seq::<Seq<Spanned<ASTAttribute>>>::empty());
        assert(diagnostics.errors@.subrange(e0.len() as int, e0.len() as int) =~= Seq::<Diagnostic>::empty());
        assert(diagnostics.errors@.subrange(0, e0.len() as int) =~= e0);
    }
    while rest.len() > 0
        invariant
            rest@.len() <= all.len(),
            rest@ == all.skip(all.len() - rest@.len()),
            words_filtered(all.take(all.len() - rest@.len()), kept@, target),
            diagnostics.errors@.len() >= e0.len(),
            diagnostics.errors@.subrange(0, e0.len() as int) == e0,
            target_errors(
                word_attrs(all.take(all.len() - rest@.len())),
                diagnostics.errors@.subrange(e0.len() as int, diagnostics.errors@.len() as int),
            ),
            diagnostics.fatal == (f0 || diagnostics.errors@.len() > e0.len()),
        decreases rest@.len(),
    {
        let ghost d = all.len() - rest@.len();
        let ghost w0 = rest@[0];
        assert(w0 == all[d]);
        let word = rest.remove(0);
        let span = word.span;
        let ghost errs = diagnostics.errors@;
        let ghost kept0 = kept@;
        proof {
            lemma_word_attrs_take(all, d);
            lemma_positions_push(word_attrs(all.take(d)), w0.value.attributes@, target);
            assert(all.take(d + 1) =~= all.take(d).push(w0));
            lemma_positions_bounds(word_attrs(all.take(d)), target);
        }
        match filter_word(word.value, target, diagnostics) {
            Some(w) => {
                kept.push(Spanned::new(w, span));
                proof {
                    assert(diagnostics.errors@ == errs);
                    let kp = kept_positions(word_attrs(all.take(d + 1)), target);
                    assert forall|k: int| 0 <= k < kp.len() implies stripped_word(#[trigger] kept@[k], all.take(d + 1)[kp[k]]) by {
                        if k < kept0.len() {
                            assert(kept@[k] == kept0[k]);
                            assert(all.take(d + 1)[kp[k]] == all.take(d)[kp[k]]);
                        }
                    }
                }
            },
            None => {
                proof {
                    let kp = kept_positions(word_attrs(all.take(d + 1)), target);
                    assert forall|k: int| 0 <= k < kp.len() implies stripped_word(#[trigger] kept@[k], all.take(d + 1)[kp[k]]) by {
                        assert(all.take(d + 1)[kp[k]] == all.take(d)[kp[k]]);
                    }
                }
            },
        }
        proof {
            let lists = word_attrs(all.take(d + 1));
            let new = diagnostics.errors@.subrange(e0.len() as int, diagnostics.errors@.len() as int);
            let old_new = errs.subrange(e0.len() as int, errs.len() as int);
            assert(diagnostics.errors@.subrange(0, e0.len() as int) =~= e0) by {
                if diagnostics.errors@.len() > errs.len() {
                    assert(diagnostics.errors@.drop_last() == errs);
                    assert(diagnostics.errors@.subrange(0, e0.len() as int) =~= errs.subrange(0, e0.len() as int));
                }
            }
            if has_bad_target(w0.value.attributes@) {
                assert(new =~= old_new.push(diagnostics.errors@.last()));
                assert(lists[(d as int)] == w0.value.attributes@);
                let bad = bad_positions(lists);
                assert forall|k: int| 0 <= k < bad.len() implies (#[trigger] new[k]).kind == DiagnosticKind::Error
                    && is_target_error(new[k].error, lists[bad[k]][first_bad_target(lists[bad[k]])]) by {
                    if k < bad.len() - 1 {
                        assert(new[k] == old_new[k]);
                        assert(lists[bad[k]] == word_attrs(all.take(d))[bad[k]]);
                    }
                }
            } else {
                assert(new =~= old_new);
                let bad = bad_positions(lists);
                assert forall|k: int| 0 <= k < bad.len() implies (#[trigger] new[k]).kind == DiagnosticKind::Error
                    && is_target_error(new[k].error, lists[bad[k]][first_bad_target(lists[bad[k]])]) by {
                    assert(lists[bad[k]] == word_attrs(all.take(d))[bad[k]]);
                }
            }
            assert(rest@ =~= all.skip(all.len() - rest@.len()));
        }
    }
    proof {
        assert(all.take(all.len() as int) =~= all);
    }
    kept
}

/// The attributes of each import.
pub open spec fn import_attrs(is: Seq<Spanned<ASTImport>>) -> Seq<Seq<Spanned<ASTAttribute>>> {
    is.map_values(|i: Spanned<ASTImport>| i.value.attributes@)
}

/// `a` is `b` without its target attributes.
pub open spec fn stripped_import(a: Spanned<ASTImport>, b: Spanned<ASTImport>) -> bool {
    &&& a.span == b.span
    &&& a.value.name == b.value.name
    &&& a.value.attributes@ == strip_targets(b.value.attributes@)
}

/// `out` holds the imports of `is` kept for `target`, in order, without
/// their target attributes.
pub open spec fn imports_filtered(is: Seq<Spanned<ASTImport>>, out: Seq<Spanned<ASTImport>>, target: CompileTarget) -> bool {
    let kept = kept_positions(import_attrs(is), target);
    &&& out.len() == kept.len()
    &&& forall|k: int| 0 <= k < kept.len() ==> stripped_import(#[trigger] out[k], is[kept[k]])
}

/// Each import's attributes, for the first `d` imports.
pub proof fn lemma_import_attrs_take(is: Seq<Spanned<ASTImport>>, d: int)
    requires
        0 <= d < is.len(),
    ensures
        import_attrs(is.take(d + 1)) == import_attrs(is.take(d)).push(is[d].value.attributes@),
        import_attrs(is.take(d)).len() == d,
{
    assert(import_attrs(is.take(d + 1)) =~= import_attrs(is.take(d)).push(is[d].value.attributes@));
}

/// Keeps the imports for `target`, without their target attributes; an
/// import with a bad target attribute is reported and dropped.
pub fn filter_module_imports(
    imports: Vec<Spanned<ASTImport>>,
    target: CompileTarget,
    diagnostics: &mut Diagnostics,
) -> (r: Vec<Spanned<ASTImport>>)
    ensures
        imports_filtered(imports@, r@, target),
        final(diagnostics).errors@.subrange(0, old(diagnostics).errors@.len() as int) == old(diagnostics).errors@,
        final(diagnostics).errors@.len() >= old(diagnostics).errors@.len(),
        target_errors(
            import_attrs(imports@),
            final(diagnostics).errors@.subrange(
                old(diagnostics).errors@.len() as int,
                final(diagnostics).errors@.len() as int,
            ),
        ),
        final(diagnostics).fatal == (old(diagnostics).fatal || final(diagnostics).errors@.len() > old(
            diagnostics,
        ).errors@.len()),
{
    let ghost all = imports@;
    let ghost e0 = diagnostics.errors@;
    let ghost f0 = diagnostics.fatal;
    let mut rest = imports;
    let mut kept: Vec<Spanned<ASTImport>> = Vec::new();
    proof {
        assert(all.take(0) =~= Seq::<Spanned<ASTImport>>::empty());
        assert(import_attrs(all.take(0)) =~= Seq::<Seq<Spanned<ASTAttribute>>>::empty());
        assert(diagnostics.errors@.subrange(e0.len() as int, e0.len() as int) =~= Seq::<Diagnostic>::empty());
        assert(diagnostics.errors@.subrange(0, e0.len() as int) =~= e0);
    }
    while rest.len() > 0
        invariant
            rest@.len() <= all.len(),
            rest@ == all.skip(all.len() - rest@.len()),
            imports_filtered(all.take(all.len() - rest@.len()), kept@, target),
            diagnostics.errors@.len() >= e0.len(),
            diagnostics.errors@.subrange(0, e0.len() as int) == e0,
            target_errors(
                import_attrs(all.take(all.len() - rest@.len())),
                diagnostics.errors@.subrange(e0.len() as int, diagnostics.errors@.len() as int),
            ),
            diagnostics.fatal == (f0 || diagnostics.errors@.len() > e0.len()),
        decreases rest@.len(),
    {
        let ghost d = all.len() - rest@.len();
        let ghost i0 = rest@[0];
        assert(i0 == all[d]);
        let import = rest.remove(0);
        let ghost errs = diagnostics.errors@;
        let ghost kept0 = kept@;
        proof {
            lemma_import_attrs_take(all, d);
            lemma_positions_push(import_attrs(all.take(d)), i0.value.attributes@, target);
            assert(all.take(d + 1) =~= all.take(d).push(i0));
            lemma_positions_bounds(import_attrs(all.take(d)), target);
        }
        let Spanned { value: ASTImport { name, attributes }, span } = import;
        match target_matches(&attributes, target) {
            Err(e) => {
                proof {
                    let i = choose|i: int|
                        0 <= i < attributes@.len() && bad_target_attribute(#[trigger] attributes@[i].value)
                            && is_target_error(e, attributes@[i]) && forall|j: int|
                            0 <= j < i ==> !bad_target_attribute(#[trigger] attributes@[j].value);
                    assert(is_first_bad_target(attributes@, i));
                    lemma_first_bad_target(attributes@, i);
                }
                diagnostics.emit_fatal(e);
                proof {
                    let kp = kept_positions(import_attrs(all.take(d + 1)), target);
                    assert forall|k: int| 0 <= k < kp.len() implies stripped_import(#[trigger] kept@[k], all.take(d + 1)[kp[k]]) by {
                        assert(all.take(d + 1)[kp[k]] == all.take(d)[kp[k]]);
                    }
                }
            },
            Ok(false) => {
                proof {
                    let kp = kept_positions(import_attrs(all.take(d + 1)), target);
                    assert forall|k: int| 0 <= k < kp.len() implies stripped_import(#[trigger] kept@[k], all.take(d + 1)[kp[k]]) by {
                        assert(all.take(d + 1)[kp[k]] == all.take(d)[kp[k]]);
                    }
                }
            },
            Ok(true) => {
                let attributes = strip_target_attributes(attributes);
                kept.push(Spanned::new(ASTImport { name, attributes }, span));
                proof {
                    let kp = kept_positions(import_attrs(all.take(d + 1)), target);
                    assert forall|k: int| 0 <= k < kp.len() implies stripped_import(#[trigger] kept@[k], all.take(d + 1)[kp[k]]) by {
                        if k < kept0.len() {
                            assert(kept@[k] == kept0[k]);
                            assert(all.take(d + 1)[kp[k]] == all.take(d)[kp[k]]);
                        }
                    }
                }
            },
        }
        proof {
            let lists = import_attrs(all.take(d + 1));
            let new = diagnostics.errors@.subrange(e0.len() as int, diagnostics.errors@.len() as int);
            let old_new = errs.subrange(e0.len() as int, errs.len() as int);
            assert(diagnostics.errors@.subrange(0, e0.len() as int) =~= e0) by {
                if diagnostics.errors@.len() > errs.len() {
                    assert(diagnostics.errors@.drop_last() == errs);
                    assert(diagnostics.errors@.subrange(0, e0.len() as int) =~= errs.subrange(0, e0.len() as int));
                }
            }
            if has_bad_target(i0.value.attributes@) {
                assert(new =~= old_new.push(diagnostics.errors@.last()));
                assert(lists[(d as int)] == i0.value.attributes@);
                let bad = bad_positions(lists);
                assert forall|k: int| 0 <= k < bad.len() implies (#[trigger] new[k]).kind == DiagnosticKind::Error
                    && is_target_error(new[k].error, lists[bad[k]][first_bad_target(lists[bad[k]])]) by {
                    if k < bad.len() - 1 {
                        assert(new[k] == old_new[k]);
                        assert(lists[bad[k]] == import_attrs(all.take(d))[bad[k]]);
                    }
                }
            } else {
                assert(new =~= old_new);
                let bad = bad_positions(lists);
                assert forall|k: int| 0 <= k < bad.len() implies (#[trigger] new[k]).kind == DiagnosticKind::Error
                    && is_target_error(new[k].error, lists[bad[k]][first_bad_target(lists[bad[k]])]) by {
                    assert(lists[bad[k]] == import_attrs(all.take(d))[bad[k]]);
                }
            }
            assert(rest@ =~= all.skip(all.len() - rest@.len()));
        }
    }
    proof {
        assert(all.take(all.len() as int) =~= all);
    }
    kept
}

/// Drops the words of every module that are not for the target.
#[derive(Debug)]
pub struct FilterTargetStage;

impl Stage<CompileContext> for FilterTargetStage {
    type Input = ASTProgram;

    type Output = ASTProgram;

    open spec fn runs(
        &self,
        input: Self::Input,
        context: CompileContext,
        after: Self,
        after_context: CompileContext,
        result: StageResult<Self::Output>,
    ) -> bool {
        &&& (result.output matches Some(p) && p.modules@.len() == input.modules@.len() && forall|i: int|
                0 <= i < p.modules@.len() ==> {
                    let m = #[trigger] p.modules@[i];
                    let m0 = input.modules@[i];
                    &&& m.name == m0.name
                    &&& m.imports == m0.imports
                    &&& m.structs == m0.structs
                    &&& words_filtered(m0.words@, m.words@, context.target)
                })
        &&& (target_errors(program_word_attrs(input.modules@), result.diagnostics.errors@))
        &&& (result.diagnostics.fatal == (result.diagnostics.errors@.len() > 0))
        &&& (after_context == context)
    }

    fn execute(&mut self, input: ASTProgram, context: &mut CompileContext) -> (r: StageResult<
        ASTProgram,
    >)
    {
        let mut diagnostics = Diagnostics::new();
        let target = context.target;
        let mut modules_in = input.modules;
        let mut modules_out: Vec<ASTModule> = Vec::new();
        let ghost all = modules_in@;
        let ghost n = modules_in@.len();
        proof {
            assert(all.take(0) =~= Seq::<ASTModule>::empty());
        }
        while modules_in.len() > 0
            invariant
                modules_out@.len() + modules_in@.len() == n,
                n == all.len(),
                modules_in@ == all.skip(modules_out@.len() as int),
                forall|i: int|
                    0 <= i < modules_out@.len() ==> {
                        let m = #[trigger] modules_out@[i];
                        let m0 = all[i];
                        &&& m.name == m0.name
                        &&& m.imports == m0.imports
                        &&& m.structs == m0.structs
                        &&& words_filtered(m0.words@, m.words@, target)
                    },
                target_errors(program_word_attrs(all.take(modules_out@.len() as int)), diagnostics.errors@),
                diagnostics.fatal == (diagnostics.errors@.len() > 0),
            decreases modules_in@.len(),
        {
            let ghost done = modules_out@.len() as int;
            let ghost m0 = modules_in@[0];
            assert(m0 == all[done]);
            let ASTModule { name, imports, structs, words } = modules_in.remove(0);
            let ghost errs0 = diagnostics.errors@;
            let words_out = filter_module_words(words, target, &mut diagnostics);
            proof {
                lemma_program_word_attrs_push(all.take(done), m0);
                assert(all.take(done + 1) =~= all.take(done).push(m0));
                lemma_target_errors_append(
                    program_word_attrs(all.take(done)),
                    word_attrs(m0.words@),
                    errs0,
                    diagnostics.errors@.subrange(errs0.len() as int, diagnostics.errors@.len() as int),
                );
                assert(errs0 + diagnostics.errors@.subrange(errs0.len() as int, diagnostics.errors@.len() as int)
                    =~= diagnostics.errors@);
                assert(modules_in@ =~= all.skip(done + 1));
            }
            let ghost before = modules_out@;
            modules_out.push(ASTModule { name, imports, structs, words: words_out });
            proof {
                assert forall|i: int| 0 <= i < modules_out@.len() implies {
                    let m = #[trigger] modules_out@[i];
                    let m0 = all[i];
                    &&& m.name == m0.name
                    &&& m.imports == m0.imports
                    &&& m.structs == m0.structs
                    &&& words_filtered(m0.words@, m.words@, target)
                } by {
                    if i < before.len() {
                        assert(modules_out@[i] == before[i]);
                    }
                }
            }
        }
        proof {
            assert(all.take(n as int) =~= all);
        }
        StageResult::new(Some(ASTProgram { modules: modules_out }), diagnostics)
    }
}

} // verus!
