//! Facts about where the syntax tree's tokens stand in a token list, used to
//! show that the parser accepts what the syntax tree writes.
use vstd::prelude::*;

use crate::common::Spanned;
use crate::stages::parse::ast::{
    ASTAttribute, ASTImport, ASTInstruction, ASTModule, ASTStackEffect, ASTStackEffectItem, ASTStruct, ASTWord,
    ASTWordVar, render_attribute, render_import, render_imports, render_module, render_struct, render_structs,
    render_words,
    render_attributes, render_body, render_call, render_effect, render_instruction, render_item, render_items,
    render_literal, render_path, render_segment, render_word, render_word_var, render_word_vars,
};
use crate::stages::parse::parser::names_not_numeric;
use crate::text::all_digits;
use crate::stages::parse::lexer::TokenView;

verus! {

/// The tokens `w` stand in `ks` from position `p` on.
pub open spec fn at(ks: Seq<TokenView>, p: int, w: Seq<TokenView>) -> bool {
    0 <= p && p + w.len() <= ks.len() && ks.subrange(p, p + w.len()) == w
}

/// Two runs of tokens stand one after the other exactly where their
/// concatenation stands.
pub proof fn lemma_at_split(ks: Seq<TokenView>, p: int, a: Seq<TokenView>, b: Seq<TokenView>)
    ensures
        at(ks, p, a + b) <==> (at(ks, p, a) && at(ks, p + a.len(), b)),
{
    if at(ks, p, a + b) {
        assert(ks.subrange(p, p + a.len()) =~= ks.subrange(p, p + (a + b).len()).subrange(
            0,
            a.len() as int,
        ));
        assert((a + b).subrange(0, a.len() as int) =~= a);
        assert(ks.subrange(p + a.len(), p + a.len() + b.len()) =~= ks.subrange(
            p,
            p + (a + b).len(),
        ).subrange(a.len() as int, (a + b).len() as int));
        assert((a + b).subrange(a.len() as int, (a + b).len() as int) =~= b);
    }
    if at(ks, p, a) && at(ks, p + a.len(), b) {
        assert forall|i: int| 0 <= i < (a + b).len() implies ks.subrange(p, p + (a + b).len())[i] == (a
            + b)[i] by {
            if i < a.len() {
                assert(ks.subrange(p, p + a.len())[i] == a[i]);
            } else {
                assert(ks.subrange(p + a.len(), p + a.len() + b.len())[i - a.len()] == b[i - a.len()]);
            }
        }
        assert(ks.subrange(p, p + (a + b).len()) =~= a + b);
    }
}

/// One token stands at `p`.
pub proof fn lemma_at_one(ks: Seq<TokenView>, p: int, t: TokenView)
    ensures
        at(ks, p, seq![t]) <==> (0 <= p < ks.len() && ks[p] == t),
{
    if 0 <= p < ks.len() && ks[p] == t {
        assert(ks.subrange(p, p + 1) =~= seq![t]);
    }
    if at(ks, p, seq![t]) {
        assert(ks.subrange(p, p + 1)[0] == ks[p]);
    }
}

/// The tokens from `p` are `n` names with a dot between each two.
pub open spec fn path_shape(ks: Seq<TokenView>, p: int, n: int) -> bool {
    &&& n >= 1
    &&& 0 <= p
    &&& p + 2 * n - 1 <= ks.len()
    &&& forall|k: int| 0 <= k < n ==> (#[trigger] ks[p + 2 * k]) is Ident
    &&& forall|k: int| 0 <= k < n - 1 ==> (#[trigger] ks[p + 2 * k + 1]) is Dot
}

/// The tokens from `p` are a name, then `n - 1` times a dot and a name or a
/// number.
pub open spec fn call_shape(ks: Seq<TokenView>, p: int, n: int) -> bool {
    &&& n >= 1
    &&& 0 <= p
    &&& p + 2 * n - 1 <= ks.len()
    &&& ks[p] is Ident
    &&& forall|k: int| 1 <= k < n ==> (#[trigger] ks[p + 2 * k]) is Ident || ks[p + 2 * k] is LiteralNumber
    &&& forall|k: int| 0 <= k < n - 1 ==> (#[trigger] ks[p + 2 * k + 1]) is Dot
}

/// A path is written as its names with dots between.
pub proof fn lemma_render_path_index(path: Seq<Seq<char>>)
    requires
        path.len() >= 1,
    ensures
        render_path(path).len() == 2 * path.len() - 1,
        forall|k: int| 0 <= k < path.len() ==> #[trigger] render_path(path)[2 * k] == TokenView::Ident(path[k]),
        forall|k: int| 0 <= k < path.len() - 1 ==> #[trigger] render_path(path)[2 * k + 1] == TokenView::Dot,
    decreases path.len(),
{
    if path.len() > 1 {
        let init = path.drop_last();
        lemma_render_path_index(init);
        let r = render_path(path);
        assert(r == render_path(init) + seq![TokenView::Dot, TokenView::Ident(path.last())]);
        assert forall|k: int| 0 <= k < path.len() implies #[trigger] r[2 * k] == TokenView::Ident(path[k]) by {
            if k < path.len() - 1 {
                assert(r[2 * k] == render_path(init)[2 * k]);
                assert(init[k] == path[k]);
            }
        }
        assert forall|k: int| 0 <= k < path.len() - 1 implies #[trigger] r[2 * k + 1] == TokenView::Dot by {
            if k < path.len() - 2 {
                assert(r[2 * k + 1] == render_path(init)[2 * k + 1]);
            }
        }
    }
}

/// A call path is written as its first name, then dots each followed by a
/// name or a field number.
pub proof fn lemma_render_call_index(path: Seq<Seq<char>>)
    requires
        path.len() >= 1,
    ensures
        render_call(path).len() == 2 * path.len() - 1,
        render_call(path)[0] == TokenView::Ident(path[0]),
        forall|k: int| 1 <= k < path.len() ==> #[trigger] render_call(path)[2 * k] == render_segment(path[k]),
        forall|k: int| 0 <= k < path.len() - 1 ==> #[trigger] render_call(path)[2 * k + 1] == TokenView::Dot,
    decreases path.len(),
{
    if path.len() > 1 {
        let init = path.drop_last();
        lemma_render_call_index(init);
        let r = render_call(path);
        assert(r == render_call(init) + seq![TokenView::Dot, render_segment(path.last())]);
        assert(r[0] == render_call(init)[0]);
        assert forall|k: int| 1 <= k < path.len() implies #[trigger] r[2 * k] == render_segment(path[k]) by {
            if k < path.len() - 1 {
                assert(r[2 * k] == render_call(init)[2 * k]);
                assert(init[k] == path[k]);
            }
        }
        assert forall|k: int| 0 <= k < path.len() - 1 implies #[trigger] r[2 * k + 1] == TokenView::Dot by {
            if k < path.len() - 2 {
                assert(r[2 * k + 1] == render_call(init)[2 * k + 1]);
            }
        }
    }
}

/// Where a path stands, the tokens have the shape of a path.
pub proof fn lemma_path_shape(ks: Seq<TokenView>, p: int, path: Seq<Seq<char>>)
    requires
        path.len() >= 1,
        at(ks, p, render_path(path)),
    ensures
        path_shape(ks, p, path.len() as int),
        render_path(path).len() == 2 * path.len() - 1,
{
    lemma_render_path_index(path);
    let w = render_path(path);
    assert forall|k: int| 0 <= k < path.len() implies (#[trigger] ks[p + 2 * k]) is Ident by {
        assert(ks.subrange(p, p + w.len())[2 * k] == w[2 * k]);
    }
    assert forall|k: int| 0 <= k < path.len() - 1 implies (#[trigger] ks[p + 2 * k + 1]) is Dot by {
        assert(ks.subrange(p, p + w.len())[2 * k + 1] == w[2 * k + 1]);
    }
}

/// A segment is written as a name or a number.
pub proof fn lemma_segment_kind(s: Seq<char>)
    ensures
        render_segment(s) is Ident || render_segment(s) is LiteralNumber,
{
}

/// Where a call path stands, the tokens have the shape of a call path.
pub proof fn lemma_call_shape(ks: Seq<TokenView>, p: int, path: Seq<Seq<char>>)
    requires
        path.len() >= 1,
        at(ks, p, render_call(path)),
    ensures
        call_shape(ks, p, path.len() as int),
        render_call(path).len() == 2 * path.len() - 1,
{
    lemma_render_call_index(path);
    let w = render_call(path);
    assert(ks.subrange(p, p + w.len())[0] == w[0]);
    assert forall|k: int| 1 <= k < path.len() implies (#[trigger] ks[p + 2 * k]) is Ident || ks[p + 2 * k] is LiteralNumber by {
        assert(ks.subrange(p, p + w.len())[2 * k] == w[2 * k]);
        lemma_segment_kind(path[k]);
    }
    assert forall|k: int| 0 <= k < path.len() - 1 implies (#[trigger] ks[p + 2 * k + 1]) is Dot by {
        assert(ks.subrange(p, p + w.len())[2 * k + 1] == w[2 * k + 1]);
    }
}

/// A path does not go on at position `q`: no dot followed by a name.
pub open spec fn path_ends(ks: Seq<TokenView>, q: int) -> bool {
    !(0 <= q && q + 1 < ks.len() && ks[q] is Dot && ks[q + 1] is Ident)
}

/// A call path does not go on at position `q`: no dot followed by a name
/// or a number.
pub open spec fn call_ends(ks: Seq<TokenView>, q: int) -> bool {
    !(0 <= q && q + 1 < ks.len() && ks[q] is Dot && (ks[q + 1] is Ident || ks[q + 1] is LiteralNumber))
}

/// Two paths that start at the same place and end where no path goes on
/// have the same length.
pub proof fn lemma_path_unique(ks: Seq<TokenView>, p: int, n1: int, n2: int)
    requires
        path_shape(ks, p, n1),
        path_shape(ks, p, n2),
        path_ends(ks, p + 2 * n1 - 1),
        path_ends(ks, p + 2 * n2 - 1),
    ensures
        n1 == n2,
{
    if n1 < n2 {
        assert(ks[p + 2 * (n1 - 1) + 1] is Dot);
        assert(ks[p + 2 * n1] is Ident);
    } else if n2 < n1 {
        assert(ks[p + 2 * (n2 - 1) + 1] is Dot);
        assert(ks[p + 2 * n2] is Ident);
    }
}

/// The same for call paths.
pub proof fn lemma_call_unique(ks: Seq<TokenView>, p: int, n1: int, n2: int)
    requires
        call_shape(ks, p, n1),
        call_shape(ks, p, n2),
        call_ends(ks, p + 2 * n1 - 1),
        call_ends(ks, p + 2 * n2 - 1),
    ensures
        n1 == n2,
{
    if n1 < n2 {
        assert(ks[p + 2 * (n1 - 1) + 1] is Dot);
        assert(ks[p + 2 * n1] is Ident || ks[p + 2 * n1] is LiteralNumber);
    } else if n2 < n1 {
        assert(ks[p + 2 * (n2 - 1) + 1] is Dot);
        assert(ks[p + 2 * n2] is Ident || ks[p + 2 * n2] is LiteralNumber);
    }
}

/// Token `t` stands at `j`.
pub open spec fn token_is(ks: Seq<TokenView>, j: int, t: TokenView) -> bool {
    0 <= j < ks.len() && ks[j] == t
}

/// The token at `j` can start a stack effect item.
pub open spec fn starts_item(ks: Seq<TokenView>, j: int) -> bool {
    0 <= j < ks.len() && (ks[j] is Ellipsis || ks[j] is Ident || ks[j] is Pipe || ks[j] is LeftSquareBracket)
}

/// No item can be read at `j`: no token that starts one stands there, or a
/// `|` does, followed by a token that starts neither an item nor `--`.
pub open spec fn no_item_at(ks: Seq<TokenView>, j: int) -> bool {
    !starts_item(ks, j) || (token_is(ks, j, TokenView::Pipe) && !starts_item(ks, j + 1) && !token_is(
        ks,
        j + 1,
        TokenView::MinusMinus,
    ))
}

/// An item whose paths have a name each and whose function types name at
/// least one output.
pub open spec fn item_wf(item: ASTStackEffectItem) -> bool
    decreases item,
{
    match item {
        ASTStackEffectItem::Symbol { name } => name@.len() >= 1,
        ASTStackEffectItem::StackVar { .. } => true,
        ASTStackEffectItem::Lambda { stack_effect } => items_wf(stack_effect.value.stack_in@) && items_wf(
            stack_effect.value.stack_out@,
        ) && stack_effect.value.stack_out@.len() > 0,
        ASTStackEffectItem::Array { element, .. } => item_wf(element.value),
    }
}

pub open spec fn items_wf(items: Seq<Spanned<ASTStackEffectItem>>) -> bool
    decreases items,
{
    if items.len() == 0 {
        true
    } else {
        items_wf(items.drop_last()) && item_wf(items.last().value)
    }
}

pub open spec fn effect_wf(e: ASTStackEffect) -> bool {
    items_wf(e.stack_in@) && items_wf(e.stack_out@)
}

/// The item stands at `p` and what follows it does not continue it.
pub open spec fn item_fits(ks: Seq<TokenView>, p: int, x: ASTStackEffectItem) -> bool {
    &&& item_wf(x)
    &&& at(ks, p, render_item(x))
    &&& path_ends(ks, p + render_item(x).len())
}

/// The items stand at `p`, and what follows them neither continues the list
/// nor, for an empty list, can be read as an item.
pub open spec fn items_fit(ks: Seq<TokenView>, p: int, xs: Seq<Spanned<ASTStackEffectItem>>) -> bool {
    let j = p + render_items(xs).len();
    &&& items_wf(xs)
    &&& at(ks, p, render_items(xs))
    &&& path_ends(ks, j)
    &&& !token_is(ks, j, TokenView::Comma)
    &&& (xs.len() > 0 || no_item_at(ks, j))
}

/// The stack effect stands at `p` and what follows it does not continue it.
pub open spec fn effect_fits(ks: Seq<TokenView>, p: int, e: ASTStackEffect) -> bool {
    let j = p + render_effect(e).len();
    &&& effect_wf(e)
    &&& at(ks, p, render_effect(e))
    &&& path_ends(ks, j)
    &&& !token_is(ks, j, TokenView::Comma)
    &&& (e.stack_out@.len() > 0 || no_item_at(ks, j))
}

pub proof fn lemma_items_wf_index(xs: Seq<Spanned<ASTStackEffectItem>>, k: int)
    requires
        items_wf(xs),
        0 <= k < xs.len(),
    ensures
        item_wf(xs[k].value),
    decreases xs.len(),
{
    if k < xs.len() - 1 {
        lemma_items_wf_index(xs.drop_last(), k);
    }
}

/// Items written one by one: the first, then a comma and the next.
pub proof fn lemma_items_step(xs: Seq<Spanned<ASTStackEffectItem>>, k: int)
    requires
        0 <= k < xs.len(),
    ensures
        k == 0 ==> render_items(xs.take(k + 1)) == render_item(xs[0].value),
        k > 0 ==> render_items(xs.take(k + 1)) == render_items(xs.take(k)) + seq![TokenView::Comma]
            + render_item(xs[k].value),
{
    assert(xs.take(k + 1).drop_last() =~= xs.take(k));
    assert(xs.take(k + 1).last() == xs[k]);
}

/// Where a list of items stands, so does each of its first `m` items,
/// followed by a comma while items remain.
pub proof fn lemma_items_take(ks: Seq<TokenView>, p: int, xs: Seq<Spanned<ASTStackEffectItem>>, m: int)
    requires
        at(ks, p, render_items(xs)),
        1 <= m <= xs.len(),
    ensures
        at(ks, p, render_items(xs.take(m))),
        m < xs.len() ==> token_is(ks, p + render_items(xs.take(m)).len(), TokenView::Comma),
    decreases xs.len(),
{
    if m == xs.len() {
        assert(xs.take(m) =~= xs);
    } else {
        let init = xs.drop_last();
        assert(render_items(xs) == render_items(init) + seq![TokenView::Comma] + render_item(xs.last().value));
        lemma_at_split(ks, p, render_items(init) + seq![TokenView::Comma], render_item(xs.last().value));
        lemma_at_split(ks, p, render_items(init), seq![TokenView::Comma]);
        lemma_at_one(ks, p + render_items(init).len(), TokenView::Comma);
        lemma_items_take(ks, p, init, m);
        assert(init.take(m) =~= xs.take(m));
        if m == init.len() {
            assert(init.take(m) =~= init);
        }
    }
}

/// Where `w` stands, its `i`-th token is at `p + i`.
pub proof fn lemma_at_index(ks: Seq<TokenView>, p: int, w: Seq<TokenView>, i: int)
    requires
        at(ks, p, w),
        0 <= i < w.len(),
    ensures
        ks[p + i] == w[i],
{
    assert(ks.subrange(p, p + w.len())[i] == ks[p + i]);
}

/// The first token of an item tells its kind.
pub proof fn lemma_item_head(x: ASTStackEffectItem)
    requires
        item_wf(x),
    ensures
        render_item(x).len() >= 1,
        x is Symbol ==> render_item(x)[0] is Ident,
        x is StackVar ==> render_item(x)[0] is Ellipsis,
        x is Lambda ==> render_item(x)[0] is Pipe,
        x is Array ==> render_item(x)[0] is LeftSquareBracket,
{
    match x {
        ASTStackEffectItem::Symbol { name } => {
            lemma_render_path_index(name@);
            assert(render_item(x)[2 * 0int] == TokenView::Ident(name@[0]));
        },
        _ => {},
    }
}

/// An instruction whose paths have a name each, and whose function types
/// (in a lambda's stack effect) name at least one output.
pub open spec fn instr_wf(i: ASTInstruction) -> bool
    decreases i,
{
    match i {
        ASTInstruction::Literal(_) => true,
        ASTInstruction::Call(path) => path@.len() >= 1,
        ASTInstruction::Pack(path) => path@.len() >= 1,
        ASTInstruction::PackPostfix(path) => path@.len() >= 1,
        ASTInstruction::Unpack(path) => path@.len() >= 1,
        ASTInstruction::Lambda { stack_effect, body } => effect_wf(stack_effect.value) && body_wf(body@),
    }
}

pub open spec fn body_wf(body: Seq<Spanned<ASTInstruction>>) -> bool
    decreases body,
{
    if body.len() == 0 {
        true
    } else {
        body_wf(body.drop_last()) && instr_wf(body.last().value)
    }
}

/// The token at `j` can start an instruction.
pub open spec fn starts_instr(ks: Seq<TokenView>, j: int) -> bool {
    0 <= j < ks.len() && (ks[j] is Pipe || ks[j] is GreaterThan || ks[j] is Ident || ks[j] is LiteralU8
        || ks[j] is LiteralU16 || ks[j] is LiteralString || ks[j] is LiteralBool)
}

/// The instruction stands at `p`, and what follows it does not continue
/// it: a call is not followed by a dot and a name or number, nor, where it
/// is written as a plain path, by `>` or `<`; a pack's path is not followed
/// by a dot and a name.
pub open spec fn instr_fits(ks: Seq<TokenView>, p: int, x: ASTInstruction) -> bool {
    let e = p + render_instruction(x).len();
    &&& instr_wf(x)
    &&& at(ks, p, render_instruction(x))
    &&& (x matches ASTInstruction::Call(c) ==> call_ends(ks, e) && (!path_shape(ks, p, c@.len() as int) || !(
    token_is(ks, e, TokenView::GreaterThan) || token_is(ks, e, TokenView::LessThan))))
    &&& (x is Pack ==> path_ends(ks, e))
}

/// The instructions stand at `p`, followed by `end` or `}`.
pub open spec fn body_fits(ks: Seq<TokenView>, p: int, xs: Seq<Spanned<ASTInstruction>>) -> bool {
    let j = p + render_body(xs).len();
    &&& body_wf(xs)
    &&& at(ks, p, render_body(xs))
    &&& (token_is(ks, j, TokenView::KeywordEnd) || token_is(ks, j, TokenView::RightBrace))
}

/// The first token of an instruction tells its kind.
pub proof fn lemma_instr_head(x: ASTInstruction)
    requires
        instr_wf(x),
    ensures
        render_instruction(x).len() >= 1,
        x matches ASTInstruction::Literal(l) ==> render_instruction(x)[0] == render_literal(l),
        x is Call || x is Unpack || x is PackPostfix ==> render_instruction(x)[0] is Ident,
        x is Pack ==> render_instruction(x)[0] is GreaterThan,
        x is Lambda ==> render_instruction(x)[0] is Pipe,
{
    match x {
        ASTInstruction::Call(c) => {
            lemma_render_call_index(c@);
        },
        ASTInstruction::Unpack(c) => {
            lemma_render_path_index(c@);
            assert(render_instruction(x)[0] == render_path(c@)[2 * 0int]);
        },
        ASTInstruction::PackPostfix(c) => {
            lemma_render_path_index(c@);
            assert(render_instruction(x)[0] == render_path(c@)[2 * 0int]);
        },
        _ => {},
    }
}

/// Instructions written one after another, from the first.
pub proof fn lemma_body_first(xs: Seq<Spanned<ASTInstruction>>)
    requires
        xs.len() >= 1,
    ensures
        render_body(xs) == render_instruction(xs[0].value) + render_body(xs.drop_first()),
        body_wf(xs) <==> instr_wf(xs[0].value) && body_wf(xs.drop_first()),
    decreases xs.len(),
{
    if xs.len() == 1 {
        assert(xs.drop_last() =~= Seq::<Spanned<ASTInstruction>>::empty());
        assert(xs.drop_first() =~= Seq::<Spanned<ASTInstruction>>::empty());
        assert(render_body(xs.drop_last()) == Seq::<TokenView>::empty());
        assert(body_wf(xs.drop_last()));
        assert(xs.last() == xs[0]);
        assert(render_body(xs) =~= render_instruction(xs[0].value));
    } else {
        let init = xs.drop_last();
        lemma_body_first(init);
        assert(init.drop_first() =~= xs.drop_first().drop_last());
        assert(xs.drop_first().last() == xs.last());
        assert(render_body(xs) =~= render_instruction(xs[0].value) + render_body(xs.drop_first()));
    }
}

/// A path whose later names are not numbers is written the same as a call
/// and as a path.
pub proof fn lemma_call_as_path(c: Seq<Seq<char>>)
    requires
        forall|k: int| 0 <= k < c.len() ==> !all_digits(#[trigger] c[k]),
    ensures
        render_call(c) == render_path(c),
    decreases c.len(),
{
    if c.len() > 1 {
        lemma_call_as_path(c.drop_last());
        assert(!all_digits(c[c.len() - 1]));
    }
}

/// Where a path stands among tokens whose names are never numbers, none of
/// its names is a number.
pub proof fn lemma_path_names(ks: Seq<TokenView>, p: int, c: Seq<Seq<char>>)
    requires
        c.len() >= 1,
        at(ks, p, render_path(c)),
        names_not_numeric(ks),
    ensures
        forall|k: int| 0 <= k < c.len() ==> !all_digits(#[trigger] c[k]),
{
    lemma_render_path_index(c);
    assert forall|k: int| 0 <= k < c.len() implies !all_digits(#[trigger] c[k]) by {
        lemma_at_index(ks, p, render_path(c), 2 * k);
        assert(ks[p + 2 * k] == TokenView::Ident(c[k]));
    }
}

/// One step through a body: either its first instruction fits where it
/// stands, or it is a call written as a plain path followed by a pack, which
/// the parser reads as an unpack; the rest is then again a body, with the
/// pack's path as a call.
pub proof fn lemma_body_step(ks: Seq<TokenView>, q: int, ys: Seq<Spanned<ASTInstruction>>) -> (res: (
    Seq<Spanned<ASTInstruction>>,
    int,
))
    requires
        body_fits(ks, q, ys),
        ys.len() >= 1,
        names_not_numeric(ks),
    ensures
        res.1 >= 0,
        res.1 == 0 ==> instr_fits(ks, q, ys[0].value) && body_fits(
            ks,
            q + render_instruction(ys[0].value).len(),
            res.0,
        ) && q + render_instruction(ys[0].value).len() + render_body(res.0).len() == q + render_body(ys).len(),
        res.1 > 0 ==> path_shape(ks, q, res.1) && path_ends(ks, q + 2 * res.1 - 1) && token_is(
            ks,
            q + 2 * res.1 - 1,
            TokenView::GreaterThan,
        ) && body_fits(ks, q + 2 * res.1, res.0) && q + 2 * res.1 + render_body(res.0).len() == q
            + render_body(ys).len(),
{
    let x = ys[0].value;
    let rest = ys.drop_first();
    lemma_body_first(ys);
    lemma_instr_head(x);
    lemma_at_split(ks, q, render_instruction(x), render_body(rest));
    let e = q + render_instruction(x).len();
    let j = q + render_body(ys).len();
    assert(body_fits(ks, e, rest));
    // what follows the first instruction starts an instruction, or is `end` or `}`
    if rest.len() >= 1 {
        lemma_body_first(rest);
        lemma_instr_head(rest[0].value);
        lemma_at_split(ks, e, render_instruction(rest[0].value), render_body(rest.drop_first()));
        lemma_at_index(ks, e, render_instruction(rest[0].value), 0);
    } else {
        assert(e == j);
    }
    match x {
        ASTInstruction::Call(c) => {
            lemma_call_shape(ks, q, c@);
            if path_shape(ks, q, c@.len() as int) && (token_is(ks, e, TokenView::GreaterThan) || token_is(
                ks,
                e,
                TokenView::LessThan,
            )) {
                // the next instruction is a pack
                let next = rest[0].value;
                let p2 = next->Pack_0;
                let tail = rest.drop_first();
                assert(render_instruction(next) == seq![TokenView::GreaterThan] + render_path(p2@));
                lemma_at_split(ks, e, seq![TokenView::GreaterThan], render_path(p2@));
                lemma_path_names(ks, e + 1, p2@);
                lemma_call_as_path(p2@);
                let call = Spanned { value: ASTInstruction::Call(p2), span: rest[0].span };
                let ys2 = seq![call] + tail;
                assert(ys2[0] == call);
                assert(ys2.drop_first() =~= tail);
                lemma_body_first(ys2);
                lemma_at_split(ks, e + 1, render_path(p2@), render_body(tail));
                assert(render_body(ys2) == render_path(p2@) + render_body(tail));
                return (ys2, c@.len() as int);
            }
            (rest, 0)
        },
        _ => (rest, 0),
    }
}

/// An instruction that fits at a name, where a path of `n` names stands
/// that does not go on: an unpack or a postfix pack is that path and its
/// `>` or `<`; a call is either that path followed by neither, or longer.
pub proof fn lemma_ident_instr(ks: Seq<TokenView>, p: int, x: ASTInstruction, n: int)
    requires
        instr_fits(ks, p, x),
        ks[p] is Ident,
        path_shape(ks, p, n),
        path_ends(ks, p + 2 * n - 1),
    ensures
        x is Call || x is Unpack || x is PackPostfix,
        x is Unpack ==> render_instruction(x).len() == 2 * n && token_is(ks, p + 2 * n - 1, TokenView::GreaterThan),
        x is PackPostfix ==> render_instruction(x).len() == 2 * n && token_is(
            ks,
            p + 2 * n - 1,
            TokenView::LessThan,
        ),
        x is Call ==> !token_is(ks, p + 2 * n - 1, TokenView::GreaterThan) && !token_is(
            ks,
            p + 2 * n - 1,
            TokenView::LessThan,
        ),
{
    lemma_instr_head(x);
    lemma_at_index(ks, p, render_instruction(x), 0);
    match x {
        ASTInstruction::Unpack(c) => {
            lemma_at_split(ks, p, render_path(c@), seq![TokenView::GreaterThan]);
            lemma_path_shape(ks, p, c@);
            lemma_at_one(ks, p + render_path(c@).len(), TokenView::GreaterThan);
            lemma_path_unique(ks, p, c@.len() as int, n);
        },
        ASTInstruction::PackPostfix(c) => {
            lemma_at_split(ks, p, render_path(c@), seq![TokenView::LessThan]);
            lemma_path_shape(ks, p, c@);
            lemma_at_one(ks, p + render_path(c@).len(), TokenView::LessThan);
            lemma_path_unique(ks, p, c@.len() as int, n);
        },
        ASTInstruction::Call(c) => {
            lemma_call_shape(ks, p, c@);
            let m = c@.len() as int;
            if path_shape(ks, p, m) {
                lemma_path_unique(ks, p, m, n);
            } else {
                if n >= m {
                    assert(path_shape(ks, p, m));
                }
                assert(ks[p + 2 * (n - 1) + 1] is Dot);
            }
        },
        _ => {},
    }
}

/// The attributes stand at `p` and no further attribute follows.
pub open spec fn attrs_fit(ks: Seq<TokenView>, p: int, xs: Seq<Spanned<ASTAttribute>>) -> bool {
    at(ks, p, render_attributes(xs)) && !token_is(ks, p + render_attributes(xs).len(), TokenView::Hash)
}

/// Attributes written one after another, from the first.
pub proof fn lemma_attrs_first(xs: Seq<Spanned<ASTAttribute>>)
    requires
        xs.len() >= 1,
    ensures
        render_attributes(xs) == render_attribute(xs[0].value) + render_attributes(xs.drop_first()),
        render_attribute(xs[0].value)[0] == TokenView::Hash,
    decreases xs.len(),
{
    if xs.len() == 1 {
        assert(xs.drop_last() =~= Seq::<Spanned<ASTAttribute>>::empty());
        assert(xs.drop_first() =~= Seq::<Spanned<ASTAttribute>>::empty());
        assert(render_attributes(xs.drop_last()) == Seq::<TokenView>::empty());
        assert(xs.last() == xs[0]);
        assert(render_attributes(xs) =~= render_attribute(xs[0].value));
    } else {
        let init = xs.drop_last();
        lemma_attrs_first(init);
        assert(init.drop_first() =~= xs.drop_first().drop_last());
        assert(xs.drop_first().last() == xs.last());
        assert(render_attributes(xs) =~= render_attribute(xs[0].value) + render_attributes(xs.drop_first()));
    }
}

/// The word variables stand at `p`, at least one, and no comma follows.
pub open spec fn vars_fit(ks: Seq<TokenView>, p: int, vs: Seq<ASTWordVar>) -> bool {
    &&& vs.len() >= 1
    &&& at(ks, p, render_word_vars(vs))
    &&& !token_is(ks, p + render_word_vars(vs).len(), TokenView::Comma)
}

/// Word variables written one by one: the first, then a comma and the next.
pub proof fn lemma_vars_step(vs: Seq<ASTWordVar>, k: int)
    requires
        0 <= k < vs.len(),
    ensures
        k == 0 ==> render_word_vars(vs.take(k + 1)) == render_word_var(vs[0]),
        k > 0 ==> render_word_vars(vs.take(k + 1)) == render_word_vars(vs.take(k)) + seq![TokenView::Comma]
            + render_word_var(vs[k]),
{
    assert(vs.take(k + 1).drop_last() =~= vs.take(k));
    assert(vs.take(k + 1).last() == vs[k]);
}

/// Where word variables stand, so do their first `m`, followed by a comma
/// while variables remain.
pub proof fn lemma_vars_take(ks: Seq<TokenView>, p: int, vs: Seq<ASTWordVar>, m: int)
    requires
        at(ks, p, render_word_vars(vs)),
        1 <= m <= vs.len(),
    ensures
        at(ks, p, render_word_vars(vs.take(m))),
        m < vs.len() ==> token_is(ks, p + render_word_vars(vs.take(m)).len(), TokenView::Comma),
    decreases vs.len(),
{
    if m == vs.len() {
        assert(vs.take(m) =~= vs);
    } else {
        let init = vs.drop_last();
        assert(render_word_vars(vs) == render_word_vars(init) + seq![TokenView::Comma] + render_word_var(
            vs.last(),
        ));
        lemma_at_split(ks, p, render_word_vars(init) + seq![TokenView::Comma], render_word_var(vs.last()));
        lemma_at_split(ks, p, render_word_vars(init), seq![TokenView::Comma]);
        lemma_at_one(ks, p + render_word_vars(init).len(), TokenView::Comma);
        lemma_vars_take(ks, p, init, m);
        assert(init.take(m) =~= vs.take(m));
        if m == init.len() {
            assert(init.take(m) =~= init);
        }
    }
}

/// A word whose stack effect and body are well formed.
pub open spec fn word_wf(w: ASTWord) -> bool {
    effect_wf(w.stack_effect.value) && body_wf(w.body@)
}

/// The word stands at `p`.
pub open spec fn word_fits(ks: Seq<TokenView>, p: int, w: ASTWord) -> bool {
    word_wf(w) && at(ks, p, render_word(w))
}

/// The tokens of a word's variables, with their angle brackets; none
/// where it has none.
pub open spec fn word_vars_tokens(w: ASTWord) -> Seq<TokenView> {
    if w.word_vars@.len() == 0 {
        Seq::empty()
    } else {
        seq![TokenView::LessThan] + render_word_vars(w.word_vars@) + seq![TokenView::GreaterThan]
    }
}

/// Where a word stands, each of its parts stands in turn.
pub proof fn lemma_word_parts(ks: Seq<TokenView>, p: int, w: ASTWord)
    requires
        word_fits(ks, p, w),
    ensures
        ({
            let a = p + render_attributes(w.attributes@).len();
            let v = a + 2;
            let c = v + word_vars_tokens(w).len();
            let e = render_effect(w.stack_effect.value);
            let b = render_body(w.body@);
            &&& attrs_fit(ks, p, w.attributes@)
            &&& token_is(ks, a, TokenView::KeywordDef)
            &&& token_is(ks, a + 1, TokenView::Ident(w.name.value@))
            &&& (w.word_vars@.len() > 0 ==> token_is(ks, v, TokenView::LessThan) && vars_fit(
                ks,
                v + 1,
                w.word_vars@,
            ) && token_is(ks, v + 1 + render_word_vars(w.word_vars@).len(), TokenView::GreaterThan)
                && word_vars_tokens(w).len() == render_word_vars(w.word_vars@).len() + 2)
            &&& (w.word_vars@.len() == 0 ==> word_vars_tokens(w).len() == 0)
            &&& token_is(ks, c, TokenView::LeftParenthesis)
            &&& effect_fits(ks, c + 1, w.stack_effect.value)
            &&& token_is(ks, c + 1 + e.len(), TokenView::RightParenthesis)
            &&& body_fits(ks, c + 2 + e.len(), w.body@)
            &&& token_is(ks, c + 2 + e.len() + b.len(), TokenView::KeywordEnd)
            &&& render_word(w).len() == c + 3 + e.len() + b.len() - p
        }),
{
    let ra = render_attributes(w.attributes@);
    let n = seq![TokenView::KeywordDef, TokenView::Ident(w.name.value@)];
    let vt = word_vars_tokens(w);
    let e = render_effect(w.stack_effect.value);
    let b = render_body(w.body@);
    let lp = seq![TokenView::LeftParenthesis];
    let rp = seq![TokenView::RightParenthesis];
    let en = seq![TokenView::KeywordEnd];
    assert(render_word(w) =~= ra + n + vt + lp + e + rp + b + en);
    lemma_at_split(ks, p, ra + n + vt + lp + e + rp + b, en);
    lemma_at_split(ks, p, ra + n + vt + lp + e + rp, b);
    lemma_at_split(ks, p, ra + n + vt + lp + e, rp);
    lemma_at_split(ks, p, ra + n + vt + lp, e);
    lemma_at_split(ks, p, ra + n + vt, lp);
    lemma_at_split(ks, p, ra + n, vt);
    lemma_at_split(ks, p, ra, n);
    let a = p + ra.len();
    let v = a + 2;
    let c = v + vt.len();
    lemma_at_index(ks, a, n, 0);
    lemma_at_index(ks, a, n, 1);
    lemma_at_one(ks, c, TokenView::LeftParenthesis);
    lemma_at_one(ks, c + 1 + e.len(), TokenView::RightParenthesis);
    lemma_at_one(ks, c + 2 + e.len() + b.len(), TokenView::KeywordEnd);
    if w.word_vars@.len() > 0 {
        let rv = render_word_vars(w.word_vars@);
        lemma_at_split(ks, v, seq![TokenView::LessThan] + rv, seq![TokenView::GreaterThan]);
        lemma_at_split(ks, v, seq![TokenView::LessThan], rv);
        lemma_at_one(ks, v, TokenView::LessThan);
        lemma_at_one(ks, v + 1 + rv.len(), TokenView::GreaterThan);
    }
}

/// The import stands at `p`.
pub open spec fn import_fits(ks: Seq<TokenView>, p: int, i: ASTImport) -> bool {
    i.name@.len() >= 1 && at(ks, p, render_import(i))
}

/// The struct stands at `p`: it has at least one field, and its fields are
/// well formed.
pub open spec fn struct_fits(ks: Seq<TokenView>, p: int, s: ASTStruct) -> bool {
    items_wf(s.fields@) && s.fields@.len() >= 1 && at(ks, p, render_struct(s))
}

/// A module whose name and imports have a name each, whose structs have
/// at least one field and whose items and words are well formed.
pub open spec fn module_wf(m: ASTModule) -> bool {
    &&& m.name.value@.len() >= 1
    &&& forall|i: int| 0 <= i < m.imports@.len() ==> (#[trigger] m.imports@[i]).value.name@.len() >= 1
    &&& forall|i: int|
        0 <= i < m.structs@.len() ==> items_wf((#[trigger] m.structs@[i]).value.fields@)
            && m.structs@[i].value.fields@.len() >= 1
    &&& forall|i: int| 0 <= i < m.words@.len() ==> word_wf((#[trigger] m.words@[i]).value)
}

/// The module is written with exactly these tokens.
pub open spec fn module_fits(ks: Seq<TokenView>, m: ASTModule) -> bool {
    module_wf(m) && render_module(m) == ks
}

/// Where an import stands, its attributes, `import`, its path and `;` do.
pub proof fn lemma_import_parts(ks: Seq<TokenView>, p: int, i: ASTImport)
    requires
        import_fits(ks, p, i),
    ensures
        ({
            let a = p + render_attributes(i.attributes@).len();
            let n = render_path(i.name@).len();
            &&& attrs_fit(ks, p, i.attributes@)
            &&& token_is(ks, a, TokenView::KeywordImport)
            &&& at(ks, a + 1, render_path(i.name@))
            &&& path_ends(ks, a + 1 + n)
            &&& token_is(ks, a + 1 + n, TokenView::Semicolon)
            &&& render_import(i).len() == a + 2 + n - p
        }),
        render_import(i)[0] is Hash || render_import(i)[0] is KeywordImport,
{
    let ra = render_attributes(i.attributes@);
    let rp = render_path(i.name@);
    lemma_at_split(ks, p, ra + seq![TokenView::KeywordImport] + rp, seq![TokenView::Semicolon]);
    lemma_at_split(ks, p, ra + seq![TokenView::KeywordImport], rp);
    lemma_at_split(ks, p, ra, seq![TokenView::KeywordImport]);
    lemma_at_one(ks, p + ra.len(), TokenView::KeywordImport);
    lemma_at_one(ks, p + ra.len() + 1 + rp.len(), TokenView::Semicolon);
    if i.attributes@.len() >= 1 {
        lemma_attrs_first(i.attributes@);
        assert(render_import(i)[0] == ra[0]);
    } else {
        assert(ra.len() == 0);
        assert(render_import(i)[0] == TokenView::KeywordImport);
    }
}

/// Where a struct stands, its parts do.
pub proof fn lemma_struct_parts(ks: Seq<TokenView>, p: int, s: ASTStruct)
    requires
        struct_fits(ks, p, s),
    ensures
        ({
            let n = render_items(s.fields@).len();
            &&& token_is(ks, p, TokenView::KeywordStruct)
            &&& token_is(ks, p + 1, TokenView::Ident(s.name.value@))
            &&& token_is(ks, p + 2, TokenView::LeftParenthesis)
            &&& items_fit(ks, p + 3, s.fields@)
            &&& n >= 1
            &&& token_is(ks, p + 3 + n, TokenView::RightParenthesis)
            &&& token_is(ks, p + 4 + n, TokenView::Semicolon)
            &&& render_struct(s).len() == n + 5
        }),
        render_struct(s)[0] is KeywordStruct,
{
    let h = seq![TokenView::KeywordStruct, TokenView::Ident(s.name.value@), TokenView::LeftParenthesis];
    let ri = render_items(s.fields@);
    let t = seq![TokenView::RightParenthesis, TokenView::Semicolon];
    lemma_at_split(ks, p, h + ri, t);
    lemma_at_split(ks, p, h, ri);
    lemma_at_index(ks, p, h, 0);
    lemma_at_index(ks, p, h, 1);
    lemma_at_index(ks, p, h, 2);
    lemma_at_index(ks, p + 3 + ri.len(), t, 0);
    lemma_at_index(ks, p + 3 + ri.len(), t, 1);
    lemma_items_take(ks, p + 3, s.fields@, 1);
    lemma_items_step(s.fields@, 0);
    lemma_items_wf_index(s.fields@, 0);
    lemma_item_head(s.fields@[0].value);
    assert(render_items(s.fields@).len() >= render_items(s.fields@.take(1)).len()) by {
        lemma_items_take(ks, p + 3, s.fields@, s.fields@.len() as int);
        assert(s.fields@.take(s.fields@.len() as int) =~= s.fields@);
        if s.fields@.len() > 1 {
            lemma_items_prefix_len(s.fields@, 1);
        }
    }
}

/// A list's first items are written with no more tokens than the list.
pub proof fn lemma_items_prefix_len(xs: Seq<Spanned<ASTStackEffectItem>>, m: int)
    requires
        1 <= m <= xs.len(),
    ensures
        render_items(xs.take(m)).len() <= render_items(xs).len(),
    decreases xs.len(),
{
    if m < xs.len() {
        lemma_items_prefix_len(xs.drop_last(), m);
        assert(xs.drop_last().take(m) =~= xs.take(m));
        if xs.len() >= 2 {
            assert(render_items(xs) == render_items(xs.drop_last()) + seq![TokenView::Comma] + render_item(
                xs.last().value,
            ));
        }
    } else {
        assert(xs.take(m) =~= xs);
    }
}

/// Where a word stands, its first token is `#` or `def`.
pub proof fn lemma_word_head(ks: Seq<TokenView>, p: int, w: ASTWord)
    requires
        word_fits(ks, p, w),
    ensures
        render_word(w).len() >= 1,
        render_word(w)[0] is Hash || render_word(w)[0] is KeywordDef,
{
    lemma_word_parts(ks, p, w);
    let ra = render_attributes(w.attributes@);
    assert(render_word(w) =~= ra + (render_word(w).subrange(ra.len() as int, render_word(w).len() as int)));
    if w.attributes@.len() >= 1 {
        lemma_attrs_first(w.attributes@);
        assert(render_word(w)[0] == ra[0]);
    } else {
        lemma_at_index(ks, p, render_word(w), 0);
    }
}

/// Imports written one after another, from the first.
pub proof fn lemma_imports_first(xs: Seq<Spanned<ASTImport>>)
    requires
        xs.len() >= 1,
    ensures
        render_imports(xs) == render_import(xs[0].value) + render_imports(xs.drop_first()),
    decreases xs.len(),
{
    if xs.len() == 1 {
        assert(xs.drop_last() =~= Seq::<Spanned<ASTImport>>::empty());
        assert(xs.drop_first() =~= Seq::<Spanned<ASTImport>>::empty());
        assert(render_imports(xs.drop_last()) == Seq::<TokenView>::empty());
        assert(xs.last() == xs[0]);
        assert(render_imports(xs) =~= render_import(xs[0].value));
    } else {
        let init = xs.drop_last();
        lemma_imports_first(init);
        assert(init.drop_first() =~= xs.drop_first().drop_last());
        assert(xs.drop_first().last() == xs.last());
        assert(render_imports(xs) =~= render_import(xs[0].value) + render_imports(xs.drop_first()));
    }
}

/// Structs written one after another, from the first.
pub proof fn lemma_structs_first(xs: Seq<Spanned<ASTStruct>>)
    requires
        xs.len() >= 1,
    ensures
        render_structs(xs) == render_struct(xs[0].value) + render_structs(xs.drop_first()),
    decreases xs.len(),
{
    if xs.len() == 1 {
        assert(xs.drop_last() =~= Seq::<Spanned<ASTStruct>>::empty());
        assert(xs.drop_first() =~= Seq::<Spanned<ASTStruct>>::empty());
        assert(render_structs(xs.drop_last()) == Seq::<TokenView>::empty());
        assert(xs.last() == xs[0]);
        assert(render_structs(xs) =~= render_struct(xs[0].value));
    } else {
        let init = xs.drop_last();
        lemma_structs_first(init);
        assert(init.drop_first() =~= xs.drop_first().drop_last());
        assert(xs.drop_first().last() == xs.last());
        assert(render_structs(xs) =~= render_struct(xs[0].value) + render_structs(xs.drop_first()));
    }
}

/// Words written one after another, from the first.
pub proof fn lemma_words_first(xs: Seq<Spanned<ASTWord>>)
    requires
        xs.len() >= 1,
    ensures
        render_words(xs) == render_word(xs[0].value) + render_words(xs.drop_first()),
    decreases xs.len(),
{
    if xs.len() == 1 {
        assert(xs.drop_last() =~= Seq::<Spanned<ASTWord>>::empty());
        assert(xs.drop_first() =~= Seq::<Spanned<ASTWord>>::empty());
        assert(render_words(xs.drop_last()) == Seq::<TokenView>::empty());
        assert(xs.last() == xs[0]);
        assert(render_words(xs) =~= render_word(xs[0].value));
    } else {
        let init = xs.drop_last();
        lemma_words_first(init);
        assert(init.drop_first() =~= xs.drop_first().drop_last());
        assert(xs.drop_first().last() == xs.last());
        assert(render_words(xs) =~= render_word(xs[0].value) + render_words(xs.drop_first()));
    }
}

/// Where a module's tokens are, its imports, `module`, its name, `;`, its
/// structs and its words stand in turn.
pub proof fn lemma_module_parts(ks: Seq<TokenView>, m: ASTModule)
    requires
        module_fits(ks, m),
    ensures
        ({
            let mm = render_imports(m.imports@).len() as int;
            let n = render_path(m.name.value@).len() as int;
            let s = mm + 2 + n;
            let w = s + render_structs(m.structs@).len();
            &&& at(ks, 0, render_imports(m.imports@))
            &&& token_is(ks, mm, TokenView::KeywordModule)
            &&& at(ks, mm + 1, render_path(m.name.value@))
            &&& path_ends(ks, mm + 1 + n)
            &&& token_is(ks, mm + 1 + n, TokenView::Semicolon)
            &&& at(ks, s, render_structs(m.structs@))
            &&& at(ks, w, render_words(m.words@))
            &&& w + render_words(m.words@).len() == ks.len()
        }),
{
    let ri = render_imports(m.imports@);
    let rp = render_path(m.name.value@);
    let rs = render_structs(m.structs@);
    let rw = render_words(m.words@);
    let mk = seq![TokenView::KeywordModule];
    let sc = seq![TokenView::Semicolon];
    assert(ks.subrange(0, ks.len() as int) =~= ks);
    assert(at(ks, 0, render_module(m)));
    lemma_at_split(ks, 0, ri + mk + rp + sc + rs, rw);
    lemma_at_split(ks, 0, ri + mk + rp + sc, rs);
    lemma_at_split(ks, 0, ri + mk + rp, sc);
    lemma_at_split(ks, 0, ri + mk, rp);
    lemma_at_split(ks, 0, ri, mk);
    lemma_at_one(ks, ri.len() as int, TokenView::KeywordModule);
    lemma_at_one(ks, (ri.len() + 1 + rp.len()) as int, TokenView::Semicolon);
}

/// The imports `ys` stand at `q` and end where the module's imports end.
pub open spec fn imports_rest(ks: Seq<TokenView>, q: int, ys: Seq<Spanned<ASTImport>>, m: ASTModule) -> bool {
    &&& forall|i: int| 0 <= i < ys.len() ==> (#[trigger] ys[i]).value.name@.len() >= 1
    &&& at(ks, q, render_imports(ys))
    &&& q + render_imports(ys).len() == render_imports(m.imports@).len()
}

/// Where the module's words start.
pub open spec fn words_start(m: ASTModule) -> int {
    (render_imports(m.imports@).len() + 2 + render_path(m.name.value@).len() + render_structs(m.structs@).len()) as int
}

/// The structs `ys` stand at `q` and end where the module's structs end.
pub open spec fn structs_rest(ks: Seq<TokenView>, q: int, ys: Seq<Spanned<ASTStruct>>, m: ASTModule) -> bool {
    &&& forall|i: int|
        0 <= i < ys.len() ==> items_wf((#[trigger] ys[i]).value.fields@) && ys[i].value.fields@.len() >= 1
    &&& at(ks, q, render_structs(ys))
    &&& q + render_structs(ys).len() == words_start(m)
}

/// The words `ys` stand at `q` and end where the tokens end.
pub open spec fn words_rest(ks: Seq<TokenView>, q: int, ys: Seq<Spanned<ASTWord>>, m: ASTModule) -> bool {
    &&& forall|i: int| 0 <= i < ys.len() ==> word_wf((#[trigger] ys[i]).value)
    &&& at(ks, q, render_words(ys))
    &&& q + render_words(ys).len() == ks.len()
}

/// After a module's structs comes the end of the tokens, `#` or `def`.
pub proof fn lemma_words_start(ks: Seq<TokenView>, m: ASTModule)
    requires
        module_fits(ks, m),
    ensures
        words_start(m) == ks.len() || token_is(ks, words_start(m), TokenView::Hash) || token_is(
            ks,
            words_start(m),
            TokenView::KeywordDef,
        ),
{
    lemma_module_parts(ks, m);
    let w = words_start(m);
    if m.words@.len() >= 1 {
        lemma_words_first(m.words@);
        lemma_at_split(ks, w, render_word(m.words@[0].value), render_words(m.words@.drop_first()));
        assert(word_wf(m.words@[0].value));
        lemma_word_head(ks, w, m.words@[0].value);
        lemma_at_index(ks, w, render_word(m.words@[0].value), 0);
    }
}

} // verus!
