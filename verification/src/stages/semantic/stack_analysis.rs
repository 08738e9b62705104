//! Stack analysis: how a word's or struct operation's stack effect applies
//! to the types on the stack.
//!
//! A call matches the top of the stack against its inputs, binding type
//! variables to types and a stack variable to all the types below; then the
//! inputs are replaced by its outputs with the same bindings.
use vstd::prelude::*;

use crate::common::Span;
use crate::error::CompileError;
use crate::stages::semantic::context::{HIRContext, SymbolId, SymbolKind, type_text};
use crate::stages::semantic::hir::{
    HIRType, TypeView, copy_type, copy_types, lemma_types_view, lemma_types_view_add,
    lemma_types_view_push, lemma_types_view_subrange, same_type, same_types, type_view, types_view,
};

verus! {

/// The types bound to type variables and the stacks bound to stack
/// variables; a variable is bound once.
#[derive(Debug)]
pub struct Substitution {
    pub type_vars: Vec<(SymbolId, HIRType)>,
    pub stack_vars: Vec<(SymbolId, Vec<HIRType>)>,
}

/// A type has a trait: a built-in type declares it, or a type variable is
/// bounded by it; other types have no trait.
pub open spec fn has_trait(ctx: &HIRContext, t: HIRType, tr: SymbolId) -> bool {
    match t {
        HIRType::BuiltIn(id) => id.0 < ctx.symbols@.len() && match ctx.symbols@[id.0 as int] {
            SymbolKind::Type { traits, .. } => exists|k: int| 0 <= k < traits@.len() && traits@[k] == tr,
            _ => false,
        },
        HIRType::TypeVar(id) => id.0 < ctx.symbols@.len() && match ctx.symbols@[id.0 as int] {
            SymbolKind::TypeVar { traits, .. } => exists|k: int| 0 <= k < traits@.len() && traits@[k].value == tr,
            _ => false,
        },
        _ => false,
    }
}

/// A type may bind type variable `v`: it has every trait `v` is bounded by.
pub open spec fn satisfies_bounds(ctx: &HIRContext, t: HIRType, v: SymbolId) -> bool {
    v.0 < ctx.symbols@.len() && match ctx.symbols@[v.0 as int] {
        SymbolKind::TypeVar { traits, .. } => forall|k: int| 0 <= k < traits@.len() ==> #[trigger] has_trait(ctx, t, traits@[k].value),
        _ => false,
    }
}

/// The errors of analysing a call: a stack of the wrong shape, or a
/// variable that cannot be inferred.
pub open spec fn is_stack_error(e: CompileError) -> bool {
    e is InvalidStack || e is CannotInferType
}

/// The type bound to a type variable.
pub open spec fn bound_type(pairs: Seq<(SymbolId, HIRType)>, v: SymbolId) -> Option<TypeView>
    decreases pairs.len(),
{
    if pairs.len() == 0 {
        None
    } else if pairs.last().0 == v {
        Some(type_view(pairs.last().1))
    } else {
        bound_type(pairs.drop_last(), v)
    }
}

/// The stack bound to a stack variable.
pub open spec fn bound_stack(pairs: Seq<(SymbolId, Vec<HIRType>)>, v: SymbolId) -> Option<
    Seq<TypeView>,
>
    decreases pairs.len(),
{
    if pairs.len() == 0 {
        None
    } else if pairs.last().0 == v {
        Some(types_view(pairs.last().1@))
    } else {
        bound_stack(pairs.drop_last(), v)
    }
}

impl Substitution {
    pub open spec fn ty(&self, v: SymbolId) -> Option<TypeView> {
        bound_type(self.type_vars@, v)
    }

    pub open spec fn stack(&self, v: SymbolId) -> Option<Seq<TypeView>> {
        bound_stack(self.stack_vars@, v)
    }

    /// `other` keeps every binding of this one.
    pub open spec fn extended_by(&self, other: &Substitution) -> bool {
        &&& forall|v: SymbolId| #[trigger] self.ty(v) is Some ==> other.ty(v) == self.ty(v)
        &&& forall|v: SymbolId| #[trigger] self.stack(v) is Some ==> other.stack(v) == self.stack(v)
    }

    pub fn new() -> (r: Self)
        ensures
            forall|v: SymbolId| r.ty(v) is None && r.stack(v) is None,
    {
        Substitution { type_vars: Vec::new(), stack_vars: Vec::new() }
    }
}

/// The type with its variables replaced as the substitution binds them;
/// `None` where a variable is unbound or a stack variable stands alone.
pub open spec fn apply_type(s: &Substitution, t: TypeView) -> Option<TypeView>
    decreases t,
{
    match t {
        TypeView::BuiltIn(_) => Some(t),
        TypeView::Struct(_) => Some(t),
        TypeView::TypeVar(v) => s.ty(v),
        TypeView::StackVar(_) => None,
        TypeView::Lambda { stack_in, stack_out } => match (
            apply_stack(s, stack_in),
            apply_stack(s, stack_out),
        ) {
            (Some(i), Some(o)) => Some(TypeView::Lambda { stack_in: i, stack_out: o }),
            _ => None,
        },
        TypeView::Array { element, size } => match apply_type(s, *element) {
            Some(e) => Some(TypeView::Array { element: Box::new(e), size }),
            None => None,
        },
    }
}

/// The stack with its variables replaced; a stack variable stands for the
/// stack bound to it.
pub open spec fn apply_stack(s: &Substitution, ts: Seq<TypeView>) -> Option<Seq<TypeView>>
    decreases ts,
{
    if ts.len() == 0 {
        Some(Seq::empty())
    } else {
        match apply_stack(s, ts.drop_last()) {
            Some(prefix) => match ts.last() {
                TypeView::StackVar(v) => match s.stack(v) {
                    Some(bound) => Some(prefix + bound),
                    None => None,
                },
                t => match apply_type(s, t) {
                    Some(u) => Some(prefix.push(u)),
                    None => None,
                },
            },
            None => None,
        }
    }
}

/// Applying a substitution gives the same result under every extension of
/// it.
pub proof fn lemma_apply_extends(s: &Substitution, s2: &Substitution, t: TypeView)
    requires
        s.extended_by(s2),
        apply_type(s, t) is Some,
    ensures
        apply_type(s2, t) == apply_type(s, t),
    decreases t,
{
    match t {
        TypeView::TypeVar(v) => {
            assert(s.ty(v) is Some);
        },
        TypeView::Lambda { stack_in, stack_out } => {
            lemma_apply_stack_extends(s, s2, stack_in);
            lemma_apply_stack_extends(s, s2, stack_out);
        },
        TypeView::Array { element, size } => {
            lemma_apply_extends(s, s2, *element);
        },
        _ => {},
    }
}

pub proof fn lemma_apply_stack_extends(s: &Substitution, s2: &Substitution, ts: Seq<TypeView>)
    requires
        s.extended_by(s2),
        apply_stack(s, ts) is Some,
    ensures
        apply_stack(s2, ts) == apply_stack(s, ts),
    decreases ts,
{
    if ts.len() > 0 {
        lemma_apply_stack_extends(s, s2, ts.drop_last());
        match ts.last() {
            TypeView::StackVar(v) => {
                assert(s.stack(v) is Some);
            },
            t => {
                lemma_apply_extends(s, s2, t);
            },
        }
    }
}

/// Applying to a stack with one more type at the bottom.
pub proof fn lemma_apply_stack_prepend(s: &Substitution, x: TypeView, ts: Seq<TypeView>)
    ensures
        apply_stack(s, seq![x] + ts) == match (apply_stack(s, seq![x]), apply_stack(s, ts)) {
            (Some(a), Some(b)) => Some(a + b),
            _ => None::<Seq<TypeView>>,
        },
    decreases ts.len(),
{
    if ts.len() == 0 {
        assert(seq![x] + ts =~= seq![x]);
        assert(seq![x].drop_last() =~= Seq::<TypeView>::empty());
        if let Some(a) = apply_stack(s, seq![x]) {
            assert(a + Seq::<TypeView>::empty() =~= a);
        }
    } else {
        let whole = seq![x] + ts;
        assert(whole.drop_last() =~= seq![x] + ts.drop_last());
        assert(whole.last() == ts.last());
        lemma_apply_stack_prepend(s, x, ts.drop_last());
        match (apply_stack(s, seq![x]), apply_stack(s, ts.drop_last())) {
            (Some(a), Some(b)) => {
                match ts.last() {
                    TypeView::StackVar(v) => {
                        if let Some(bound) = s.stack(v) {
                            assert(a + b + bound =~= a + (b + bound));
                        }
                    },
                    t => {
                        if let Some(u) = apply_type(s, t) {
                            assert((a + b).push(u) =~= a + b.push(u));
                        }
                    },
                }
            },
            _ => {},
        }
    }
}

/// Diagnostics write a stack as the names of its types.
pub fn format_stack(ctx: &HIRContext, tys: &Vec<HIRType>) -> (r: Vec<String>)
    ensures
        r@.len() == tys@.len(),
        forall|i: int| 0 <= i < tys@.len() ==> (#[trigger] r@[i])@ == type_text(ctx, tys@[i]),
{
    let mut r: Vec<String> = Vec::new();
    let mut i: usize = 0;
    while i < tys.len()
        invariant
            i <= tys@.len(),
            r@.len() == i,
            forall|j: int| 0 <= j < i ==> (#[trigger] r@[j])@ == type_text(ctx, tys@[j]),
        decreases tys@.len() - i,
    {
        r.push(ctx.format_type(&tys[i]));
        i += 1;
    }
    r
}

/// The matching of one call against the stack.
pub struct CallAnalysis<'a> {
    pub hir_ctx: &'a HIRContext,
    pub stack: Vec<HIRType>,
    pub initial_stack: Vec<HIRType>,
    pub substitution: Substitution,
    pub expected_stack_in: Vec<HIRType>,
    pub expected_stack_out: Vec<HIRType>,
    pub span: Span,
}

impl<'a> CallAnalysis<'a> {
    pub fn new(
        hir_ctx: &'a HIRContext,
        initial_stack: Vec<HIRType>,
        expected_stack_in: Vec<HIRType>,
        expected_stack_out: Vec<HIRType>,
        span: Span,
    ) -> (r: Self)
        ensures
            types_view(r.stack@) == types_view(initial_stack@),
            types_view(r.initial_stack@) == types_view(initial_stack@),
            r.expected_stack_in == expected_stack_in,
            r.expected_stack_out == expected_stack_out,
            forall|v: SymbolId| r.substitution.ty(v) is None && r.substitution.stack(v) is None,
            r.hir_ctx == hir_ctx,
            r.span == span,
    {
        CallAnalysis {
            hir_ctx,
            stack: copy_types(&initial_stack),
            initial_stack,
            substitution: Substitution::new(),
            expected_stack_in,
            expected_stack_out,
            span,
        }
    }

    /// A stack error of this call, with its expected inputs and the stack it
    /// was matched against.
    fn error(&self, label: &str) -> (r: CompileError)
        ensures
            r is InvalidStack,
    {
        CompileError::InvalidStack {
            label: String::from_str(label),
            span: self.span,
            additional_spans: Vec::new(),
            expected_stack: format_stack(self.hir_ctx, &self.expected_stack_in),
            actual_stack: format_stack(self.hir_ctx, &self.initial_stack),
        }
    }
}

/// How many type constructors a type is made of.
pub open spec fn type_size(t: HIRType) -> nat
    decreases t,
{
    match t {
        HIRType::Lambda { stack_in, stack_out } => 1 + types_size(stack_in@) + types_size(stack_out@),
        HIRType::Array { element, .. } => 1 + type_size(*element),
        _ => 1,
    }
}

pub open spec fn types_size(ts: Seq<HIRType>) -> nat
    decreases ts,
{
    if ts.len() == 0 {
        0
    } else {
        types_size(ts.drop_last()) + type_size(ts.last())
    }
}

proof fn lemma_types_size(ts: Seq<HIRType>, i: int)
    requires
        0 <= i < ts.len(),
    ensures
        type_size(ts[i]) <= types_size(ts),
    decreases ts.len(),
{
    if i < ts.len() - 1 {
        assert(ts.drop_last()[i] == ts[i]);
        lemma_types_size(ts.drop_last(), i);
    }
}

/// What unification keeps: the call and its stacks, and every binding.
pub open spec fn unify_keeps(before: &CallAnalysis, after: &CallAnalysis) -> bool {
    &&& before.substitution.extended_by(&after.substitution)
    &&& after.hir_ctx == before.hir_ctx
    &&& after.stack == before.stack
    &&& after.initial_stack == before.initial_stack
    &&& after.expected_stack_in == before.expected_stack_in
    &&& after.expected_stack_out == before.expected_stack_out
    &&& after.span == before.span
}

proof fn lemma_extends_trans(a: &Substitution, b: &Substitution, c: &Substitution)
    requires
        a.extended_by(b),
        b.extended_by(c),
    ensures
        a.extended_by(c),
{
    assert forall|v: SymbolId| #[trigger] a.ty(v) is Some implies c.ty(v) == a.ty(v) by {
        assert(b.ty(v) == a.ty(v));
    }
    assert forall|v: SymbolId| #[trigger] a.stack(v) is Some implies c.stack(v) == a.stack(v) by {
        assert(b.stack(v) == a.stack(v));
    }
}

impl<'a> CallAnalysis<'a> {
    /// Whether `actual` has every trait the type variable `expected` asks
    /// for.
    fn has_required_traits(&self, actual: &HIRType, expected: SymbolId) -> (r: bool)
        ensures
            r == satisfies_bounds(self.hir_ctx, *actual, expected),
    {
        let required = match self.hir_ctx.get(expected) {
            Some(SymbolKind::TypeVar { traits, .. }) => traits,
            _ => {
                return false;
            },
        };
        let mut i: usize = 0;
        while i < required.len()
            invariant
                expected.0 < self.hir_ctx.symbols@.len(),
                self.hir_ctx.symbols@[expected.0 as int] is TypeVar,
                self.hir_ctx.symbols@[expected.0 as int]->TypeVar_traits == *required,
                i <= required@.len(),
                forall|k: int| 0 <= k < i ==> has_trait(self.hir_ctx, *actual, #[trigger] required@[k].value),
            decreases required@.len() - i,
        {
            let t = required[i].value;
            let ok = match actual {
                HIRType::BuiltIn(id) => match self.hir_ctx.get(*id) {
                    Some(SymbolKind::Type { traits, .. }) => {
                        let mut found = false;
                        let mut j: usize = 0;
                        while j < traits.len()
                            invariant
                                j <= traits@.len(),
                                found == exists|k: int| 0 <= k < j && traits@[k] == t,
                            decreases traits@.len() - j,
                        {
                            if traits[j].0 == t.0 {
                                found = true;
                            }
                            j += 1;
                        }
                        found
                    },
                    _ => false,
                },
                HIRType::TypeVar(id) => match self.hir_ctx.get(*id) {
                    Some(SymbolKind::TypeVar { traits, .. }) => {
                        let mut found = false;
                        let mut j: usize = 0;
                        while j < traits.len()
                            invariant
                                j <= traits@.len(),
                                found == exists|k: int| 0 <= k < j && traits@[k].value == t,
                            decreases traits@.len() - j,
                        {
                            if traits[j].value.0 == t.0 {
                                found = true;
                            }
                            j += 1;
                        }
                        found
                    },
                    _ => false,
                },
                _ => false,
            };
            if !ok {
                assert(!has_trait(self.hir_ctx, *actual, required@[i as int].value));
                return false;
            }
            i += 1;
        }
        true
    }

    /// Matches one type against one expected type.
    fn unify_type_pair(&mut self, actual: HIRType, expected: &HIRType) -> (r: Result<(), CompileError>)
        ensures
            unify_keeps(old(self), final(self)),
            r is Ok ==> apply_type(&final(self).substitution, type_view(*expected)) == Some(
                type_view(actual),
            ),
            r matches Err(e) ==> is_stack_error(e),
        decreases type_size(*expected), 0nat,
    {
        match expected {
            HIRType::BuiltIn(id) => match actual {
                HIRType::BuiltIn(a) => {
                    if a.0 != id.0 {
                        return Err(self.error("type mismatch"));
                    }
                    Ok(())
                },
                _ => Err(self.error("type mismatch")),
            },
            HIRType::Struct(id) => match actual {
                HIRType::Struct(a) => {
                    if a.0 != id.0 {
                        return Err(self.error("type mismatch"));
                    }
                    Ok(())
                },
                _ => Err(self.error("type mismatch")),
            },
            HIRType::TypeVar(v) => {
                if !self.has_required_traits(&actual, *v) {
                    return Err(self.error("trait constraint not satisfied"));
                }
                let mut i: usize = 0;
                let n = self.substitution.type_vars.len();
                assert(self.substitution.type_vars@.subrange(0, n as int) =~= self.substitution.type_vars@);
                while i < n
                    invariant
                        *self == *old(self),
                        *expected == HIRType::TypeVar(*v),
                        n == self.substitution.type_vars@.len(),
                        i <= n,
                        bound_type(self.substitution.type_vars@, *v) == bound_type(
                            self.substitution.type_vars@.subrange(0, (n - i) as int),
                            *v,
                        ),
                    decreases n - i,
                {
                    let k = n - 1 - i;
                    let ghost sub = self.substitution.type_vars@.subrange(0, (k + 1) as int);
                    assert(sub.drop_last() =~= self.substitution.type_vars@.subrange(0, k as int));
                    if self.substitution.type_vars[k].0.0 == v.0 {
                        if !same_type(&self.substitution.type_vars[k].1, &actual) {
                            return Err(self.error("type mismatch"));
                        }
                        assert(sub.last() == self.substitution.type_vars@[k as int]);
                        assert(bound_type(sub, *v) == Some(type_view(self.substitution.type_vars@[k as int].1)));
                        return Ok(());
                    }
                    i += 1;
                }
                let ghost before = self.substitution.type_vars@;
                assert(before.subrange(0, 0) =~= Seq::<(SymbolId, HIRType)>::empty());
                self.substitution.type_vars.push((*v, actual));
                proof {
                    assert(self.substitution.type_vars@.drop_last() =~= before);
                    assert forall|u: SymbolId| #[trigger] old(self).substitution.ty(u) is Some implies self.substitution.ty(
                        u,
                    ) == old(self).substitution.ty(u) by {
                        if u == *v {
                            assert(bound_type(before, *v) is None);
                        }
                    }
                }
                Ok(())
            },
            HIRType::StackVar(_) => Err(self.error("stack underflow")),
            HIRType::Lambda { stack_in, stack_out } => match actual {
                HIRType::Lambda { stack_in: actual_in, stack_out: actual_out } => {
                    let ghost s0 = self.substitution;
                    self.unify_stack_exact(actual_in, stack_in)?;
                    let ghost s1 = self.substitution;
                    self.unify_stack_exact(actual_out, stack_out)?;
                    proof {
                        lemma_extends_trans(&old(self).substitution, &s1, &self.substitution);
                        lemma_apply_stack_extends(&s1, &self.substitution, types_view(stack_in@));
                    }
                    Ok(())
                },
                _ => Err(self.error("type mismatch")),
            },
            HIRType::Array { element, size } => match actual {
                HIRType::Array { element: actual_element, size: actual_size } => {
                    if actual_size != *size {
                        return Err(self.error("type mismatch"));
                    }
                    self.unify_type_pair(*actual_element, element)?;
                    Ok(())
                },
                _ => Err(self.error("type mismatch")),
            },
        }
    }

    /// Matches the expected type against the top of the stack; a stack
    /// variable takes the whole stack.
    fn unify_type(&mut self, actual_stack: &mut Vec<HIRType>, expected: &HIRType) -> (r: Result<(), CompileError>)
        ensures
            unify_keeps(old(self), final(self)),
            r is Ok ==> apply_stack(&final(self).substitution, seq![type_view(*expected)]) is Some
                && types_view(old(actual_stack)@) == types_view(final(actual_stack)@) + apply_stack(
                &final(self).substitution,
                seq![type_view(*expected)],
            ).unwrap(),
            r matches Err(e) ==> is_stack_error(e),
        decreases type_size(*expected), 1nat,
    {
        let ghost one = seq![type_view(*expected)];
        assert(one.drop_last() =~= Seq::<TypeView>::empty());
        match expected {
            HIRType::StackVar(v) => {
                let mut rest: Vec<HIRType> = Vec::new();
                let ghost before_stack = actual_stack@;
                core::mem::swap(&mut rest, actual_stack);
                let mut i: usize = 0;
                let n = self.substitution.stack_vars.len();
                assert(self.substitution.stack_vars@.subrange(0, n as int) =~= self.substitution.stack_vars@);
                assert(actual_stack@.len() == 0);
                while i < n
                    invariant
                        *self == *old(self),
                        *expected == HIRType::StackVar(*v),
                        actual_stack@.len() == 0,
                        types_view(rest@) == types_view(old(actual_stack)@),
                        n == self.substitution.stack_vars@.len(),
                        i <= n,
                        bound_stack(self.substitution.stack_vars@, *v) == bound_stack(
                            self.substitution.stack_vars@.subrange(0, (n - i) as int),
                            *v,
                        ),
                    decreases n - i,
                {
                    let k = n - 1 - i;
                    let ghost sub = self.substitution.stack_vars@.subrange(0, (k + 1) as int);
                    assert(sub.drop_last() =~= self.substitution.stack_vars@.subrange(0, k as int));
                    if self.substitution.stack_vars[k].0.0 == v.0 {
                        if !same_types(&self.substitution.stack_vars[k].1, &rest) {
                            return Err(self.error("stack mismatch"));
                        }
                        assert(sub.last() == self.substitution.stack_vars@[k as int]);
                        assert(bound_stack(sub, *v) == Some(types_view(self.substitution.stack_vars@[k as int].1@)));
                        proof {
                            let one = seq![type_view(*expected)];
                            assert(one.drop_last() =~= Seq::<TypeView>::empty());
                            assert(apply_stack(&self.substitution, one.drop_last()) == Some(Seq::<TypeView>::empty()));
                            assert(Seq::<TypeView>::empty() + types_view(rest@) =~= types_view(rest@));
                            assert(types_view(actual_stack@) =~= Seq::<TypeView>::empty());
                            assert(types_view(actual_stack@) + types_view(rest@) =~= types_view(rest@));
                        }
                        return Ok(());
                    }
                    i += 1;
                }
                let ghost before = self.substitution.stack_vars@;
                assert(before.subrange(0, 0) =~= Seq::<(SymbolId, Vec<HIRType>)>::empty());
                let ghost rest_view = types_view(rest@);
                self.substitution.stack_vars.push((*v, rest));
                proof {
                    assert(self.substitution.stack_vars@.drop_last() =~= before);
                    assert forall|u: SymbolId| #[trigger] old(self).substitution.stack(u) is Some implies self.substitution.stack(
                        u,
                    ) == old(self).substitution.stack(u) by {
                        if u == *v {
                            assert(bound_stack(before, *v) is None);
                        }
                    }
                    let one = seq![type_view(*expected)];
                    assert(one.drop_last() =~= Seq::<TypeView>::empty());
                    assert(apply_stack(&self.substitution, one.drop_last()) == Some(Seq::<TypeView>::empty()));
                    assert(self.substitution.stack(*v) == Some(rest_view));
                    assert(Seq::<TypeView>::empty() + rest_view =~= rest_view);
                    assert(types_view(actual_stack@) =~= Seq::<TypeView>::empty());
                    assert(types_view(actual_stack@) + rest_view =~= rest_view);
                }
                Ok(())
            },
            _ => {
                let ghost before_stack = actual_stack@;
                let top = match actual_stack.pop() {
                    Some(t) => t,
                    None => {
                        return Err(self.error("stack underflow"));
                    },
                };
                proof {
                    assert(before_stack =~= actual_stack@.push(top));
                    lemma_types_view_push(actual_stack@, top);
                }
                let ghost top_view = type_view(top);
                self.unify_type_pair(top, expected)?;
                Ok(())
            },
        }
    }

    /// Matches the expected stack against the top of the stack, from the
    /// top down; what is left below is returned.
    fn unify_stack_pair(&mut self, actual: Vec<HIRType>, expected: &Vec<HIRType>) -> (r: Result<
        Vec<HIRType>,
        CompileError,
    >)
        ensures
            unify_keeps(old(self), final(self)),
            r matches Ok(rest) ==> apply_stack(&final(self).substitution, types_view(expected@))
                is Some && types_view(actual@) == types_view(rest@) + apply_stack(
                &final(self).substitution,
                types_view(expected@),
            ).unwrap(),
            r matches Err(e) ==> is_stack_error(e),
        decreases types_size(expected@), 2nat,
    {
        let mut actual = actual;
        let ghost original = types_view(actual@);
        let n = expected.len();
        let mut i: usize = n;
        proof {
            lemma_types_view(expected@);
            assert(expected@.subrange(n as int, n as int) =~= Seq::<HIRType>::empty());
            assert(original + Seq::<TypeView>::empty() =~= original);
        }
        while i > 0
            invariant
                n == expected@.len(),
                i <= n,
                unify_keeps(old(self), self),
                apply_stack(&self.substitution, types_view(expected@.subrange(i as int, n as int))) is Some,
                original == types_view(actual@) + apply_stack(
                    &self.substitution,
                    types_view(expected@.subrange(i as int, n as int)),
                ).unwrap(),
            decreases i,
        {
            i -= 1;
            let ghost s_before = self.substitution;
            let ghost suffix = types_view(expected@.subrange(i + 1, n as int));
            let ghost actual_before = types_view(actual@);
            proof {
                lemma_types_size(expected@, i as int);
            }
            self.unify_type(&mut actual, &expected[i])?;
            proof {
                lemma_extends_trans(&old(self).substitution, &s_before, &self.substitution);
                lemma_apply_stack_extends(&s_before, &self.substitution, suffix);
                let x = type_view(expected@[i as int]);
                assert(expected@.subrange(i as int, n as int) =~= seq![expected@[i as int]]
                    + expected@.subrange(i + 1, n as int));
                lemma_types_view_add(seq![expected@[i as int]], expected@.subrange(i + 1, n as int));
                assert(types_view(seq![expected@[i as int]]) =~= seq![x]) by {
                    lemma_types_view(seq![expected@[i as int]]);
                }
                lemma_apply_stack_prepend(&self.substitution, x, suffix);
                let a = apply_stack(&self.substitution, seq![x]).unwrap();
                let b = apply_stack(&self.substitution, suffix).unwrap();
                assert(actual_before == types_view(actual@) + a);
                assert(original == actual_before + b);
                assert(original =~= types_view(actual@) + (a + b));
            }
        }
        assert(expected@.subrange(0, n as int) =~= expected@);
        Ok(actual)
    }

    /// Matches the expected stack against the whole of `actual`.
    fn unify_stack_exact(&mut self, actual: Vec<HIRType>, expected: &Vec<HIRType>) -> (r: Result<
        (),
        CompileError,
    >)
        ensures
            unify_keeps(old(self), final(self)),
            r is Ok ==> apply_stack(&final(self).substitution, types_view(expected@)) == Some(
                types_view(actual@),
            ),
            r matches Err(e) ==> is_stack_error(e),
        decreases types_size(expected@), 3nat,
    {
        let ghost view = types_view(actual@);
        let rest = self.unify_stack_pair(actual, expected)?;
        if rest.len() > 0 {
            return Err(CompileError::InvalidStack {
                label: String::from_str("stack mismatch"),
                span: self.span,
                additional_spans: Vec::new(),
                expected_stack: format_stack(self.hir_ctx, expected),
                actual_stack: Vec::new(),
            });
        }
        proof {
            lemma_types_view(rest@);
            assert(types_view(rest@) =~= Seq::<TypeView>::empty());
            let x = apply_stack(&self.substitution, types_view(expected@)).unwrap();
            assert(Seq::<TypeView>::empty() + x =~= x);
        }
        Ok(())
    }
}

/// The types the call leaves: the stack below the matched inputs, then the
/// outputs with the variables bound as the inputs were matched.
pub open spec fn call_result(s: &Substitution, stack: Seq<TypeView>, stack_in: Seq<TypeView>, stack_out: Seq<
    TypeView,
>) -> Option<Seq<TypeView>> {
    match (apply_stack(s, stack_in), apply_stack(s, stack_out)) {
        (Some(a), Some(b)) => if a.len() <= stack.len() && stack.subrange(
            stack.len() - a.len(),
            stack.len() as int,
        ) == a {
            Some(stack.subrange(0, stack.len() - a.len()) + b)
        } else {
            None
        },
        _ => None,
    }
}

impl<'a> CallAnalysis<'a> {
    fn resolve_typevar(&self, v: SymbolId) -> (r: Result<HIRType, CompileError>)
        ensures
            r matches Ok(t) ==> self.substitution.ty(v) == Some(type_view(t)),
            r is Err ==> self.substitution.ty(v) is None,
            r matches Err(e) ==> is_stack_error(e),
    {
        let n = self.substitution.type_vars.len();
        let mut i: usize = 0;
        assert(self.substitution.type_vars@.subrange(0, n as int) =~= self.substitution.type_vars@);
        while i < n
            invariant
                n == self.substitution.type_vars@.len(),
                i <= n,
                bound_type(self.substitution.type_vars@, v) == bound_type(
                    self.substitution.type_vars@.subrange(0, (n - i) as int),
                    v,
                ),
            decreases n - i,
        {
            let k = n - 1 - i;
            let ghost sub = self.substitution.type_vars@.subrange(0, (k + 1) as int);
            assert(sub.drop_last() =~= self.substitution.type_vars@.subrange(0, k as int));
            if self.substitution.type_vars[k].0.0 == v.0 {
                assert(sub.last() == self.substitution.type_vars@[k as int]);
                return Ok(copy_type(&self.substitution.type_vars[k].1));
            }
            i += 1;
        }
        Err(self.error_infer("cannot infer type variable"))
    }

    fn resolve_stackvar(&self, v: SymbolId) -> (r: Result<Vec<HIRType>, CompileError>)
        ensures
            r matches Ok(t) ==> self.substitution.stack(v) == Some(types_view(t@)),
            r is Err ==> self.substitution.stack(v) is None,
            r matches Err(e) ==> is_stack_error(e),
    {
        let n = self.substitution.stack_vars.len();
        let mut i: usize = 0;
        assert(self.substitution.stack_vars@.subrange(0, n as int) =~= self.substitution.stack_vars@);
        while i < n
            invariant
                n == self.substitution.stack_vars@.len(),
                i <= n,
                bound_stack(self.substitution.stack_vars@, v) == bound_stack(
                    self.substitution.stack_vars@.subrange(0, (n - i) as int),
                    v,
                ),
            decreases n - i,
        {
            let k = n - 1 - i;
            let ghost sub = self.substitution.stack_vars@.subrange(0, (k + 1) as int);
            assert(sub.drop_last() =~= self.substitution.stack_vars@.subrange(0, k as int));
            if self.substitution.stack_vars[k].0.0 == v.0 {
                assert(sub.last() == self.substitution.stack_vars@[k as int]);
                return Ok(copy_types(&self.substitution.stack_vars[k].1));
            }
            i += 1;
        }
        Err(self.error_infer("cannot infer stack variable"))
    }

    /// A variable of this call that nothing on the stack binds.
    fn error_infer(&self, label: &str) -> (r: CompileError)
        ensures
            r is CannotInferType,
    {
        CompileError::CannotInferType { label: String::from_str(label), span: self.span }
    }

    /// A stack error of this call, with its expected outputs.
    fn error_out(&self, label: &str) -> (r: CompileError)
        ensures
            r is InvalidStack,
    {
        CompileError::InvalidStack {
            label: String::from_str(label),
            span: self.span,
            additional_spans: Vec::new(),
            expected_stack: format_stack(self.hir_ctx, &self.expected_stack_out),
            actual_stack: format_stack(self.hir_ctx, &self.initial_stack),
        }
    }

    /// The type with its variables replaced as bound.
    fn substitute_type_value(&self, ty: &HIRType) -> (r: Result<HIRType, CompileError>)
        ensures
            r matches Ok(t) ==> apply_type(&self.substitution, type_view(*ty)) == Some(type_view(t)),
            r matches Err(e) ==> is_stack_error(e),
        decreases type_size(*ty), 1nat,
    {
        match ty {
            HIRType::BuiltIn(id) => Ok(HIRType::BuiltIn(*id)),
            HIRType::Struct(id) => Ok(HIRType::Struct(*id)),
            HIRType::TypeVar(v) => self.resolve_typevar(*v),
            HIRType::StackVar(_) => Err(
                self.error_out("stack variable cannot be substituted as a single type"),
            ),
            HIRType::Lambda { stack_in, stack_out } => {
                let i = self.substitute_stack_value(stack_in)?;
                let o = self.substitute_stack_value(stack_out)?;
                Ok(HIRType::Lambda { stack_in: i, stack_out: o })
            },
            HIRType::Array { element, size } => {
                let e = self.substitute_type_value(element)?;
                Ok(HIRType::Array { element: Box::new(e), size: *size })
            },
        }
    }

    /// The stack with its variables replaced as bound.
    fn substitute_stack_value(&self, stack: &Vec<HIRType>) -> (r: Result<Vec<HIRType>, CompileError>)
        ensures
            r matches Ok(t) ==> apply_stack(&self.substitution, types_view(stack@)) == Some(
                types_view(t@),
            ),
            r matches Err(e) ==> is_stack_error(e),
        decreases types_size(stack@), 2nat,
    {
        let mut result: Vec<HIRType> = Vec::new();
        let mut i: usize = 0;
        proof {
            lemma_types_view(stack@);
            assert(stack@.subrange(0, 0) =~= Seq::<HIRType>::empty());
        }
        while i < stack.len()
            invariant
                i <= stack@.len(),
                apply_stack(&self.substitution, types_view(stack@.subrange(0, i as int))) == Some(
                    types_view(result@),
                ),
            decreases stack@.len() - i,
        {
            proof {
                lemma_types_size(stack@, i as int);
                let sub = stack@.subrange(0, i + 1);
                assert(sub.drop_last() =~= stack@.subrange(0, i as int));
                lemma_types_view_push(stack@.subrange(0, i as int), stack@[i as int]);
                assert(sub =~= stack@.subrange(0, i as int).push(stack@[i as int]));
                let tv = types_view(sub);
                assert(tv.drop_last() =~= types_view(stack@.subrange(0, i as int)));
                assert(tv.last() == type_view(stack@[i as int]));
            }
            let ghost before = result@;
            match &stack[i] {
                HIRType::StackVar(v) => {
                    let resolved = self.resolve_stackvar(*v)?;
                    let mut resolved = resolved;
                    proof {
                        lemma_types_view_add(before, resolved@);
                    }
                    result.append(&mut resolved);
                },
                t => {
                    let resolved = self.substitute_type_value(t)?;
                    proof {
                        lemma_types_view_push(before, resolved);
                    }
                    result.push(resolved);
                },
            }
            i += 1;
        }
        assert(stack@.subrange(0, stack@.len() as int) =~= stack@);
        Ok(result)
    }

    /// Matches the inputs against the stack, then pushes the outputs.
    pub fn apply(&mut self) -> (r: Result<Vec<HIRType>, CompileError>)
        requires
            types_view(old(self).stack@) == types_view(old(self).initial_stack@),
        ensures
            r matches Ok(t) ==> call_result(
                &final(self).substitution,
                types_view(old(self).initial_stack@),
                types_view(old(self).expected_stack_in@),
                types_view(old(self).expected_stack_out@),
            ) == Some(types_view(t@)),
            r matches Err(e) ==> is_stack_error(e),
    {
        let stack = copy_types(&self.stack);
        let expected = copy_types(&self.expected_stack_in);
        let ghost in_view = types_view(self.expected_stack_in@);
        let rest = self.unify_stack_pair(stack, &expected)?;
        let mut substituted = self.substitute_stack_value(&self.expected_stack_out)?;
        let mut result = rest;
        let ghost rest_view = types_view(result@);
        proof {
            lemma_types_view_add(result@, substituted@);
        }
        result.append(&mut substituted);
        proof {
            let init = types_view(self.initial_stack@);
            let a = apply_stack(&self.substitution, in_view).unwrap();
            assert(init == rest_view + a);
            assert(init.subrange(0, init.len() - a.len()) =~= rest_view);
            assert(init.subrange(init.len() - a.len(), init.len() as int) =~= a);
        }
        Ok(result)
    }
}

/// The types on the stack as a word's body is checked.
pub struct StackAnalysis<'a> {
    pub hir_ctx: &'a HIRContext,
    pub stack: Vec<HIRType>,
}

impl<'a> StackAnalysis<'a> {
    pub fn new(hir_ctx: &'a HIRContext, stack: Vec<HIRType>) -> (r: Self)
        ensures
            r.hir_ctx == hir_ctx,
            r.stack == stack,
    {
        StackAnalysis { hir_ctx, stack }
    }

    pub fn push(&mut self, ty: HIRType)
        ensures
            types_view(final(self).stack@) == types_view(old(self).stack@).push(type_view(ty)),
            final(self).hir_ctx == old(self).hir_ctx,
    {
        proof {
            lemma_types_view_push(self.stack@, ty);
        }
        self.stack.push(ty);
    }

    /// Applies a stack effect: the inputs are matched against the top of the
    /// stack, binding its variables, and replaced by the outputs. The
    /// bindings are returned: under them the stack was what is below the
    /// inputs followed by the inputs, and is now what is below them followed
    /// by the outputs.
    pub fn apply_call(&mut self, stack_in: Vec<HIRType>, stack_out: Vec<HIRType>, span: Span) -> (r:
        Result<Substitution, CompileError>)
        ensures
            final(self).hir_ctx == old(self).hir_ctx,
            r matches Ok(s) ==> call_result(
                &s,
                types_view(old(self).stack@),
                types_view(stack_in@),
                types_view(stack_out@),
            ) == Some(types_view(final(self).stack@)),
            r matches Err(e) ==> is_stack_error(e),
            r is Err ==> final(self).stack@ == old(self).stack@,
    {
        let ghost in_view = types_view(stack_in@);
        let ghost out_view = types_view(stack_out@);
        let initial = copy_types(&self.stack);
        let mut analysis = CallAnalysis::new(self.hir_ctx, initial, stack_in, stack_out, span);
        let result = analysis.apply()?;
        self.stack = result;
        Ok(analysis.substitution)
    }

    /// Whether the stack is exactly the expected one.
    pub fn match_stack(&self, expected_stack: &Vec<HIRType>, span: Span, additional_spans: Vec<Span>) -> (r:
        Result<(), CompileError>)
        ensures
            r is Ok <==> types_view(self.stack@) == types_view(expected_stack@),
            r matches Err(e) ==> is_stack_error(e),
    {
        if !same_types(&self.stack, expected_stack) {
            return Err(
                CompileError::InvalidStack {
                    label: String::from_str("stack mismatch"),
                    span,
                    additional_spans,
                    expected_stack: format_stack(self.hir_ctx, expected_stack),
                    actual_stack: format_stack(self.hir_ctx, &self.stack),
                },
            );
        }
        Ok(())
    }
}

} // verus!
