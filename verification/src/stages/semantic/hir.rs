//! The high-level intermediate representation: the program with every name
//! resolved to a symbol.
use vstd::prelude::*;

use crate::common::{Span, Spanned};
use crate::stages::semantic::context::SymbolId;

verus! {

#[derive(Debug)]
pub struct HIRProgram {
    pub modules: Vec<HIRModule>,
}

#[derive(Debug)]
pub struct HIRModule {
    pub id: SymbolId,
    pub imports: Vec<Spanned<SymbolId>>,
    pub structs: Vec<HIRStruct>,
    pub words: Vec<Spanned<HIRWord>>,
}

#[derive(Debug)]
pub struct HIRStruct {
    pub id: SymbolId,
    pub name: Spanned<String>,
    pub fields: Vec<Spanned<HIRType>>,
}

#[derive(Debug)]
pub struct HIRWordSignature {
    pub name: Spanned<String>,
    pub stack_effect_span: Span,
    pub stack_in: Vec<Spanned<HIRType>>,
    pub stack_out: Vec<Spanned<HIRType>>,
    pub type_vars: Vec<Spanned<SymbolId>>,
    pub stack_vars: Vec<Spanned<SymbolId>>,
}

#[derive(Debug, PartialEq, Eq, Structural, Clone, Copy)]
pub enum HIRWordAttribute {
    BuiltIn,
}

#[derive(Debug)]
pub struct HIRWord {
    pub id: SymbolId,
    pub signature: HIRWordSignature,
    pub body: Vec<Spanned<HIRInstruction>>,
    pub attributes: Vec<HIRWordAttribute>,
    pub entrypoint: bool,
    /// Type variables bound at the calls of the body, by symbol.
    pub substitutions: Vec<(SymbolId, SymbolId)>,
}

/// A type as the checker sees it.
#[derive(Debug)]
pub enum HIRType {
    BuiltIn(SymbolId),
    Struct(SymbolId),
    TypeVar(SymbolId),
    StackVar(SymbolId),
    Lambda { stack_in: Vec<HIRType>, stack_out: Vec<HIRType> },
    /// `[element; size]`
    Array { element: Box<HIRType>, size: usize },
}

#[derive(Debug)]
pub enum HIRLiteral {
    Bool(bool),
    U8(u8),
    U16(u16),
    String(String),
}

#[derive(Debug)]
pub enum HIRInstruction {
    /// A call of a word; `type_args` are the types its type variables are
    /// bound to, once the body is checked.
    Call { name: String, symbol_id: SymbolId, type_args: Vec<HIRType> },
    Literal(HIRLiteral),
    Pack { name: String, struct_id: SymbolId },
    Unpack { name: String, struct_id: SymbolId },
    GetField { name: String, struct_id: SymbolId, field_index: usize },
    Lambda { stack_in: Vec<HIRType>, stack_out: Vec<HIRType>, body: Vec<Spanned<HIRInstruction>> },
}

/// A type as a mathematical value: lists of types are sequences.
pub enum TypeView {
    BuiltIn(SymbolId),
    Struct(SymbolId),
    TypeVar(SymbolId),
    StackVar(SymbolId),
    Lambda { stack_in: Seq<TypeView>, stack_out: Seq<TypeView> },
    Array { element: Box<TypeView>, size: usize },
}

pub open spec fn type_view(t: HIRType) -> TypeView
    decreases t,
{
    match t {
        HIRType::BuiltIn(id) => TypeView::BuiltIn(id),
        HIRType::Struct(id) => TypeView::Struct(id),
        HIRType::TypeVar(id) => TypeView::TypeVar(id),
        HIRType::StackVar(id) => TypeView::StackVar(id),
        HIRType::Lambda { stack_in, stack_out } => TypeView::Lambda {
            stack_in: types_view(stack_in@),
            stack_out: types_view(stack_out@),
        },
        HIRType::Array { element, size } => TypeView::Array {
            element: Box::new(type_view(*element)),
            size,
        },
    }
}

pub open spec fn types_view(ts: Seq<HIRType>) -> Seq<TypeView>
    decreases ts,
{
    if ts.len() == 0 {
        Seq::empty()
    } else {
        types_view(ts.drop_last()).push(type_view(ts.last()))
    }
}

pub proof fn lemma_types_view(ts: Seq<HIRType>)
    ensures
        types_view(ts).len() == ts.len(),
        forall|i: int| 0 <= i < ts.len() ==> #[trigger] types_view(ts)[i] == type_view(ts[i]),
    decreases ts.len(),
{
    if ts.len() > 0 {
        lemma_types_view(ts.drop_last());
        assert forall|i: int| 0 <= i < ts.len() implies #[trigger] types_view(ts)[i] == type_view(
            ts[i],
        ) by {
            if i < ts.len() - 1 {
                assert(ts.drop_last()[i] == ts[i]);
            }
        }
    }
}

/// Whether two types are the same.
pub fn same_type(a: &HIRType, b: &HIRType) -> (r: bool)
    ensures
        r == (type_view(*a) == type_view(*b)),
    decreases a,
{
    match (a, b) {
        (HIRType::BuiltIn(x), HIRType::BuiltIn(y)) => x.0 == y.0,
        (HIRType::Struct(x), HIRType::Struct(y)) => x.0 == y.0,
        (HIRType::TypeVar(x), HIRType::TypeVar(y)) => x.0 == y.0,
        (HIRType::StackVar(x), HIRType::StackVar(y)) => x.0 == y.0,
        (
            HIRType::Lambda { stack_in: ai, stack_out: ao },
            HIRType::Lambda { stack_in: bi, stack_out: bo },
        ) => same_types(ai, bi) && same_types(ao, bo),
        (HIRType::Array { element: ae, size: asz }, HIRType::Array { element: be, size: bsz }) => {
            *asz == *bsz && same_type(ae, be)
        },
        _ => false,
    }
}

/// Whether two lists of types are the same.
pub fn same_types(a: &Vec<HIRType>, b: &Vec<HIRType>) -> (r: bool)
    ensures
        r == (types_view(a@) == types_view(b@)),
    decreases a@,
{
    proof {
        lemma_types_view(a@);
        lemma_types_view(b@);
    }
    if a.len() != b.len() {
        return false;
    }
    let mut i: usize = 0;
    while i < a.len()
        invariant
            a@.len() == b@.len(),
            i <= a@.len(),
            types_view(a@).len() == a@.len(),
            types_view(b@).len() == b@.len(),
            forall|j: int| 0 <= j < a@.len() ==> #[trigger] types_view(a@)[j] == type_view(a@[j]),
            forall|j: int| 0 <= j < b@.len() ==> #[trigger] types_view(b@)[j] == type_view(b@[j]),
            forall|j: int| 0 <= j < i ==> type_view(#[trigger] a@[j]) == type_view(b@[j]),
        decreases a@.len() - i,
    {
        if !same_type(&a[i], &b[i]) {
            assert(types_view(a@)[i as int] != types_view(b@)[i as int]);
            return false;
        }
        i += 1;
    }
    assert(types_view(a@) =~= types_view(b@)) by {
        assert forall|j: int| 0 <= j < a@.len() implies types_view(a@)[j] == types_view(b@)[j] by {
            assert(type_view(a@[j]) == type_view(b@[j]));
        }
    }
    true
}

/// The view of a list of types is taken element by element.
pub proof fn lemma_types_view_ext(ts: Seq<HIRType>, vs: Seq<TypeView>)
    requires
        vs.len() == ts.len(),
        forall|i: int| 0 <= i < ts.len() ==> vs[i] == type_view(#[trigger] ts[i]),
    ensures
        types_view(ts) == vs,
{
    lemma_types_view(ts);
    assert(types_view(ts) =~= vs);
}

pub proof fn lemma_types_view_push(ts: Seq<HIRType>, t: HIRType)
    ensures
        types_view(ts.push(t)) == types_view(ts).push(type_view(t)),
{
    assert(ts.push(t).drop_last() =~= ts);
}

pub proof fn lemma_types_view_add(a: Seq<HIRType>, b: Seq<HIRType>)
    ensures
        types_view(a + b) == types_view(a) + types_view(b),
{
    lemma_types_view(a);
    lemma_types_view(b);
    lemma_types_view_ext(a + b, types_view(a) + types_view(b));
}

pub proof fn lemma_types_view_subrange(ts: Seq<HIRType>, a: int, b: int)
    requires
        0 <= a <= b <= ts.len(),
    ensures
        types_view(ts.subrange(a, b)) == types_view(ts).subrange(a, b),
{
    lemma_types_view(ts);
    lemma_types_view_ext(ts.subrange(a, b), types_view(ts).subrange(a, b));
}

/// A copy of a type.
pub fn copy_type(t: &HIRType) -> (r: HIRType)
    ensures
        type_view(r) == type_view(*t),
    decreases t,
{
    match t {
        HIRType::BuiltIn(id) => HIRType::BuiltIn(*id),
        HIRType::Struct(id) => HIRType::Struct(*id),
        HIRType::TypeVar(id) => HIRType::TypeVar(*id),
        HIRType::StackVar(id) => HIRType::StackVar(*id),
        HIRType::Lambda { stack_in, stack_out } => HIRType::Lambda {
            stack_in: copy_types(stack_in),
            stack_out: copy_types(stack_out),
        },
        HIRType::Array { element, size } => HIRType::Array {
            element: Box::new(copy_type(element)),
            size: *size,
        },
    }
}

/// A copy of a list of types.
pub fn copy_types(ts: &Vec<HIRType>) -> (r: Vec<HIRType>)
    ensures
        types_view(r@) == types_view(ts@),
        r@.len() == ts@.len(),
    decreases ts@,
{
    let mut copied: Vec<HIRType> = Vec::new();
    let mut i: usize = 0;
    while i < ts.len()
        invariant
            i <= ts@.len(),
            copied@.len() == i,
            forall|j: int| 0 <= j < i ==> type_view(#[trigger] copied@[j]) == type_view(ts@[j]),
        decreases ts@.len() - i,
    {
        copied.push(copy_type(&ts[i]));
        i += 1;
    }
    proof {
        lemma_types_view(ts@);
        lemma_types_view_ext(copied@, types_view(ts@));
    }
    copied
}

/// The types of typed stack items.
pub open spec fn spanned_view(v: Seq<Spanned<HIRType>>) -> Seq<TypeView>
    decreases v.len(),
{
    if v.len() == 0 {
        Seq::empty()
    } else {
        spanned_view(v.drop_last()).push(type_view(v.last().value))
    }
}

pub proof fn lemma_spanned_view(v: Seq<Spanned<HIRType>>)
    ensures
        spanned_view(v).len() == v.len(),
        forall|i: int| 0 <= i < v.len() ==> #[trigger] spanned_view(v)[i] == type_view(v[i].value),
    decreases v.len(),
{
    if v.len() > 0 {
        lemma_spanned_view(v.drop_last());
        assert forall|i: int| 0 <= i < v.len() implies #[trigger] spanned_view(v)[i] == type_view(
            v[i].value,
        ) by {
            if i < v.len() - 1 {
                assert(v.drop_last()[i] == v[i]);
            }
        }
    }
}

/// The types of typed stack items, without their spans.
pub fn spanned_values(v: &Vec<Spanned<HIRType>>) -> (r: Vec<HIRType>)
    ensures
        types_view(r@) == spanned_view(v@),
{
    let mut r: Vec<HIRType> = Vec::new();
    let mut i: usize = 0;
    while i < v.len()
        invariant
            i <= v@.len(),
            r@.len() == i,
            forall|j: int| 0 <= j < i ==> type_view(#[trigger] r@[j]) == type_view(v@[j].value),
        decreases v@.len() - i,
    {
        r.push(copy_type(&v[i].value));
        i += 1;
    }
    proof {
        lemma_spanned_view(v@);
        lemma_types_view_ext(r@, spanned_view(v@));
    }
    r
}

} // verus!
