//! The syntax tree of a module, and the tokens each node is written with.
use vstd::prelude::*;

use crate::common::{DottedPath, Spanned};
use crate::stages::parse::lexer::TokenView;
use crate::text::{all_digits, decimal_value};

verus! {

/// All modules of a program; the first one is the entrypoint's.
#[derive(Debug)]
pub struct ASTProgram {
    pub modules: Vec<ASTModule>,
}

#[derive(Debug)]
pub struct ASTModule {
    pub name: Spanned<DottedPath>,
    pub imports: Vec<Spanned<ASTImport>>,
    pub structs: Vec<Spanned<ASTStruct>>,
    pub words: Vec<Spanned<ASTWord>>,
}

#[derive(Debug)]
pub struct ASTImport {
    pub name: DottedPath,
    pub attributes: Vec<Spanned<ASTAttribute>>,
}

#[derive(Debug)]
pub struct ASTStruct {
    pub name: Spanned<String>,
    pub fields: Vec<Spanned<ASTStackEffectItem>>,
}

/// A generic parameter of a word: a type variable or a stack variable.
#[derive(Debug)]
pub enum ASTWordVar {
    Type { name: Spanned<String> },
    Stack { name: Spanned<String> },
}

#[derive(Debug)]
pub struct ASTWord {
    pub name: Spanned<String>,
    pub body: Vec<Spanned<ASTInstruction>>,
    pub word_vars: Vec<ASTWordVar>,
    pub stack_effect: Spanned<ASTStackEffect>,
    pub attributes: Vec<Spanned<ASTAttribute>>,
}

/// `#[name]` or `#[name = "value"]`.
#[derive(Debug)]
pub struct ASTAttribute {
    pub name: String,
    pub value: Option<String>,
}

/// `inputs -- outputs`.
#[derive(Debug)]
pub struct ASTStackEffect {
    pub stack_in: Vec<Spanned<ASTStackEffectItem>>,
    pub stack_out: Vec<Spanned<ASTStackEffectItem>>,
}

#[derive(Debug)]
pub enum ASTStackEffectItem {
    /// A type named by a (possibly qualified) path.
    Symbol { name: DottedPath },
    /// `...Name`
    StackVar { name: String },
    /// `|inputs -- outputs|`
    Lambda { stack_effect: Spanned<ASTStackEffect> },
    /// `[element; size]`
    Array { element: Box<Spanned<ASTStackEffectItem>>, size: usize },
}

#[derive(Debug)]
pub enum ASTLiteral {
    Bool(bool),
    String(String),
    U8(u8),
    U16(u16),
}

#[derive(Debug)]
pub enum ASTInstruction {
    Literal(ASTLiteral),
    /// A word call or a struct field access such as `Pair.0`.
    Call(DottedPath),
    /// `>Name`
    Pack(DottedPath),
    /// `Name<`
    PackPostfix(DottedPath),
    /// `Name>`
    Unpack(DottedPath),
    /// `|inputs -- outputs| { body }`
    Lambda { stack_effect: Spanned<ASTStackEffect>, body: Vec<Spanned<Self>> },
}

/// `a.b.c` as tokens.
pub open spec fn render_path(p: Seq<Seq<char>>) -> Seq<TokenView>
    decreases p.len(),
{
    if p.len() == 0 {
        Seq::empty()
    } else if p.len() == 1 {
        seq![TokenView::Ident(p[0])]
    } else {
        render_path(p.drop_last()) + seq![TokenView::Dot, TokenView::Ident(p.last())]
    }
}

/// One segment of a call path: a name, or a field number.
pub open spec fn render_segment(s: Seq<char>) -> TokenView {
    if all_digits(s) && decimal_value(s) <= usize::MAX {
        TokenView::LiteralNumber(decimal_value(s) as usize)
    } else {
        TokenView::Ident(s)
    }
}

/// A call path as tokens; segments after the first may be field numbers.
pub open spec fn render_call(p: Seq<Seq<char>>) -> Seq<TokenView>
    decreases p.len(),
{
    if p.len() == 0 {
        Seq::empty()
    } else if p.len() == 1 {
        seq![TokenView::Ident(p[0])]
    } else {
        render_call(p.drop_last()) + seq![TokenView::Dot, render_segment(p.last())]
    }
}

pub open spec fn render_item(item: ASTStackEffectItem) -> Seq<TokenView>
    decreases item,
{
    match item {
        ASTStackEffectItem::Symbol { name } => render_path(name@),
        ASTStackEffectItem::StackVar { name } => seq![TokenView::Ellipsis, TokenView::Ident(name@)],
        ASTStackEffectItem::Lambda { stack_effect } => seq![TokenView::Pipe] + render_items(
            stack_effect.value.stack_in@,
        ) + seq![TokenView::MinusMinus] + render_items(stack_effect.value.stack_out@) + seq![
            TokenView::Pipe,
        ],
        ASTStackEffectItem::Array { element, size } => seq![TokenView::LeftSquareBracket]
            + render_item(element.value) + seq![
            TokenView::Semicolon,
            TokenView::LiteralNumber(size),
            TokenView::RightSquareBracket,
        ],
    }
}

/// Items separated by commas.
pub open spec fn render_items(items: Seq<Spanned<ASTStackEffectItem>>) -> Seq<TokenView>
    decreases items,
{
    if items.len() == 0 {
        Seq::empty()
    } else if items.len() == 1 {
        render_item(items[0].value)
    } else {
        render_items(items.drop_last()) + seq![TokenView::Comma] + render_item(items.last().value)
    }
}

pub open spec fn render_effect(e: ASTStackEffect) -> Seq<TokenView> {
    render_items(e.stack_in@) + seq![TokenView::MinusMinus] + render_items(e.stack_out@)
}

pub open spec fn render_literal(l: ASTLiteral) -> TokenView {
    match l {
        ASTLiteral::Bool(b) => TokenView::LiteralBool(b),
        ASTLiteral::String(s) => TokenView::LiteralString(s@),
        ASTLiteral::U8(v) => TokenView::LiteralU8(v),
        ASTLiteral::U16(v) => TokenView::LiteralU16(v),
    }
}

pub open spec fn render_instruction(i: ASTInstruction) -> Seq<TokenView>
    decreases i,
{
    match i {
        ASTInstruction::Literal(l) => seq![render_literal(l)],
        ASTInstruction::Call(p) => render_call(p@),
        ASTInstruction::Pack(p) => seq![TokenView::GreaterThan] + render_path(p@),
        ASTInstruction::PackPostfix(p) => render_path(p@) + seq![TokenView::LessThan],
        ASTInstruction::Unpack(p) => render_path(p@) + seq![TokenView::GreaterThan],
        ASTInstruction::Lambda { stack_effect, body } => seq![TokenView::Pipe] + render_effect(
            stack_effect.value,
        ) + seq![TokenView::Pipe, TokenView::LeftBrace] + render_body(body@) + seq![
            TokenView::RightBrace,
        ],
    }
}

/// Instructions one after another.
pub open spec fn render_body(body: Seq<Spanned<ASTInstruction>>) -> Seq<TokenView>
    decreases body,
{
    if body.len() == 0 {
        Seq::empty()
    } else {
        render_body(body.drop_last()) + render_instruction(body.last().value)
    }
}

pub open spec fn render_attribute(a: ASTAttribute) -> Seq<TokenView> {
    seq![TokenView::Hash, TokenView::LeftSquareBracket, TokenView::Ident(a.name@)] + match a.value {
        Some(v) => seq![TokenView::Equal, TokenView::LiteralString(v@)],
        None => Seq::empty(),
    } + seq![TokenView::RightSquareBracket]
}

pub open spec fn render_attributes(attrs: Seq<Spanned<ASTAttribute>>) -> Seq<TokenView>
    decreases attrs.len(),
{
    if attrs.len() == 0 {
        Seq::empty()
    } else {
        render_attributes(attrs.drop_last()) + render_attribute(attrs.last().value)
    }
}

pub open spec fn render_word_var(v: ASTWordVar) -> Seq<TokenView> {
    match v {
        ASTWordVar::Type { name } => seq![TokenView::Ident(name.value@)],
        ASTWordVar::Stack { name } => seq![TokenView::Ellipsis, TokenView::Ident(name.value@)],
    }
}

/// Word variables separated by commas.
pub open spec fn render_word_vars(vars: Seq<ASTWordVar>) -> Seq<TokenView>
    decreases vars.len(),
{
    if vars.len() == 0 {
        Seq::empty()
    } else if vars.len() == 1 {
        render_word_var(vars[0])
    } else {
        render_word_vars(vars.drop_last()) + seq![TokenView::Comma] + render_word_var(vars.last())
    }
}

pub open spec fn render_word(w: ASTWord) -> Seq<TokenView> {
    render_attributes(w.attributes@) + seq![TokenView::KeywordDef, TokenView::Ident(w.name.value@)]
        + (if w.word_vars@.len() == 0 {
        Seq::empty()
    } else {
        seq![TokenView::LessThan] + render_word_vars(w.word_vars@) + seq![TokenView::GreaterThan]
    }) + seq![TokenView::LeftParenthesis] + render_effect(w.stack_effect.value) + seq![
        TokenView::RightParenthesis,
    ] + render_body(w.body@) + seq![TokenView::KeywordEnd]
}

pub open spec fn render_struct(s: ASTStruct) -> Seq<TokenView> {
    seq![TokenView::KeywordStruct, TokenView::Ident(s.name.value@), TokenView::LeftParenthesis]
        + render_items(s.fields@) + seq![TokenView::RightParenthesis, TokenView::Semicolon]
}

pub open spec fn render_import(i: ASTImport) -> Seq<TokenView> {
    render_attributes(i.attributes@) + seq![TokenView::KeywordImport] + render_path(i.name@) + seq![
        TokenView::Semicolon,
    ]
}

pub open spec fn render_imports(v: Seq<Spanned<ASTImport>>) -> Seq<TokenView>
    decreases v.len(),
{
    if v.len() == 0 {
        Seq::empty()
    } else {
        render_imports(v.drop_last()) + render_import(v.last().value)
    }
}

pub open spec fn render_structs(v: Seq<Spanned<ASTStruct>>) -> Seq<TokenView>
    decreases v.len(),
{
    if v.len() == 0 {
        Seq::empty()
    } else {
        render_structs(v.drop_last()) + render_struct(v.last().value)
    }
}

pub open spec fn render_words(v: Seq<Spanned<ASTWord>>) -> Seq<TokenView>
    decreases v.len(),
{
    if v.len() == 0 {
        Seq::empty()
    } else {
        render_words(v.drop_last()) + render_word(v.last().value)
    }
}

/// The tokens a module is written with.
pub open spec fn render_module(m: ASTModule) -> Seq<TokenView> {
    render_imports(m.imports@) + seq![TokenView::KeywordModule] + render_path(m.name.value@)
        + seq![TokenView::Semicolon] + render_structs(m.structs@) + render_words(m.words@)
}

} // verus!
