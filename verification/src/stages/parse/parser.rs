//! The parser: turns the tokens of one source into the syntax tree of a
//! module.
//!
//! The grammar, in the order the parser tries the alternatives:
//!
//! ```text
//! module      := import* 'module' path ';' struct* word* <end of input>
//! import      := attribute* 'import' path ';'
//! struct      := 'struct' Ident '(' item (',' item)* ')' ';'
//! word        := attribute* 'def' Ident ('<' var (',' var)* '>')? '(' effect ')' instr* 'end'
//! var         := Ident | '...' Ident
//! attribute   := '#' '[' Ident ('=' String)? ']'
//! effect      := items '--' items
//! items       := (item (',' item)*)?
//! item        := '...' Ident | path | '|' effect '|' | '[' item ';' Number ']'
//! instr       := '|' effect '|' '{' instr* '}' | literal | '>' path
//!              | path '>' | path '<' | Ident ('.' (Ident | Number))*
//! path        := Ident ('.' Ident)*
//! ```
use vstd::prelude::*;

use crate::common::{DottedPath, SourceId, Span, Spanned};
use crate::error::CompileError;
use crate::stages::parse::ast::{
    ASTAttribute, ASTImport, ASTInstruction, ASTLiteral, ASTModule, ASTStackEffect, ASTStackEffectItem,
    ASTStruct, ASTWord, ASTWordVar, render_attribute, render_attributes, render_body, render_call,
    render_effect, render_import, render_imports, render_instruction, render_item, render_items,
    render_literal, render_module, render_path, render_segment, render_struct, render_structs,
    render_word, render_word_var, render_word_vars, render_words,
};
use crate::stages::parse::grammar::{
    at, attrs_fit, body_fits, call_ends, call_shape, effect_fits, instr_fits, item_fits, items_fit, lemma_at_index,
    lemma_at_one, lemma_at_split, lemma_attrs_first, lemma_body_step, lemma_call_shape, lemma_call_unique, lemma_ident_instr,
    lemma_instr_head, lemma_item_head, lemma_items_step, lemma_items_take, lemma_items_wf_index,
    lemma_path_shape, lemma_path_unique, no_item_at, path_ends, path_shape, starts_instr, starts_item,
    token_is, vars_fit, lemma_vars_step, lemma_vars_take, word_fits, word_vars_tokens, lemma_word_parts,
    import_fits, imports_rest, lemma_import_parts, lemma_imports_first, lemma_module_parts, lemma_struct_parts,
    lemma_structs_first, lemma_word_head, lemma_words_first, lemma_words_start, module_fits, struct_fits,
    structs_rest, words_rest,
};
use crate::stages::parse::lexer::{TokenKind, TokenView, classify, is_ident_lexeme, tokens_match};
use crate::text::{
    all_digits, copy_string, decimal_chars, decimal_value, lemma_decimal_roundtrip, lemma_views_push,
    string_views, usize_to_string,
};

verus! {

/// What the parser reads: the tokens of one source.
pub struct ParserInput {
    pub tokens: Vec<(TokenKind, Span)>,
    pub source_id: SourceId,
    /// The length of the source, where errors at the end of input point.
    pub content_len: usize,
}

pub struct ParseResult {
    pub ast: ASTModule,
}

/// The kinds of the tokens, as views.
pub open spec fn token_kinds(tokens: Seq<(TokenKind, Span)>) -> Seq<TokenView> {
    tokens.map_values(|t: (TokenKind, Span)| t.0@)
}

/// No name token is written with digits only, as the lexer guarantees.
pub open spec fn names_not_numeric(ks: Seq<TokenView>) -> bool {
    forall|i: int| 0 <= i < ks.len() ==> (#[trigger] ks[i] matches TokenView::Ident(s) ==> !all_digits(s))
}

/// The kind of a token, without its data; `Eof` past the last token.
#[derive(PartialEq, Eq, Structural, Clone, Copy)]
pub enum TokenTag {
    Ident,
    Literal,
    Number,
    KeywordImport,
    KeywordModule,
    KeywordDef,
    KeywordStruct,
    KeywordEnd,
    Hash,
    Plus,
    Semicolon,
    LeftParenthesis,
    RightParenthesis,
    MinusMinus,
    Dot,
    Comma,
    LeftSquareBracket,
    RightSquareBracket,
    LessThan,
    GreaterThan,
    LeftBrace,
    RightBrace,
    Ellipsis,
    Colon,
    Pipe,
    Equal,
    Eof,
}

pub open spec fn tag_of(v: TokenView) -> TokenTag {
    match v {
        TokenView::Ident(_) => TokenTag::Ident,
        TokenView::LiteralU8(_) => TokenTag::Literal,
        TokenView::LiteralU16(_) => TokenTag::Literal,
        TokenView::LiteralNumber(_) => TokenTag::Number,
        TokenView::LiteralString(_) => TokenTag::Literal,
        TokenView::LiteralBool(_) => TokenTag::Literal,
        TokenView::KeywordImport => TokenTag::KeywordImport,
        TokenView::KeywordModule => TokenTag::KeywordModule,
        TokenView::KeywordDef => TokenTag::KeywordDef,
        TokenView::KeywordStruct => TokenTag::KeywordStruct,
        TokenView::KeywordEnd => TokenTag::KeywordEnd,
        TokenView::Hash => TokenTag::Hash,
        TokenView::Plus => TokenTag::Plus,
        TokenView::Semicolon => TokenTag::Semicolon,
        TokenView::LeftParenthesis => TokenTag::LeftParenthesis,
        TokenView::RightParenthesis => TokenTag::RightParenthesis,
        TokenView::MinusMinus => TokenTag::MinusMinus,
        TokenView::Dot => TokenTag::Dot,
        TokenView::Comma => TokenTag::Comma,
        TokenView::LeftSquareBracket => TokenTag::LeftSquareBracket,
        TokenView::RightSquareBracket => TokenTag::RightSquareBracket,
        TokenView::LessThan => TokenTag::LessThan,
        TokenView::GreaterThan => TokenTag::GreaterThan,
        TokenView::LeftBrace => TokenTag::LeftBrace,
        TokenView::RightBrace => TokenTag::RightBrace,
        TokenView::Ellipsis => TokenTag::Ellipsis,
        TokenView::Colon => TokenTag::Colon,
        TokenView::Pipe => TokenTag::Pipe,
        TokenView::Equal => TokenTag::Equal,
    }
}

pub open spec fn tag_at_spec(ks: Seq<TokenView>, p: int) -> TokenTag {
    if 0 <= p < ks.len() {
        tag_of(ks[p])
    } else {
        TokenTag::Eof
    }
}

/// A token that can stand alone (everything but names, numbers and literals).
pub open spec fn plain_token(t: TokenTag) -> TokenView {
    match t {
        TokenTag::KeywordImport => TokenView::KeywordImport,
        TokenTag::KeywordModule => TokenView::KeywordModule,
        TokenTag::KeywordDef => TokenView::KeywordDef,
        TokenTag::KeywordStruct => TokenView::KeywordStruct,
        TokenTag::KeywordEnd => TokenView::KeywordEnd,
        TokenTag::Hash => TokenView::Hash,
        TokenTag::Plus => TokenView::Plus,
        TokenTag::Semicolon => TokenView::Semicolon,
        TokenTag::LeftParenthesis => TokenView::LeftParenthesis,
        TokenTag::RightParenthesis => TokenView::RightParenthesis,
        TokenTag::MinusMinus => TokenView::MinusMinus,
        TokenTag::Dot => TokenView::Dot,
        TokenTag::Comma => TokenView::Comma,
        TokenTag::LeftSquareBracket => TokenView::LeftSquareBracket,
        TokenTag::RightSquareBracket => TokenView::RightSquareBracket,
        TokenTag::LessThan => TokenView::LessThan,
        TokenTag::GreaterThan => TokenView::GreaterThan,
        TokenTag::LeftBrace => TokenView::LeftBrace,
        TokenTag::RightBrace => TokenView::RightBrace,
        TokenTag::Ellipsis => TokenView::Ellipsis,
        TokenTag::Colon => TokenView::Colon,
        TokenTag::Pipe => TokenView::Pipe,
        _ => TokenView::Equal,
    }
}

pub open spec fn is_plain(t: TokenTag) -> bool {
    t != TokenTag::Ident && t != TokenTag::Literal && t != TokenTag::Number && t != TokenTag::Eof
}

proof fn lemma_plain(v: TokenView)
    requires
        is_plain(tag_of(v)),
    ensures
        plain_token(tag_of(v)) == v,
{
}

/// A parsed value and the position after it, or the error.
pub type PResult<T> = Result<(T, usize), CompileError>;

/// The kinds of the parser's tokens.
pub open spec fn kinds(input: &ParserInput) -> Seq<TokenView> {
    token_kinds(input.tokens@)
}

proof fn lemma_kind_at(input: &ParserInput, p: int)
    requires
        0 <= p < input.tokens@.len(),
    ensures
        kinds(input).len() == input.tokens@.len(),
        kinds(input)[p] == input.tokens@[p].0@,
{
}

proof fn lemma_kinds_len(input: &ParserInput)
    ensures
        kinds(input).len() == input.tokens@.len(),
        input.tokens@.len() <= usize::MAX,
{
    assert(input.tokens.len() == input.tokens@.len());
}

proof fn lemma_concat(ks: Seq<TokenView>, a: int, b: int, c: int)
    requires
        0 <= a <= b <= c <= ks.len(),
    ensures
        ks.subrange(a, b) + ks.subrange(b, c) == ks.subrange(a, c),
{
    assert(ks.subrange(a, b) + ks.subrange(b, c) =~= ks.subrange(a, c));
}

proof fn lemma_one(ks: Seq<TokenView>, a: int)
    requires
        0 <= a < ks.len(),
    ensures
        ks.subrange(a, a + 1) == seq![ks[a]],
{
    assert(ks.subrange(a, a + 1) =~= seq![ks[a]]);
}

fn tag_at(input: &ParserInput, p: usize) -> (r: TokenTag)
    ensures
        r == tag_at_spec(kinds(input), p as int),
        kinds(input).len() == input.tokens@.len(),
{
    if p < input.tokens.len() {
        proof {
            lemma_kind_at(input, p as int);
        }
        match &input.tokens[p].0 {
            TokenKind::Ident(_) => TokenTag::Ident,
            TokenKind::LiteralU8(_) => TokenTag::Literal,
            TokenKind::LiteralU16(_) => TokenTag::Literal,
            TokenKind::LiteralNumber(_) => TokenTag::Number,
            TokenKind::LiteralString(_) => TokenTag::Literal,
            TokenKind::LiteralBool(_) => TokenTag::Literal,
            TokenKind::KeywordImport => TokenTag::KeywordImport,
            TokenKind::KeywordModule => TokenTag::KeywordModule,
            TokenKind::KeywordDef => TokenTag::KeywordDef,
            TokenKind::KeywordStruct => TokenTag::KeywordStruct,
            TokenKind::KeywordEnd => TokenTag::KeywordEnd,
            TokenKind::Hash => TokenTag::Hash,
            TokenKind::Plus => TokenTag::Plus,
            TokenKind::Semicolon => TokenTag::Semicolon,
            TokenKind::LeftParenthesis => TokenTag::LeftParenthesis,
            TokenKind::RightParenthesis => TokenTag::RightParenthesis,
            TokenKind::MinusMinus => TokenTag::MinusMinus,
            TokenKind::Dot => TokenTag::Dot,
            TokenKind::Comma => TokenTag::Comma,
            TokenKind::LeftSquareBracket => TokenTag::LeftSquareBracket,
            TokenKind::RightSquareBracket => TokenTag::RightSquareBracket,
            TokenKind::LessThan => TokenTag::LessThan,
            TokenKind::GreaterThan => TokenTag::GreaterThan,
            TokenKind::LeftBrace => TokenTag::LeftBrace,
            TokenKind::RightBrace => TokenTag::RightBrace,
            TokenKind::Ellipsis => TokenTag::Ellipsis,
            TokenKind::Colon => TokenTag::Colon,
            TokenKind::Pipe => TokenTag::Pipe,
            TokenKind::Equal => TokenTag::Equal,
        }
    } else {
        TokenTag::Eof
    }
}

fn ident_at(input: &ParserInput, p: usize) -> (r: Option<String>)
    ensures
        kinds(input).len() == input.tokens@.len(),
        r matches Some(s) ==> p < kinds(input).len() && kinds(input)[p as int]
            == TokenView::Ident(s@),
        r is None ==> tag_at_spec(kinds(input), p as int) != TokenTag::Ident,
{
    proof {
        lemma_kinds_len(input);
    }
    if p < input.tokens.len() {
        proof {
            lemma_kind_at(input, p as int);
        }
        match &input.tokens[p].0 {
            TokenKind::Ident(s) => Some(copy_string(s)),
            _ => None,
        }
    } else {
        None
    }
}

fn number_at(input: &ParserInput, p: usize) -> (r: Option<usize>)
    ensures
        kinds(input).len() == input.tokens@.len(),
        r matches Some(v) ==> p < kinds(input).len() && kinds(input)[p as int]
            == TokenView::LiteralNumber(v),
        r is None ==> tag_at_spec(kinds(input), p as int) != TokenTag::Number,
{
    proof {
        lemma_kinds_len(input);
    }
    if p < input.tokens.len() {
        proof {
            lemma_kind_at(input, p as int);
        }
        match &input.tokens[p].0 {
            TokenKind::LiteralNumber(v) => Some(*v),
            _ => None,
        }
    } else {
        None
    }
}

fn string_at(input: &ParserInput, p: usize) -> (r: Option<String>)
    ensures
        kinds(input).len() == input.tokens@.len(),
        r matches Some(s) ==> p < kinds(input).len() && kinds(input)[p as int]
            == TokenView::LiteralString(s@),
        r is None ==> !(p < kinds(input).len() && kinds(input)[p as int] is LiteralString),
{
    proof {
        lemma_kinds_len(input);
    }
    if p < input.tokens.len() {
        proof {
            lemma_kind_at(input, p as int);
        }
        match &input.tokens[p].0 {
            TokenKind::LiteralString(s) => Some(copy_string(s)),
            _ => None,
        }
    } else {
        None
    }
}

fn literal_at(input: &ParserInput, p: usize) -> (r: Option<ASTLiteral>)
    ensures
        kinds(input).len() == input.tokens@.len(),
        r matches Some(l) ==> p < kinds(input).len() && kinds(input)[p as int] == render_literal(
            l,
        ),
        r is None ==> tag_at_spec(kinds(input), p as int) != TokenTag::Literal,
{
    proof {
        lemma_kinds_len(input);
    }
    if p < input.tokens.len() {
        proof {
            lemma_kind_at(input, p as int);
        }
        match &input.tokens[p].0 {
            TokenKind::LiteralBool(b) => Some(ASTLiteral::Bool(*b)),
            TokenKind::LiteralString(s) => Some(ASTLiteral::String(copy_string(s))),
            TokenKind::LiteralU8(v) => Some(ASTLiteral::U8(*v)),
            TokenKind::LiteralU16(v) => Some(ASTLiteral::U16(*v)),
            _ => None,
        }
    } else {
        None
    }
}

/// The span of tokens `[a, b)`; at the end of input, the empty span there.
fn span_of(input: &ParserInput, a: usize, b: usize) -> (r: Span)
    ensures
        r.source_id == input.source_id,
{
    if a < b && b <= input.tokens.len() {
        Span {
            source_id: input.source_id,
            start: input.tokens[a].1.start,
            end: input.tokens[b - 1].1.end,
        }
    } else if a < input.tokens.len() {
        Span { source_id: input.source_id, start: input.tokens[a].1.start, end: input.tokens[a].1.end }
    } else {
        Span { source_id: input.source_id, start: input.content_len, end: input.content_len }
    }
}

/// A parse error at token `p` with one label.
fn error_at(input: &ParserInput, p: usize, label: &str) -> (r: CompileError)
    ensures
        r matches CompileError::ParseError { span, .. } && span.source_id == input.source_id,
{
    let mut labels: Vec<String> = Vec::new();
    labels.push(String::from_str(label));
    CompileError::ParseError { label: labels, span: span_of(input, p, p) }
}

/// Consumes one token of kind `t`.
fn expect(input: &ParserInput, p: usize, t: TokenTag, label: &str) -> (r: Result<usize, CompileError>)
    requires
        is_plain(t),
    ensures
        r matches Ok(q) ==> q == p + 1 && q <= kinds(input).len() && kinds(input).subrange(
            p as int,
            q as int,
        ) == seq![plain_token(t)],
        r is Ok <==> tag_at_spec(kinds(input), p as int) == t,
        r is Err ==> r->Err_0 is ParseError,
{
    proof {
        lemma_kinds_len(input);
    }
    if tag_at(input, p) == t {
        proof {
            lemma_plain(kinds(input)[p as int]);
            lemma_one(kinds(input), p as int);
        }
        Ok(p + 1)
    } else {
        Err(error_at(input, p, label))
    }
}

/// `Ident ('.' Ident)*`, at a name.
fn parse_path(input: &ParserInput, p: usize) -> (r: PResult<DottedPath>)
    ensures
        r matches Ok((path, q)) ==> p < q <= kinds(input).len() && path@.len() >= 1 && render_path(
            path@,
        ) == kinds(input).subrange(p as int, q as int),
        r matches Ok((path, q)) ==> path_ends(kinds(input), q as int),
        tag_at_spec(kinds(input), p as int) == TokenTag::Ident ==> r is Ok,
        r is Err ==> r->Err_0 is ParseError,
{
    let ghost ks = kinds(input);
    proof {
        lemma_kinds_len(input);
    }
    let first = match ident_at(input, p) {
        Some(s) => s,
        None => {
            return Err(error_at(input, p, "name was expected"));
        },
    };
    let mut segs: Vec<String> = Vec::new();
    segs.push(first);
    let mut q = p + 1;
    proof {
        lemma_one(ks, p as int);
        assert(string_views(segs@) =~= seq![first@]);
    }
    loop
        invariant
            ks == kinds(input),
            ks.len() <= usize::MAX,
            p < q <= ks.len(),
            string_views(segs@).len() >= 1,
            render_path(string_views(segs@)) == ks.subrange(p as int, q as int),
        ensures
            path_ends(ks, q as int),
        decreases ks.len() - q,
    {
        if tag_at(input, q) != TokenTag::Dot {
            break;
        }
        let next = match ident_at(input, q + 1) {
            Some(s) => s,
            None => {
                break;
            },
        };
        let ghost old_segs = string_views(segs@);
        segs.push(next);
        proof {
            lemma_views_push(segs@.drop_last(), next);
            assert(string_views(segs@) =~= old_segs.push(next@));
            assert(string_views(segs@).drop_last() =~= old_segs);
            lemma_plain(ks[q as int]);
            lemma_concat(ks, p as int, q as int, q + 2);
            assert(ks.subrange(q as int, q + 2) =~= seq![TokenView::Dot, TokenView::Ident(next@)]);
        }
        q = q + 2;
    }
    Ok((DottedPath(segs), q))
}

/// `Ident ('.' (Ident | Number))*`, at a name: a word call or a field access.
fn parse_call(input: &ParserInput, p: usize) -> (r: PResult<DottedPath>)
    ensures
        r matches Ok((path, q)) ==> p < q <= kinds(input).len() && path@.len() >= 1 && (
        names_not_numeric(kinds(input)) ==> render_call(path@) == kinds(input).subrange(
            p as int,
            q as int,
        )),
        r matches Ok((path, q)) ==> call_ends(kinds(input), q as int) && call_shape(
            kinds(input),
            p as int,
            path@.len() as int,
        ) && q == p + 2 * path@.len() - 1,
        tag_at_spec(kinds(input), p as int) == TokenTag::Ident ==> r is Ok,
        r is Err ==> r->Err_0 is ParseError,
{
    let ghost ks = kinds(input);
    proof {
        lemma_kinds_len(input);
    }
    let first = match ident_at(input, p) {
        Some(s) => s,
        None => {
            return Err(error_at(input, p, "name was expected"));
        },
    };
    let mut segs: Vec<String> = Vec::new();
    segs.push(first);
    let mut q = p + 1;
    proof {
        lemma_one(ks, p as int);
        assert(string_views(segs@) =~= seq![first@]);
    }
    loop
        invariant
            ks == kinds(input),
            ks.len() <= usize::MAX,
            p < q <= ks.len(),
            string_views(segs@).len() >= 1,
            names_not_numeric(ks) ==> render_call(string_views(segs@)) == ks.subrange(
                p as int,
                q as int,
            ),
            call_shape(ks, p as int, string_views(segs@).len() as int),
            q == p + 2 * string_views(segs@).len() - 1,
        ensures
            call_ends(ks, q as int),
        decreases ks.len() - q,
    {
        if tag_at(input, q) != TokenTag::Dot {
            break;
        }
        let next = match ident_at(input, q + 1) {
            Some(s) => {
                proof {
                    if names_not_numeric(ks) {
                        assert(ks[q + 1] matches TokenView::Ident(_));
                    }
                }
                s
            },
            None => match number_at(input, q + 1) {
                Some(n) => {
                    let t = usize_to_string(n);
                    proof {
                        lemma_decimal_roundtrip(n as nat);
                    }
                    t
                },
                None => {
                    break;
                },
            },
        };
        assert(names_not_numeric(ks) ==> render_segment(next@) == ks[q + 1]);
        let ghost old_segs = string_views(segs@);
        segs.push(next);
        proof {
            lemma_views_push(segs@.drop_last(), next);
            assert(string_views(segs@) =~= old_segs.push(next@));
            assert(string_views(segs@).drop_last() =~= old_segs);
            lemma_plain(ks[q as int]);
            lemma_concat(ks, p as int, q as int, q + 2);
            assert(ks.subrange(q as int, q + 2) =~= seq![TokenView::Dot, ks[q + 1]]);
        }
        q = q + 2;
    }
    Ok((DottedPath(segs), q))
}

/// One item of a stack effect or a struct.
pub fn stack_item_parser(input: &ParserInput, p: usize) -> (r: PResult<ASTStackEffectItem>)
    requires
        p <= input.tokens@.len(),
    ensures
        r matches Ok((item, q)) ==> p < q <= kinds(input).len() && render_item(item)
            == kinds(input).subrange(p as int, q as int),
        forall|x: ASTStackEffectItem| #[trigger]
            item_fits(kinds(input), p as int, x) ==> (r matches Ok((_, q)) && q == p + render_item(x).len()),
        no_item_at(kinds(input), p as int) ==> r is Err,
        r is Err ==> r->Err_0 is ParseError,
    decreases input.tokens@.len() - p, 0nat,
{
    let ghost ks = kinds(input);
    proof {
        lemma_kinds_len(input);
    }
    let t = tag_at(input, p);
    if t == TokenTag::Ellipsis {
        match ident_at(input, p + 1) {
            Some(name) => {
                proof {
                    lemma_concat(ks, p as int, p + 1, p + 2);
                    assert(ks.subrange(p as int, p + 2) =~= seq![TokenView::Ellipsis, TokenView::Ident(name@)]);
                    assert forall|x: ASTStackEffectItem| #[trigger] item_fits(ks, p as int, x) implies render_item(x).len() == 2 by {
                        lemma_item_head(x);
                        lemma_at_index(ks, p as int, render_item(x), 0);
                    }
                }
                Ok((ASTStackEffectItem::StackVar { name }, p + 2))
            },
            None => {
                proof {
                    assert forall|x: ASTStackEffectItem| #[trigger] item_fits(ks, p as int, x) implies false by {
                        lemma_item_head(x);
                        lemma_at_index(ks, p as int, render_item(x), 0);
                        lemma_at_index(ks, p as int, render_item(x), 1);
                    }
                }
                Err(error_at(input, p + 1, "stack variable name was expected"))
            },
        }
    } else if t == TokenTag::Ident {
        let (name, q) = parse_path(input, p)?;
        proof {
            assert forall|x: ASTStackEffectItem| #[trigger] item_fits(ks, p as int, x) implies q == p + render_item(x).len() by {
                lemma_item_head(x);
                lemma_at_index(ks, p as int, render_item(x), 0);
                let path = x->Symbol_name@;
                lemma_path_shape(ks, p as int, path);
                lemma_path_shape(ks, p as int, name@);
                lemma_path_unique(ks, p as int, path.len() as int, name@.len() as int);
            }
        }
        Ok((ASTStackEffectItem::Symbol { name }, q))
    } else if t == TokenTag::Pipe {
        proof {
            assert forall|x: ASTStackEffectItem| #[trigger] item_fits(ks, p as int, x) implies effect_fits(
                ks,
                p + 1,
                x->stack_effect.value,
            ) && token_is(ks, p + 1 + render_effect(x->stack_effect.value).len(), TokenView::Pipe)
                && render_item(x).len() == render_effect(x->stack_effect.value).len() + 2 by {
                lemma_item_head(x);
                lemma_at_index(ks, p as int, render_item(x), 0);
                let e = x->stack_effect.value;
                assert(render_item(x) =~= seq![TokenView::Pipe] + render_effect(e) + seq![TokenView::Pipe]);
                lemma_at_split(ks, p as int, seq![TokenView::Pipe] + render_effect(e), seq![TokenView::Pipe]);
                lemma_at_split(ks, p as int, seq![TokenView::Pipe], render_effect(e));
                lemma_at_one(ks, p + 1 + render_effect(e).len(), TokenView::Pipe);
            }
        }
        let (effect, q) = match stack_effect_parser(input, p + 1) {
            Ok(x) => x,
            Err(e) => {
                proof {
                    assert forall|x: ASTStackEffectItem| #[trigger] item_fits(ks, p as int, x) implies false by {
                        assert(effect_fits(ks, p + 1, x->stack_effect.value));
                    }
                }
                return Err(e);
            },
        };
        let q2 = match expect(input, q, TokenTag::Pipe, "| was expected after a stack effect") {
            Ok(q2) => q2,
            Err(e) => {
                proof {
                    assert forall|x: ASTStackEffectItem| #[trigger] item_fits(ks, p as int, x) implies false by {
                        assert(effect_fits(ks, p + 1, x->stack_effect.value));
                    }
                }
                return Err(e);
            },
        };
        let item = ASTStackEffectItem::Lambda {
            stack_effect: Spanned::new(effect, span_of(input, p, q2)),
        };
        proof {
            lemma_plain(ks[p as int]);
            lemma_one(ks, p as int);
            lemma_concat(ks, p as int, p + 1, q as int);
            lemma_concat(ks, p as int, q as int, q2 as int);
            assert(render_item(item) =~= ks.subrange(p as int, q2 as int));
            assert forall|x: ASTStackEffectItem| #[trigger] item_fits(ks, p as int, x) implies q2 == p + render_item(x).len() by {
                assert(effect_fits(ks, p + 1, x->stack_effect.value));
            }
        }
        Ok((item, q2))
    } else if t == TokenTag::LeftSquareBracket {
        proof {
            assert forall|x: ASTStackEffectItem| #[trigger] item_fits(ks, p as int, x) implies item_fits(
                ks,
                p + 1,
                x->element.value,
            ) && token_is(ks, p + 1 + render_item(x->element.value).len(), TokenView::Semicolon)
                && token_is(ks, p + 2 + render_item(x->element.value).len(), TokenView::LiteralNumber(x->size))
                && token_is(ks, p + 3 + render_item(x->element.value).len(), TokenView::RightSquareBracket)
                && render_item(x).len() == render_item(x->element.value).len() + 4 by {
                lemma_item_head(x);
                lemma_at_index(ks, p as int, render_item(x), 0);
                let el = x->element.value;
                let tail = seq![
                    TokenView::Semicolon,
                    TokenView::LiteralNumber(x->size),
                    TokenView::RightSquareBracket,
                ];
                assert(render_item(x) =~= seq![TokenView::LeftSquareBracket] + render_item(el) + tail);
                lemma_at_split(ks, p as int, seq![TokenView::LeftSquareBracket] + render_item(el), tail);
                lemma_at_split(ks, p as int, seq![TokenView::LeftSquareBracket], render_item(el));
                let j = p + 1 + render_item(el).len();
                lemma_at_index(ks, j, tail, 0);
                lemma_at_index(ks, j, tail, 1);
                lemma_at_index(ks, j, tail, 2);
            }
        }
        let (element, q) = match stack_item_parser(input, p + 1) {
            Ok(x) => x,
            Err(e) => {
                proof {
                    assert forall|x: ASTStackEffectItem| #[trigger] item_fits(ks, p as int, x) implies false by {
                        assert(item_fits(ks, p + 1, x->element.value));
                    }
                }
                return Err(e);
            },
        };
        proof {
            assert forall|x: ASTStackEffectItem| #[trigger] item_fits(ks, p as int, x) implies q == p + 1
                + render_item(x->element.value).len() by {
                assert(item_fits(ks, p + 1, x->element.value));
            }
        }
        let q2 = match expect(input, q, TokenTag::Semicolon, "; was expected in an array type") {
            Ok(q2) => q2,
            Err(e) => {
                proof {
                    assert forall|x: ASTStackEffectItem| #[trigger] item_fits(ks, p as int, x) implies false by {
                        assert(item_fits(ks, p + 1, x->element.value));
                    }
                }
                return Err(e);
            },
        };
        let size = match number_at(input, q2) {
            Some(n) => n,
            None => {
                proof {
                    assert forall|x: ASTStackEffectItem| #[trigger] item_fits(ks, p as int, x) implies false by {
                        assert(item_fits(ks, p + 1, x->element.value));
                    }
                }
                return Err(error_at(input, q2, "array size was expected"));
            },
        };
        let q3 = match expect(input, q2 + 1, TokenTag::RightSquareBracket, "] was expected") {
            Ok(q3) => q3,
            Err(e) => {
                proof {
                    assert forall|x: ASTStackEffectItem| #[trigger] item_fits(ks, p as int, x) implies false by {
                        assert(item_fits(ks, p + 1, x->element.value));
                    }
                }
                return Err(e);
            },
        };
        let item = ASTStackEffectItem::Array {
            element: Box::new(Spanned::new(element, span_of(input, p + 1, q))),
            size,
        };
        proof {
            lemma_plain(ks[p as int]);
            lemma_one(ks, p as int);
            lemma_one(ks, q2 as int);
            lemma_concat(ks, p as int, p + 1, q as int);
            lemma_concat(ks, p as int, q as int, q2 as int);
            lemma_concat(ks, p as int, q2 as int, q2 + 1);
            lemma_concat(ks, p as int, q2 + 1, q3 as int);
            assert(render_item(item) =~= ks.subrange(p as int, q3 as int));
            assert forall|x: ASTStackEffectItem| #[trigger] item_fits(ks, p as int, x) implies q3 == p + render_item(x).len() by {
                assert(item_fits(ks, p + 1, x->element.value));
            }
        }
        Ok((item, q3))
    } else {
        proof {
            assert forall|x: ASTStackEffectItem| #[trigger] item_fits(ks, p as int, x) implies false by {
                lemma_item_head(x);
                lemma_at_index(ks, p as int, render_item(x), 0);
            }
        }
        Err(error_at(input, p, "type was expected"))
    }
}

/// Items separated by commas; none where the first one does not parse.
fn parse_items(input: &ParserInput, p: usize) -> (r: PResult<Vec<Spanned<ASTStackEffectItem>>>)
    requires
        p <= input.tokens@.len(),
    ensures
        r matches Ok((items, q)) ==> p <= q <= kinds(input).len() && render_items(items@)
            == kinds(input).subrange(p as int, q as int),
        forall|xs: Seq<Spanned<ASTStackEffectItem>>| #[trigger]
            items_fit(kinds(input), p as int, xs) ==> (r matches Ok((_, q)) && q == p + render_items(xs).len()),
        !starts_item(kinds(input), p as int) ==> (r matches Ok((_, q)) && q == p),
        r is Err ==> r->Err_0 is ParseError,
    decreases input.tokens@.len() - p, 1nat,
{
    let ghost ks = kinds(input);
    proof {
        lemma_kinds_len(input);
    }
    let mut items: Vec<Spanned<ASTStackEffectItem>> = Vec::new();
    let (first, q0) = match stack_item_parser(input, p) {
        Ok(x) => x,
        Err(_) => {
            assert(ks.subrange(p as int, p as int) =~= Seq::<TokenView>::empty());
            proof {
                assert forall|xs: Seq<Spanned<ASTStackEffectItem>>| #[trigger] items_fit(ks, p as int, xs) implies p
                    == p + render_items(xs).len() by {
                    if xs.len() > 0 {
                        lemma_items_take(ks, p as int, xs, 1);
                        lemma_items_step(xs, 0);
                        lemma_items_wf_index(xs, 0);
                        if 1 < xs.len() {
                        } else {
                            assert(xs.take(1) =~= xs);
                        }
                        assert(item_fits(ks, p as int, xs[0].value));
                    }
                }
            }
            return Ok((items, p));
        },
    };
    items.push(Spanned::new(first, span_of(input, p, q0)));
    let mut q = q0;
    assert(starts_item(ks, p as int));
    proof {
        assert forall|xs: Seq<Spanned<ASTStackEffectItem>>| #[trigger] items_fit(ks, p as int, xs) implies 1 <= xs.len()
            && q == p + render_items(xs.take(1)).len() by {
            if xs.len() == 0 {
                assert(no_item_at(ks, p as int));
            }
            lemma_items_take(ks, p as int, xs, 1);
            lemma_items_step(xs, 0);
            lemma_items_wf_index(xs, 0);
            if 1 == xs.len() {
                assert(xs.take(1) =~= xs);
            }
            assert(item_fits(ks, p as int, xs[0].value));
        }
    }
    loop
        invariant
            ks == kinds(input),
            ks.len() == input.tokens@.len(),
            ks.len() <= usize::MAX,
            p < q <= ks.len(),
            items@.len() >= 1,
            render_items(items@) == ks.subrange(p as int, q as int),
            forall|xs: Seq<Spanned<ASTStackEffectItem>>| #[trigger]
                items_fit(ks, p as int, xs) ==> items@.len() <= xs.len() && q == p + render_items(
                    xs.take(items@.len() as int),
                ).len(),
            starts_item(ks, p as int),
        ensures
            p < q <= ks.len(),
            render_items(items@) == ks.subrange(p as int, q as int),
            forall|xs: Seq<Spanned<ASTStackEffectItem>>| #[trigger]
                items_fit(ks, p as int, xs) ==> q == p + render_items(xs).len(),
            starts_item(ks, p as int),
        decreases ks.len() - q,
    {
        if tag_at(input, q) != TokenTag::Comma {
            proof {
                assert forall|xs: Seq<Spanned<ASTStackEffectItem>>| #[trigger] items_fit(ks, p as int, xs) implies q
                    == p + render_items(xs).len() by {
                    lemma_items_take(ks, p as int, xs, items@.len() as int);
                    if items@.len() == xs.len() {
                        assert(xs.take(xs.len() as int) =~= xs);
                    }
                }
            }
            break;
        }
        let ghost k = items@.len() as int;
        proof {
            assert forall|xs: Seq<Spanned<ASTStackEffectItem>>| #[trigger] items_fit(ks, p as int, xs) implies k
                < xs.len() && item_fits(ks, q + 1, xs[k].value) && q + 1 + render_item(xs[k].value).len()
                == p + render_items(xs.take(k + 1)).len() by {
                if k == xs.len() {
                    assert(xs.take(xs.len() as int) =~= xs);
                }
                lemma_items_step(xs, k);
                lemma_items_take(ks, p as int, xs, k + 1);
                lemma_at_split(ks, p as int, render_items(xs.take(k)) + seq![TokenView::Comma], render_item(xs[k].value));
                lemma_items_wf_index(xs, k);
                if k + 1 < xs.len() {
                } else {
                    assert(xs.take(k + 1) =~= xs);
                }
            }
        }
        let (item, q2) = match stack_item_parser(input, q + 1) {
            Ok(x) => x,
            Err(e) => {
                proof {
                    assert forall|xs: Seq<Spanned<ASTStackEffectItem>>| #[trigger] items_fit(ks, p as int, xs) implies false by {
                        assert(item_fits(ks, q + 1, xs[k].value));
                    }
                }
                return Err(e);
            },
        };
        let ghost old_items = items@;
        items.push(Spanned::new(item, span_of(input, q + 1, q2)));
        proof {
            assert(items@.drop_last() =~= old_items);
            lemma_plain(ks[q as int]);
            lemma_one(ks, q as int);
            lemma_concat(ks, p as int, q as int, q + 1);
            lemma_concat(ks, p as int, q + 1, q2 as int);
            assert forall|xs: Seq<Spanned<ASTStackEffectItem>>| #[trigger] items_fit(ks, p as int, xs) implies items@.len()
                <= xs.len() && q2 == p + render_items(xs.take(items@.len() as int)).len() by {
                assert(item_fits(ks, q + 1, xs[k].value));
            }
        }
        q = q2;
    }
    Ok((items, q))
}

/// `items '--' items`.
pub fn stack_effect_parser(input: &ParserInput, p: usize) -> (r: PResult<ASTStackEffect>)
    requires
        p <= input.tokens@.len(),
    ensures
        r matches Ok((effect, q)) ==> p < q <= kinds(input).len() && render_effect(effect)
            == kinds(input).subrange(p as int, q as int),
        forall|e: ASTStackEffect| #[trigger]
            effect_fits(kinds(input), p as int, e) ==> (r matches Ok((_, q)) && q == p + render_effect(e).len()),
        !starts_item(kinds(input), p as int) && !token_is(kinds(input), p as int, TokenView::MinusMinus)
            ==> r is Err,
        r is Err ==> r->Err_0 is ParseError,
    decreases input.tokens@.len() - p, 2nat,
{
    let ghost ks = kinds(input);
    proof {
        lemma_kinds_len(input);
        assert forall|e: ASTStackEffect| #[trigger] effect_fits(ks, p as int, e) implies items_fit(
            ks,
            p as int,
            e.stack_in@,
        ) && token_is(ks, p + render_items(e.stack_in@).len(), TokenView::MinusMinus) && items_fit(
            ks,
            p + render_items(e.stack_in@).len() + 1,
            e.stack_out@,
        ) by {
            let a = render_items(e.stack_in@);
            let b = render_items(e.stack_out@);
            lemma_at_split(ks, p as int, a + seq![TokenView::MinusMinus], b);
            lemma_at_split(ks, p as int, a, seq![TokenView::MinusMinus]);
            lemma_at_one(ks, p + a.len(), TokenView::MinusMinus);
            assert(p + a.len() + 1 + b.len() == p + render_effect(e).len());
        }
    }
    let (stack_in, q) = match parse_items(input, p) {
        Ok(x) => x,
        Err(e) => {
            proof {
                assert forall|e: ASTStackEffect| #[trigger] effect_fits(ks, p as int, e) implies false by {
                    assert(items_fit(ks, p as int, e.stack_in@));
                }
            }
            return Err(e);
        },
    };
    let q2 = match expect(input, q, TokenTag::MinusMinus, "-- was expected in a stack effect") {
        Ok(q2) => q2,
        Err(e) => {
            proof {
                assert forall|e: ASTStackEffect| #[trigger] effect_fits(ks, p as int, e) implies false by {
                    assert(items_fit(ks, p as int, e.stack_in@));
                }
            }
            return Err(e);
        },
    };
    let (stack_out, q3) = match parse_items(input, q2) {
        Ok(x) => x,
        Err(e) => {
            proof {
                assert forall|e: ASTStackEffect| #[trigger] effect_fits(ks, p as int, e) implies false by {
                    assert(items_fit(ks, p as int, e.stack_in@));
                    assert(items_fit(ks, p + render_items(e.stack_in@).len() + 1, e.stack_out@));
                }
            }
            return Err(e);
        },
    };
    let effect = ASTStackEffect { stack_in, stack_out };
    proof {
        lemma_concat(ks, p as int, q as int, q2 as int);
        lemma_concat(ks, p as int, q2 as int, q3 as int);
        assert forall|e: ASTStackEffect| #[trigger] effect_fits(ks, p as int, e) implies q3 == p + render_effect(e).len() by {
            assert(items_fit(ks, p as int, e.stack_in@));
            assert(items_fit(ks, p + render_items(e.stack_in@).len() + 1, e.stack_out@));
        }
    }
    Ok((effect, q3))
}

/// One instruction of a word body.
#[verifier::spinoff_prover]
#[verifier::rlimit(60)]
pub fn instruction_parser(input: &ParserInput, p: usize) -> (r: PResult<ASTInstruction>)
    requires
        p <= input.tokens@.len(),
    ensures
        r matches Ok((instr, q)) ==> p < q <= kinds(input).len() && (names_not_numeric(
            kinds(input),
        ) ==> render_instruction(instr) == kinds(input).subrange(p as int, q as int)),
        forall|x: ASTInstruction| #[trigger]
            instr_fits(kinds(input), p as int, x) && names_not_numeric(kinds(input)) ==> (r matches Ok((_, q))
                && q == p + render_instruction(x).len()),
        forall|n: int| #[trigger]
            path_shape(kinds(input), p as int, n) && path_ends(kinds(input), p + 2 * n - 1) && token_is(
                kinds(input),
                p + 2 * n - 1,
                TokenView::GreaterThan,
            ) ==> (r matches Ok((_, q)) && q == p + 2 * n),
        !starts_instr(kinds(input), p as int) ==> r is Err,
        r is Err ==> r->Err_0 is ParseError,
    decreases input.tokens@.len() - p, 0nat,
{
    let ghost ks = kinds(input);
    proof {
        lemma_kinds_len(input);
    }
    let t = tag_at(input, p);
    if t == TokenTag::Pipe {
        proof {
            assert forall|x: ASTInstruction| #[trigger] instr_fits(ks, p as int, x) implies ({
                let e = x->Lambda_stack_effect.value;
                let b = x->Lambda_body@;
                let jj = p + 1 + render_effect(e).len();
                &&& effect_fits(ks, p + 1, e)
                &&& token_is(ks, jj, TokenView::Pipe)
                &&& token_is(ks, jj + 1, TokenView::LeftBrace)
                &&& body_fits(ks, jj + 2, b)
                &&& token_is(ks, jj + 2 + render_body(b).len(), TokenView::RightBrace)
                &&& render_instruction(x).len() == render_effect(e).len() + render_body(b).len() + 4
            }) by {
                lemma_instr_head(x);
                lemma_at_index(ks, p as int, render_instruction(x), 0);
                let e = x->Lambda_stack_effect.value;
                let b = x->Lambda_body@;
                let a0 = seq![TokenView::Pipe];
                let a2 = seq![TokenView::Pipe, TokenView::LeftBrace];
                let a4 = seq![TokenView::RightBrace];
                assert(render_instruction(x) =~= a0 + render_effect(e) + a2 + render_body(b) + a4);
                lemma_at_split(ks, p as int, a0 + render_effect(e) + a2 + render_body(b), a4);
                lemma_at_split(ks, p as int, a0 + render_effect(e) + a2, render_body(b));
                lemma_at_split(ks, p as int, a0 + render_effect(e), a2);
                lemma_at_split(ks, p as int, a0, render_effect(e));
                let jj = p + 1 + render_effect(e).len();
                lemma_at_index(ks, jj, a2, 0);
                lemma_at_index(ks, jj, a2, 1);
                lemma_at_one(ks, jj + 2 + render_body(b).len(), TokenView::RightBrace);
            }
        }
        let (effect, q) = match stack_effect_parser(input, p + 1) {
            Ok(x) => x,
            Err(e) => {
                proof {
                    assert forall|x: ASTInstruction| #[trigger] instr_fits(ks, p as int, x) implies false by {
                        assert(effect_fits(ks, p + 1, x->Lambda_stack_effect.value));
                    }
                }
                return Err(e);
            },
        };
        proof {
            assert forall|x: ASTInstruction| #[trigger] instr_fits(ks, p as int, x) implies q == p + 1
                + render_effect(x->Lambda_stack_effect.value).len() by {
                assert(effect_fits(ks, p + 1, x->Lambda_stack_effect.value));
            }
        }
        let q2 = match expect(input, q, TokenTag::Pipe, "| was expected after a stack effect") {
            Ok(q2) => q2,
            Err(e) => {
                return Err(e);
            },
        };
        let q3 = match expect(input, q2, TokenTag::LeftBrace, "{ was expected before a lambda body") {
            Ok(q3) => q3,
            Err(e) => {
                return Err(e);
            },
        };
        let (body, q4) = match parse_body(input, q3) {
            Ok(x) => x,
            Err(e) => {
                proof {
                    assert forall|x: ASTInstruction| #[trigger] instr_fits(ks, p as int, x) && names_not_numeric(ks) implies false by {
                        assert(body_fits(ks, q3 as int, x->Lambda_body@));
                    }
                }
                return Err(e);
            },
        };
        proof {
            assert forall|x: ASTInstruction| #[trigger] instr_fits(ks, p as int, x) && names_not_numeric(ks) implies q4
                == q3 + render_body(x->Lambda_body@).len() by {
                assert(body_fits(ks, q3 as int, x->Lambda_body@));
            }
        }
        let q5 = match expect(input, q4, TokenTag::RightBrace, "} was expected after a lambda body") {
            Ok(q5) => q5,
            Err(e) => {
                return Err(e);
            },
        };
        let instr = ASTInstruction::Lambda {
            stack_effect: Spanned::new(effect, span_of(input, p, q2)),
            body,
        };
        proof {
            lemma_plain(ks[p as int]);
            lemma_one(ks, p as int);
            lemma_concat(ks, p as int, p + 1, q as int);
            lemma_concat(ks, p as int, q as int, q2 as int);
            lemma_concat(ks, p as int, q2 as int, q3 as int);
            lemma_concat(ks, p as int, q3 as int, q4 as int);
            lemma_concat(ks, p as int, q4 as int, q5 as int);
            if names_not_numeric(ks) {
                assert(render_instruction(instr) =~= ks.subrange(p as int, q5 as int));
            }
        }
        Ok((instr, q5))
    } else if t == TokenTag::Literal {
        match literal_at(input, p) {
            Some(l) => {
                proof {
                    lemma_one(ks, p as int);
                    assert forall|x: ASTInstruction| #[trigger] instr_fits(ks, p as int, x) implies p + 1 == p
                        + render_instruction(x).len() by {
                        lemma_instr_head(x);
                        lemma_at_index(ks, p as int, render_instruction(x), 0);
                    }
                }
                Ok((ASTInstruction::Literal(l), p + 1))
            },
            None => Err(error_at(input, p, "instruction was expected")),
        }
    } else if t == TokenTag::GreaterThan {
        let (path, q) = match parse_path(input, p + 1) {
            Ok(x) => x,
            Err(e) => {
                proof {
                    assert forall|x: ASTInstruction| #[trigger] instr_fits(ks, p as int, x) implies false by {
                        lemma_instr_head(x);
                        lemma_at_index(ks, p as int, render_instruction(x), 0);
                        let c = x->Pack_0@;
                        lemma_at_split(ks, p as int, seq![TokenView::GreaterThan], render_path(c));
                        lemma_path_shape(ks, p + 1, c);
                        assert(ks[p + 1 + 2 * 0] is Ident);
                    }
                }
                return Err(e);
            },
        };
        proof {
            lemma_plain(ks[p as int]);
            lemma_one(ks, p as int);
            lemma_concat(ks, p as int, p + 1, q as int);
            lemma_path_shape(ks, p + 1, path@);
            assert forall|x: ASTInstruction| #[trigger] instr_fits(ks, p as int, x) implies q == p + render_instruction(
                x,
            ).len() by {
                lemma_instr_head(x);
                lemma_at_index(ks, p as int, render_instruction(x), 0);
                let c = x->Pack_0@;
                lemma_at_split(ks, p as int, seq![TokenView::GreaterThan], render_path(c));
                lemma_path_shape(ks, p + 1, c);
                lemma_path_unique(ks, p + 1, c.len() as int, path@.len() as int);
            }
        }
        Ok((ASTInstruction::Pack(path), q))
    } else if t == TokenTag::Ident {
        let (path, q) = parse_path(input, p)?;
        proof {
            lemma_path_shape(ks, p as int, path@);
        }
        let next = tag_at(input, q);
        if next == TokenTag::GreaterThan {
            proof {
                lemma_plain(ks[q as int]);
                lemma_one(ks, q as int);
                lemma_concat(ks, p as int, q as int, q + 1);
                assert forall|x: ASTInstruction| #[trigger] instr_fits(ks, p as int, x) implies q + 1 == p
                    + render_instruction(x).len() by {
                    lemma_ident_instr(ks, p as int, x, path@.len() as int);
                }
                assert forall|n: int| #[trigger] path_shape(ks, p as int, n) && path_ends(ks, p + 2 * n - 1) && token_is(
                    ks,
                    p + 2 * n - 1,
                    TokenView::GreaterThan,
                ) implies q + 1 == p + 2 * n by {
                    lemma_path_unique(ks, p as int, n, path@.len() as int);
                }
            }
            Ok((ASTInstruction::Unpack(path), q + 1))
        } else if next == TokenTag::LessThan {
            proof {
                lemma_plain(ks[q as int]);
                lemma_one(ks, q as int);
                lemma_concat(ks, p as int, q as int, q + 1);
                assert forall|x: ASTInstruction| #[trigger] instr_fits(ks, p as int, x) implies q + 1 == p
                    + render_instruction(x).len() by {
                    lemma_ident_instr(ks, p as int, x, path@.len() as int);
                }
                assert forall|n: int| #[trigger] path_shape(ks, p as int, n) && path_ends(ks, p + 2 * n - 1) && token_is(
                    ks,
                    p + 2 * n - 1,
                    TokenView::GreaterThan,
                ) implies false by {
                    lemma_path_unique(ks, p as int, n, path@.len() as int);
                }
            }
            Ok((ASTInstruction::PackPostfix(path), q + 1))
        } else {
            let (call, q2) = parse_call(input, p)?;
            proof {
                assert forall|x: ASTInstruction| #[trigger] instr_fits(ks, p as int, x) implies q2 == p
                    + render_instruction(x).len() by {
                    lemma_ident_instr(ks, p as int, x, path@.len() as int);
                    let c = x->Call_0@;
                    lemma_call_shape(ks, p as int, c);
                    lemma_call_unique(ks, p as int, c.len() as int, call@.len() as int);
                }
                assert forall|n: int| #[trigger] path_shape(ks, p as int, n) && path_ends(ks, p + 2 * n - 1) && token_is(
                    ks,
                    p + 2 * n - 1,
                    TokenView::GreaterThan,
                ) implies false by {
                    lemma_path_unique(ks, p as int, n, path@.len() as int);
                }
            }
            Ok((ASTInstruction::Call(call), q2))
        }
    } else {
        proof {
            assert forall|x: ASTInstruction| #[trigger] instr_fits(ks, p as int, x) implies false by {
                lemma_instr_head(x);
                lemma_at_index(ks, p as int, render_instruction(x), 0);
            }
            assert forall|n: int| #[trigger] path_shape(ks, p as int, n) implies false by {
                assert(ks[p + 2 * 0] is Ident);
            }
        }
        Err(error_at(input, p, "instruction was expected"))
    }
}

/// Instructions up to the first token that starts none.
fn parse_body(input: &ParserInput, p: usize) -> (r: PResult<Vec<Spanned<ASTInstruction>>>)
    requires
        p <= input.tokens@.len(),
    ensures
        r matches Ok((body, q)) ==> p <= q <= kinds(input).len() && (names_not_numeric(
            kinds(input),
        ) ==> render_body(body@) == kinds(input).subrange(p as int, q as int)),
        forall|xs: Seq<Spanned<ASTInstruction>>| #[trigger]
            body_fits(kinds(input), p as int, xs) && names_not_numeric(kinds(input)) ==> (r matches Ok((_, q))
                && q == p + render_body(xs).len()),
        r is Err ==> r->Err_0 is ParseError,
    decreases input.tokens@.len() - p, 1nat,
{
    let ghost ks = kinds(input);
    proof {
        lemma_kinds_len(input);
    }
    let mut body: Vec<Spanned<ASTInstruction>> = Vec::new();
    let mut q = p;
    proof {
        assert(ks.subrange(p as int, p as int) =~= Seq::<TokenView>::empty());
        assert forall|xs: Seq<Spanned<ASTInstruction>>| #[trigger] body_fits(ks, p as int, xs) && names_not_numeric(ks) implies exists|
            ys: Seq<Spanned<ASTInstruction>>,
        | #[trigger] body_fits(ks, q as int, ys) && q + render_body(ys).len() == p + render_body(xs).len() by {
            assert(body_fits(ks, q as int, xs));
        }
    }
    loop
        invariant
            ks == kinds(input),
            ks.len() == input.tokens@.len(),
            ks.len() <= usize::MAX,
            p <= q <= ks.len(),
            names_not_numeric(ks) ==> render_body(body@) == ks.subrange(p as int, q as int),
            forall|xs: Seq<Spanned<ASTInstruction>>| #[trigger]
                body_fits(ks, p as int, xs) && names_not_numeric(ks) ==> exists|ys: Seq<Spanned<ASTInstruction>>|
                    #[trigger] body_fits(ks, q as int, ys) && q + render_body(ys).len() == p + render_body(xs).len(),
        ensures
            p <= q <= ks.len(),
            names_not_numeric(ks) ==> render_body(body@) == ks.subrange(p as int, q as int),
            forall|xs: Seq<Spanned<ASTInstruction>>| #[trigger]
                body_fits(ks, p as int, xs) && names_not_numeric(ks) ==> q == p + render_body(xs).len(),
        decreases ks.len() - q,
    {
        let (instr, q2) = match instruction_parser(input, q) {
            Ok(x) => x,
            Err(_) => {
                proof {
                    assert forall|xs: Seq<Spanned<ASTInstruction>>| #[trigger] body_fits(ks, p as int, xs) && names_not_numeric(ks) implies q
                        == p + render_body(xs).len() by {
                        let ys = choose|ys: Seq<Spanned<ASTInstruction>>| #[trigger] body_fits(ks, q as int, ys) && q
                            + render_body(ys).len() == p + render_body(xs).len();
                        if ys.len() >= 1 {
                            let res = lemma_body_step(ks, q as int, ys);
                            if res.1 == 0 {
                                assert(instr_fits(ks, q as int, ys[0].value));
                            } else {
                                assert(path_shape(ks, q as int, res.1));
                            }
                        }
                    }
                }
                break;
            },
        };
        let ghost old_body = body@;
        body.push(Spanned::new(instr, span_of(input, q, q2)));
        proof {
            assert(body@.drop_last() =~= old_body);
            lemma_concat(ks, p as int, q as int, q2 as int);
            assert forall|xs: Seq<Spanned<ASTInstruction>>| #[trigger] body_fits(ks, p as int, xs) && names_not_numeric(ks) implies exists|
                ys: Seq<Spanned<ASTInstruction>>,
            | #[trigger] body_fits(ks, q2 as int, ys) && q2 + render_body(ys).len() == p + render_body(xs).len() by {
                let ys = choose|ys: Seq<Spanned<ASTInstruction>>| #[trigger] body_fits(ks, q as int, ys) && q
                    + render_body(ys).len() == p + render_body(xs).len();
                if ys.len() == 0 {
                    assert(!starts_instr(ks, q as int));
                } else {
                    let res = lemma_body_step(ks, q as int, ys);
                    if res.1 == 0 {
                        assert(instr_fits(ks, q as int, ys[0].value));
                    } else {
                        assert(path_shape(ks, q as int, res.1));
                    }
                    assert(body_fits(ks, q2 as int, res.0));
                }
            }
        }
        q = q2;
    }
    Ok((body, q))
}

/// `'#' '[' Ident ('=' String)? ']'`, at a `#`.
fn parse_attribute(input: &ParserInput, p: usize) -> (r: PResult<ASTAttribute>)
    requires
        tag_at_spec(kinds(input), p as int) == TokenTag::Hash,
    ensures
        r matches Ok((attr, q)) ==> p < q <= kinds(input).len() && render_attribute(attr)
            == kinds(input).subrange(p as int, q as int),
        forall|a: ASTAttribute| #[trigger]
            at(kinds(input), p as int, render_attribute(a)) ==> (r matches Ok((_, q)) && q == p
                + render_attribute(a).len()),
        r is Err ==> r->Err_0 is ParseError,
{
    let ghost ks = kinds(input);
    proof {
        lemma_kinds_len(input);
        lemma_plain(ks[p as int]);
        assert forall|a: ASTAttribute| #[trigger] at(ks, p as int, render_attribute(a)) implies {
            &&& token_is(ks, p + 1, TokenView::LeftSquareBracket)
            &&& token_is(ks, p + 2, TokenView::Ident(a.name@))
            &&& (a.value matches Some(v) ==> token_is(ks, p + 3, TokenView::Equal) && token_is(
                ks,
                p + 4,
                TokenView::LiteralString(v@),
            ) && token_is(ks, p + 5, TokenView::RightSquareBracket) && render_attribute(a).len() == 6)
            &&& (a.value is None ==> token_is(ks, p + 3, TokenView::RightSquareBracket) && render_attribute(a).len()
                == 4)
        } by {
            let w = render_attribute(a);
            lemma_at_index(ks, p as int, w, 1);
            lemma_at_index(ks, p as int, w, 2);
            lemma_at_index(ks, p as int, w, 3);
            if a.value is Some {
                lemma_at_index(ks, p as int, w, 4);
                lemma_at_index(ks, p as int, w, 5);
            }
        }
    }
    let q1 = match expect(input, p + 1, TokenTag::LeftSquareBracket, "[ was expected after #") {
        Ok(q1) => q1,
        Err(e) => {
            proof {
                assert forall|a: ASTAttribute| #[trigger] at(ks, p as int, render_attribute(a)) implies false by {
                    assert(token_is(ks, p + 1, TokenView::LeftSquareBracket));
                }
            }
            return Err(e);
        },
    };
    let name = match ident_at(input, q1) {
        Some(s) => s,
        None => {
            proof {
                assert forall|a: ASTAttribute| #[trigger] at(ks, p as int, render_attribute(a)) implies false by {
                    assert(token_is(ks, p + 2, TokenView::Ident(a.name@)));
                }
            }
            return Err(error_at(input, q1, "attribute name was expected"));
        },
    };
    let mut q2 = q1 + 1;
    let mut value: Option<String> = None;
    if tag_at(input, q2) == TokenTag::Equal {
        match string_at(input, q2 + 1) {
            Some(v) => {
                proof {
                    lemma_plain(ks[q2 as int]);
                }
                value = Some(v);
            },
            None => {
                proof {
                    assert forall|a: ASTAttribute| #[trigger] at(ks, p as int, render_attribute(a)) implies false by {
                        assert(token_is(ks, p + 3, TokenView::Equal) || token_is(ks, p + 3, TokenView::RightSquareBracket));
                    }
                }
                return Err(error_at(input, q2 + 1, "attribute value was expected"));
            },
        }
        q2 = q2 + 2;
    }
    let q3 = match expect(input, q2, TokenTag::RightSquareBracket, "] was expected after an attribute") {
        Ok(q3) => q3,
        Err(e) => {
            proof {
                assert forall|a: ASTAttribute| #[trigger] at(ks, p as int, render_attribute(a)) implies false by {
                    assert(token_is(ks, p + 3, TokenView::Equal) || token_is(ks, p + 3, TokenView::RightSquareBracket));
                }
            }
            return Err(e);
        },
    };
    let attr = ASTAttribute { name, value };
    proof {
        assert(ks[p + 1] == ks.subrange(p + 1, q1 as int)[0]);
        assert(ks[q2 as int] == ks.subrange(q2 as int, q3 as int)[0]);
        assert(ks.subrange(p as int, q3 as int) =~= render_attribute(attr));
        assert forall|a: ASTAttribute| #[trigger] at(ks, p as int, render_attribute(a)) implies q3 == p
            + render_attribute(a).len() by {
            assert(token_is(ks, p + 3, TokenView::Equal) || token_is(ks, p + 3, TokenView::RightSquareBracket));
        }
    }
    Ok((attr, q3))
}

/// `attribute*`
pub fn attributes_parser(input: &ParserInput, p: usize) -> (r: PResult<Vec<Spanned<ASTAttribute>>>)
    requires
        p <= input.tokens@.len(),
    ensures
        r matches Ok((attrs, q)) ==> p <= q <= kinds(input).len() && render_attributes(attrs@)
            == kinds(input).subrange(p as int, q as int) && tag_at_spec(kinds(input), q as int)
            != TokenTag::Hash,
        forall|xs: Seq<Spanned<ASTAttribute>>| #[trigger]
            attrs_fit(kinds(input), p as int, xs) ==> (r matches Ok((_, q)) && q == p + render_attributes(
                xs,
            ).len()),
        r is Err ==> r->Err_0 is ParseError,
{
    let ghost ks = kinds(input);
    proof {
        lemma_kinds_len(input);
    }
    let mut attrs: Vec<Spanned<ASTAttribute>> = Vec::new();
    let mut q = p;
    proof {
        assert(ks.subrange(p as int, p as int) =~= Seq::<TokenView>::empty());
        assert forall|xs: Seq<Spanned<ASTAttribute>>| #[trigger] attrs_fit(ks, p as int, xs) implies exists|
            ys: Seq<Spanned<ASTAttribute>>,
        | #[trigger] attrs_fit(ks, q as int, ys) && q + render_attributes(ys).len() == p + render_attributes(
            xs,
        ).len() by {
            assert(attrs_fit(ks, q as int, xs));
        }
    }
    while tag_at(input, q) == TokenTag::Hash
        invariant
            ks == kinds(input),
            ks.len() == input.tokens@.len(),
            ks.len() <= usize::MAX,
            p <= q <= ks.len(),
            render_attributes(attrs@) == ks.subrange(p as int, q as int),
            forall|xs: Seq<Spanned<ASTAttribute>>| #[trigger]
                attrs_fit(ks, p as int, xs) ==> exists|ys: Seq<Spanned<ASTAttribute>>|
                    #[trigger] attrs_fit(ks, q as int, ys) && q + render_attributes(ys).len() == p
                        + render_attributes(xs).len(),
        decreases ks.len() - q,
    {
        proof {
            assert forall|ys: Seq<Spanned<ASTAttribute>>| #[trigger] attrs_fit(ks, q as int, ys) implies ys.len() >= 1
                && at(ks, q as int, render_attribute(ys[0].value)) && attrs_fit(
                ks,
                q + render_attribute(ys[0].value).len(),
                ys.drop_first(),
            ) by {
                if ys.len() == 0 {
                    assert(token_is(ks, q as int, TokenView::Hash));
                } else {
                    lemma_attrs_first(ys);
                    lemma_at_split(ks, q as int, render_attribute(ys[0].value), render_attributes(ys.drop_first()));
                }
            }
        }
        let (attr, q2) = match parse_attribute(input, q) {
            Ok(x) => x,
            Err(e) => {
                proof {
                    assert forall|xs: Seq<Spanned<ASTAttribute>>| #[trigger] attrs_fit(ks, p as int, xs) implies false by {
                        let ys = choose|ys: Seq<Spanned<ASTAttribute>>| #[trigger] attrs_fit(ks, q as int, ys) && q
                            + render_attributes(ys).len() == p + render_attributes(xs).len();
                        assert(at(ks, q as int, render_attribute(ys[0].value)));
                    }
                }
                return Err(e);
            },
        };
        let ghost old_attrs = attrs@;
        attrs.push(Spanned::new(attr, span_of(input, q, q2)));
        proof {
            assert(attrs@.drop_last() =~= old_attrs);
            lemma_concat(ks, p as int, q as int, q2 as int);
            assert forall|xs: Seq<Spanned<ASTAttribute>>| #[trigger] attrs_fit(ks, p as int, xs) implies exists|
                ys: Seq<Spanned<ASTAttribute>>,
            | #[trigger] attrs_fit(ks, q2 as int, ys) && q2 + render_attributes(ys).len() == p + render_attributes(
                xs,
            ).len() by {
                let ys = choose|ys: Seq<Spanned<ASTAttribute>>| #[trigger] attrs_fit(ks, q as int, ys) && q
                    + render_attributes(ys).len() == p + render_attributes(xs).len();
                assert(at(ks, q as int, render_attribute(ys[0].value)));
                lemma_attrs_first(ys);
                assert(attrs_fit(ks, q2 as int, ys.drop_first()));
            }
        }
        q = q2;
    }
    proof {
        assert forall|xs: Seq<Spanned<ASTAttribute>>| #[trigger] attrs_fit(ks, p as int, xs) implies q == p
            + render_attributes(xs).len() by {
            let ys = choose|ys: Seq<Spanned<ASTAttribute>>| #[trigger] attrs_fit(ks, q as int, ys) && q
                + render_attributes(ys).len() == p + render_attributes(xs).len();
            if ys.len() >= 1 {
                lemma_attrs_first(ys);
                lemma_at_split(ks, q as int, render_attribute(ys[0].value), render_attributes(ys.drop_first()));
                lemma_at_index(ks, q as int, render_attribute(ys[0].value), 0);
            }
        }
    }
    Ok((attrs, q))
}

/// `Ident | '...' Ident`
fn parse_word_var(input: &ParserInput, p: usize) -> (r: PResult<ASTWordVar>)
    ensures
        r matches Ok((var, q)) ==> p < q <= kinds(input).len() && render_word_var(var)
            == kinds(input).subrange(p as int, q as int),
        forall|v: ASTWordVar| #[trigger]
            at(kinds(input), p as int, render_word_var(v)) ==> (r matches Ok((_, q)) && q == p
                + render_word_var(v).len()),
        r is Err ==> r->Err_0 is ParseError,
{
    let ghost ks = kinds(input);
    proof {
        lemma_kinds_len(input);
        assert forall|v: ASTWordVar| #[trigger] at(ks, p as int, render_word_var(v)) implies (v is Stack
            ==> token_is(ks, p as int, TokenView::Ellipsis) && token_is(ks, p + 1, TokenView::Ident(
            v->Stack_name.value@,
        ))) && (v is Type ==> token_is(ks, p as int, TokenView::Ident(v->Type_name.value@))) by {
            lemma_at_index(ks, p as int, render_word_var(v), 0);
            if v is Stack {
                lemma_at_index(ks, p as int, render_word_var(v), 1);
            }
        }
    }
    if tag_at(input, p) == TokenTag::Ellipsis {
        match ident_at(input, p + 1) {
            Some(name) => {
                let var = ASTWordVar::Stack { name: Spanned::new(name, span_of(input, p, p + 2)) };
                proof {
                    lemma_plain(ks[p as int]);
                    assert(ks.subrange(p as int, p + 2) =~= render_word_var(var));
                }
                Ok((var, p + 2))
            },
            None => Err(error_at(input, p + 1, "stack variable name was expected")),
        }
    } else {
        match ident_at(input, p) {
            Some(name) => {
                let var = ASTWordVar::Type { name: Spanned::new(name, span_of(input, p, p + 1)) };
                proof {
                    assert(ks.subrange(p as int, p + 1) =~= render_word_var(var));
                }
                Ok((var, p + 1))
            },
            None => Err(error_at(input, p, "type variable was expected")),
        }
    }
}

/// `var (',' var)*`
fn parse_word_vars(input: &ParserInput, p: usize) -> (r: PResult<Vec<ASTWordVar>>)
    ensures
        r matches Ok((vars, q)) ==> p < q <= kinds(input).len() && vars@.len() >= 1
            && render_word_vars(vars@) == kinds(input).subrange(p as int, q as int),
        forall|vs: Seq<ASTWordVar>| #[trigger]
            vars_fit(kinds(input), p as int, vs) ==> (r matches Ok((_, q)) && q == p + render_word_vars(vs).len()),
        r is Err ==> r->Err_0 is ParseError,
{
    let ghost ks = kinds(input);
    proof {
        lemma_kinds_len(input);
        assert forall|vs: Seq<ASTWordVar>| #[trigger] vars_fit(ks, p as int, vs) implies at(
            ks,
            p as int,
            render_word_var(vs[0]),
        ) && render_word_var(vs[0]).len() == render_word_vars(vs.take(1)).len() by {
            lemma_vars_take(ks, p as int, vs, 1);
            lemma_vars_step(vs, 0);
        }
    }
    let mut vars: Vec<ASTWordVar> = Vec::new();
    let (first, q0) = match parse_word_var(input, p) {
        Ok(x) => x,
        Err(e) => {
            proof {
                assert forall|vs: Seq<ASTWordVar>| #[trigger] vars_fit(ks, p as int, vs) implies false by {
                    assert(at(ks, p as int, render_word_var(vs[0])));
                }
            }
            return Err(e);
        },
    };
    vars.push(first);
    proof {
        assert(vars@ =~= seq![first]);
        assert forall|vs: Seq<ASTWordVar>| #[trigger] vars_fit(ks, p as int, vs) implies 1 <= vs.len() && q0 == p
            + render_word_vars(vs.take(1)).len() by {
            assert(at(ks, p as int, render_word_var(vs[0])));
        }
    }
    let mut q = q0;
    while tag_at(input, q) == TokenTag::Comma
        invariant
            ks == kinds(input),
            ks.len() == input.tokens@.len(),
            ks.len() <= usize::MAX,
            p < q <= ks.len(),
            vars@.len() >= 1,
            render_word_vars(vars@) == ks.subrange(p as int, q as int),
            forall|vs: Seq<ASTWordVar>| #[trigger]
                vars_fit(ks, p as int, vs) ==> vars@.len() <= vs.len() && q == p + render_word_vars(
                    vs.take(vars@.len() as int),
                ).len(),
        decreases ks.len() - q,
    {
        let ghost k = vars@.len() as int;
        proof {
            assert forall|vs: Seq<ASTWordVar>| #[trigger] vars_fit(ks, p as int, vs) implies k < vs.len() && at(
                ks,
                q + 1,
                render_word_var(vs[k]),
            ) && q + 1 + render_word_var(vs[k]).len() == p + render_word_vars(vs.take(k + 1)).len() by {
                if k == vs.len() {
                    assert(vs.take(vs.len() as int) =~= vs);
                }
                lemma_vars_step(vs, k);
                lemma_vars_take(ks, p as int, vs, k + 1);
                lemma_at_split(ks, p as int, render_word_vars(vs.take(k)) + seq![TokenView::Comma], render_word_var(vs[k]));
            }
        }
        let (var, q2) = match parse_word_var(input, q + 1) {
            Ok(x) => x,
            Err(e) => {
                proof {
                    assert forall|vs: Seq<ASTWordVar>| #[trigger] vars_fit(ks, p as int, vs) implies false by {
                        assert(at(ks, q + 1, render_word_var(vs[k])));
                    }
                }
                return Err(e);
            },
        };
        let ghost old_vars = vars@;
        vars.push(var);
        proof {
            assert(vars@.drop_last() =~= old_vars);
            lemma_plain(ks[q as int]);
            lemma_one(ks, q as int);
            lemma_concat(ks, p as int, q as int, q + 1);
            lemma_concat(ks, p as int, q + 1, q2 as int);
            assert forall|vs: Seq<ASTWordVar>| #[trigger] vars_fit(ks, p as int, vs) implies vars@.len() <= vs.len()
                && q2 == p + render_word_vars(vs.take(vars@.len() as int)).len() by {
                assert(at(ks, q + 1, render_word_var(vs[k])));
            }
        }
        q = q2;
    }
    proof {
        assert forall|vs: Seq<ASTWordVar>| #[trigger] vars_fit(ks, p as int, vs) implies q == p + render_word_vars(
            vs,
        ).len() by {
            lemma_vars_take(ks, p as int, vs, vars@.len() as int);
            if vars@.len() == vs.len() {
                assert(vs.take(vs.len() as int) =~= vs);
            }
        }
    }
    Ok((vars, q))
}

/// `attribute* 'def' Ident ('<' vars '>')? '(' effect ')' instr* 'end'`
#[verifier::spinoff_prover]
#[verifier::rlimit(60)]
pub fn word_parser(input: &ParserInput, p: usize) -> (r: PResult<ASTWord>)
    requires
        p <= input.tokens@.len(),
    ensures
        r matches Ok((word, q)) ==> p < q <= kinds(input).len() && (names_not_numeric(kinds(input))
            ==> render_word(word) == kinds(input).subrange(p as int, q as int)),
        forall|w: ASTWord| #[trigger]
            word_fits(kinds(input), p as int, w) && names_not_numeric(kinds(input)) ==> (r matches Ok((_, q))
                && q == p + render_word(w).len()),
        r is Err ==> r->Err_0 is ParseError,
{
    let ghost ks = kinds(input);
    proof {
        lemma_kinds_len(input);
    }
    let (attributes, q0) = match attributes_parser(input, p) {
        Ok(x) => x,
        Err(e) => {
            proof {
                assert forall|w: ASTWord| #[trigger] word_fits(ks, p as int, w) && names_not_numeric(ks) implies false by {
                    lemma_word_parts(ks, p as int, w);
                }
            }
            return Err(e);
        },
    };
    proof {
        assert forall|w: ASTWord| #[trigger] word_fits(ks, p as int, w) implies q0 == p + render_attributes(
            w.attributes@,
        ).len() by {
            lemma_word_parts(ks, p as int, w);
        }
    }
    let q1 = match expect(input, q0, TokenTag::KeywordDef, "def was expected") {
        Ok(q1) => q1,
        Err(e) => {
            proof {
                assert forall|w: ASTWord| #[trigger] word_fits(ks, p as int, w) && names_not_numeric(ks) implies false by {
                    lemma_word_parts(ks, p as int, w);
                }
            }
            return Err(e);
        },
    };
    let name = match ident_at(input, q1) {
        Some(s) => Spanned::new(s, span_of(input, q1, q1 + 1)),
        None => {
            proof {
                assert forall|w: ASTWord| #[trigger] word_fits(ks, p as int, w) && names_not_numeric(ks) implies false by {
                    lemma_word_parts(ks, p as int, w);
                }
            }
            return Err(error_at(input, q1, "word name was expected"));
        },
    };
    let mut q2 = q1 + 1;
    let mut word_vars: Vec<ASTWordVar> = Vec::new();
    if tag_at(input, q2) == TokenTag::LessThan {
        let (vars, q) = match parse_word_vars(input, q2 + 1) {
            Ok(x) => x,
            Err(e) => {
                proof {
                    assert forall|w: ASTWord| #[trigger] word_fits(ks, p as int, w) && names_not_numeric(ks) implies false by {
                        lemma_word_parts(ks, p as int, w);
                    }
                }
                return Err(e);
            },
        };
        let q3 = match expect(input, q, TokenTag::GreaterThan, "> was expected after word variables") {
            Ok(q3) => q3,
            Err(e) => {
                proof {
                    assert forall|w: ASTWord| #[trigger] word_fits(ks, p as int, w) && names_not_numeric(ks) implies false by {
                        lemma_word_parts(ks, p as int, w);
                    }
                }
                return Err(e);
            },
        };
        proof {
            lemma_plain(ks[q2 as int]);
            lemma_one(ks, q2 as int);
            lemma_concat(ks, q2 as int, q2 + 1, q as int);
            lemma_concat(ks, q2 as int, q as int, q3 as int);
            assert forall|w: ASTWord| #[trigger] word_fits(ks, p as int, w) implies q3 == q1 + 1 + word_vars_tokens(
                w,
            ).len() by {
                lemma_word_parts(ks, p as int, w);
            }
        }
        word_vars = vars;
        q2 = q3;
    } else {
        proof {
            assert(ks.subrange(q1 + 1, q1 + 1) =~= Seq::<TokenView>::empty());
            assert forall|w: ASTWord| #[trigger] word_fits(ks, p as int, w) implies q2 == q1 + 1 + word_vars_tokens(
                w,
            ).len() by {
                lemma_word_parts(ks, p as int, w);
            }
        }
    }
    let q4 = match expect(input, q2, TokenTag::LeftParenthesis, "stack effect was expected") {
        Ok(q4) => q4,
        Err(e) => {
            proof {
                assert forall|w: ASTWord| #[trigger] word_fits(ks, p as int, w) && names_not_numeric(ks) implies false by {
                    lemma_word_parts(ks, p as int, w);
                }
            }
            return Err(e);
        },
    };
    let (effect, q5) = match stack_effect_parser(input, q4) {
        Ok(x) => x,
        Err(e) => {
            proof {
                assert forall|w: ASTWord| #[trigger] word_fits(ks, p as int, w) && names_not_numeric(ks) implies false by {
                    lemma_word_parts(ks, p as int, w);
                    assert(effect_fits(ks, q4 as int, w.stack_effect.value));
                }
            }
            return Err(e);
        },
    };
    proof {
        assert forall|w: ASTWord| #[trigger] word_fits(ks, p as int, w) implies q5 == q4 + render_effect(
            w.stack_effect.value,
        ).len() by {
            lemma_word_parts(ks, p as int, w);
            assert(effect_fits(ks, q4 as int, w.stack_effect.value));
        }
    }
    let q6 = match expect(input, q5, TokenTag::RightParenthesis, ") was expected after a stack effect") {
        Ok(q6) => q6,
        Err(e) => {
            proof {
                assert forall|w: ASTWord| #[trigger] word_fits(ks, p as int, w) && names_not_numeric(ks) implies false by {
                    lemma_word_parts(ks, p as int, w);
                }
            }
            return Err(e);
        },
    };
    let (body, q7) = match parse_body(input, q6) {
        Ok(x) => x,
        Err(e) => {
            proof {
                assert forall|w: ASTWord| #[trigger] word_fits(ks, p as int, w) && names_not_numeric(ks) implies false by {
                    lemma_word_parts(ks, p as int, w);
                    assert(body_fits(ks, q6 as int, w.body@));
                }
            }
            return Err(e);
        },
    };
    proof {
        assert forall|w: ASTWord| #[trigger] word_fits(ks, p as int, w) && names_not_numeric(ks) implies q7 == q6
            + render_body(w.body@).len() by {
            lemma_word_parts(ks, p as int, w);
            assert(body_fits(ks, q6 as int, w.body@));
        }
    }
    let q8 = match expect(input, q7, TokenTag::KeywordEnd, "end was expected to close a word") {
        Ok(q8) => q8,
        Err(e) => {
            proof {
                assert forall|w: ASTWord| #[trigger] word_fits(ks, p as int, w) && names_not_numeric(ks) implies false by {
                    lemma_word_parts(ks, p as int, w);
                }
            }
            return Err(e);
        },
    };
    let word = ASTWord {
        name,
        body,
        word_vars,
        stack_effect: Spanned::new(effect, span_of(input, q4, q5)),
        attributes,
    };
    proof {
        lemma_one(ks, q1 as int);
        lemma_concat(ks, p as int, q0 as int, q1 as int);
        lemma_concat(ks, p as int, q1 as int, q1 + 1);
        lemma_concat(ks, p as int, q1 + 1, q2 as int);
        lemma_concat(ks, p as int, q2 as int, q4 as int);
        lemma_concat(ks, p as int, q4 as int, q5 as int);
        lemma_concat(ks, p as int, q5 as int, q6 as int);
        lemma_concat(ks, p as int, q6 as int, q7 as int);
        lemma_concat(ks, p as int, q7 as int, q8 as int);
        if names_not_numeric(ks) {
            assert(render_word(word) =~= ks.subrange(p as int, q8 as int));
        }
        assert forall|w: ASTWord| #[trigger] word_fits(ks, p as int, w) && names_not_numeric(ks) implies q8 == p
            + render_word(w).len() by {
            lemma_word_parts(ks, p as int, w);
        }
    }
    Ok((word, q8))
}

/// `'struct' Ident '(' item (',' item)* ')' ';'`
pub fn struct_parser(input: &ParserInput, p: usize) -> (r: PResult<ASTStruct>)
    requires
        p <= input.tokens@.len(),
    ensures
        r matches Ok((st, q)) ==> p < q <= kinds(input).len() && render_struct(st)
            == kinds(input).subrange(p as int, q as int),
        forall|s: ASTStruct| #[trigger]
            struct_fits(kinds(input), p as int, s) ==> (r matches Ok((_, q)) && q == p + render_struct(s).len()),
        r is Err ==> r->Err_0 is ParseError,
{
    let ghost ks = kinds(input);
    proof {
        lemma_kinds_len(input);
    }
    let q1 = match expect(input, p, TokenTag::KeywordStruct, "struct was expected") {
        Ok(q1) => q1,
        Err(e) => {
            proof {
                assert forall|s: ASTStruct| #[trigger] struct_fits(ks, p as int, s) implies false by {
                    lemma_struct_parts(ks, p as int, s);
                }
            }
            return Err(e);
        },
    };
    let name = match ident_at(input, q1) {
        Some(s) => Spanned::new(s, span_of(input, q1, q1 + 1)),
        None => {
            proof {
                assert forall|s: ASTStruct| #[trigger] struct_fits(ks, p as int, s) implies false by {
                    lemma_struct_parts(ks, p as int, s);
                }
            }
            return Err(error_at(input, q1, "struct name was expected"));
        },
    };
    let q2 = match expect(input, q1 + 1, TokenTag::LeftParenthesis, "( was expected after a struct name") {
        Ok(q2) => q2,
        Err(e) => {
            proof {
                assert forall|s: ASTStruct| #[trigger] struct_fits(ks, p as int, s) implies false by {
                    lemma_struct_parts(ks, p as int, s);
                }
            }
            return Err(e);
        },
    };
    let (fields, q3) = match parse_items(input, q2) {
        Ok(x) => x,
        Err(e) => {
            proof {
                assert forall|s: ASTStruct| #[trigger] struct_fits(ks, p as int, s) implies false by {
                    lemma_struct_parts(ks, p as int, s);
                    assert(items_fit(ks, q2 as int, s.fields@));
                }
            }
            return Err(e);
        },
    };
    proof {
        assert forall|s: ASTStruct| #[trigger] struct_fits(ks, p as int, s) implies q3 == q2 + render_items(
            s.fields@,
        ).len() by {
            lemma_struct_parts(ks, p as int, s);
            assert(items_fit(ks, q2 as int, s.fields@));
        }
    }
    if fields.len() == 0 {
        proof {
            assert(render_items(fields@) == Seq::<TokenView>::empty());
            assert forall|s: ASTStruct| #[trigger] struct_fits(ks, p as int, s) implies false by {
                lemma_struct_parts(ks, p as int, s);
            }
        }
        return Err(error_at(input, q3, "struct field was expected"));
    }
    let q4 = match expect(input, q3, TokenTag::RightParenthesis, ") was expected after struct fields") {
        Ok(q4) => q4,
        Err(e) => {
            proof {
                assert forall|s: ASTStruct| #[trigger] struct_fits(ks, p as int, s) implies false by {
                    lemma_struct_parts(ks, p as int, s);
                }
            }
            return Err(e);
        },
    };
    let q5 = match expect(input, q4, TokenTag::Semicolon, "; was expected after a struct declaration") {
        Ok(q5) => q5,
        Err(e) => {
            proof {
                assert forall|s: ASTStruct| #[trigger] struct_fits(ks, p as int, s) implies false by {
                    lemma_struct_parts(ks, p as int, s);
                }
            }
            return Err(e);
        },
    };
    let st = ASTStruct { name, fields };
    proof {
        lemma_one(ks, q1 as int);
        lemma_concat(ks, p as int, q1 as int, q1 + 1);
        lemma_concat(ks, p as int, q1 + 1, q2 as int);
        lemma_concat(ks, p as int, q2 as int, q3 as int);
        lemma_concat(ks, p as int, q3 as int, q4 as int);
        lemma_concat(ks, p as int, q4 as int, q5 as int);
        assert(render_struct(st) =~= ks.subrange(p as int, q5 as int));
        assert forall|s: ASTStruct| #[trigger] struct_fits(ks, p as int, s) implies q5 == p + render_struct(s).len() by {
            lemma_struct_parts(ks, p as int, s);
        }
    }
    Ok((st, q5))
}

/// `attribute* 'import' path ';'`
fn parse_import(input: &ParserInput, p: usize) -> (r: PResult<ASTImport>)
    requires
        p <= input.tokens@.len(),
    ensures
        r matches Ok((imp, q)) ==> p < q <= kinds(input).len() && render_import(imp)
            == kinds(input).subrange(p as int, q as int),
        forall|i: ASTImport| #[trigger]
            import_fits(kinds(input), p as int, i) ==> (r matches Ok((_, q)) && q == p + render_import(i).len()),
        r is Err ==> r->Err_0 is ParseError,
{
    let ghost ks = kinds(input);
    proof {
        lemma_kinds_len(input);
    }
    let (attributes, q0) = match attributes_parser(input, p) {
        Ok(x) => x,
        Err(e) => {
            proof {
                assert forall|i: ASTImport| #[trigger] import_fits(ks, p as int, i) implies false by {
                    lemma_import_parts(ks, p as int, i);
                }
            }
            return Err(e);
        },
    };
    proof {
        assert forall|i: ASTImport| #[trigger] import_fits(ks, p as int, i) implies q0 == p + render_attributes(
            i.attributes@,
        ).len() by {
            lemma_import_parts(ks, p as int, i);
        }
    }
    let q1 = match expect(input, q0, TokenTag::KeywordImport, "import was expected") {
        Ok(q1) => q1,
        Err(e) => {
            proof {
                assert forall|i: ASTImport| #[trigger] import_fits(ks, p as int, i) implies false by {
                    lemma_import_parts(ks, p as int, i);
                }
            }
            return Err(e);
        },
    };
    let (name, q2) = match parse_path(input, q1) {
        Ok(x) => x,
        Err(e) => {
            proof {
                assert forall|i: ASTImport| #[trigger] import_fits(ks, p as int, i) implies false by {
                    lemma_import_parts(ks, p as int, i);
                    lemma_path_shape(ks, q1 as int, i.name@);
                    assert(ks[q1 + 2 * 0] is Ident);
                }
            }
            return Err(e);
        },
    };
    proof {
        lemma_path_shape(ks, q1 as int, name@);
        assert forall|i: ASTImport| #[trigger] import_fits(ks, p as int, i) implies q2 == q1 + render_path(
            i.name@,
        ).len() by {
            lemma_import_parts(ks, p as int, i);
            lemma_path_shape(ks, q1 as int, i.name@);
            lemma_path_unique(ks, q1 as int, i.name@.len() as int, name@.len() as int);
        }
    }
    let q3 = match expect(input, q2, TokenTag::Semicolon, "; was expected after an import") {
        Ok(q3) => q3,
        Err(e) => {
            proof {
                assert forall|i: ASTImport| #[trigger] import_fits(ks, p as int, i) implies false by {
                    lemma_import_parts(ks, p as int, i);
                }
            }
            return Err(e);
        },
    };
    let imp = ASTImport { name, attributes };
    proof {
        lemma_concat(ks, p as int, q0 as int, q1 as int);
        lemma_concat(ks, p as int, q1 as int, q2 as int);
        lemma_concat(ks, p as int, q2 as int, q3 as int);
        assert forall|i: ASTImport| #[trigger] import_fits(ks, p as int, i) implies q3 == p + render_import(i).len() by {
            lemma_import_parts(ks, p as int, i);
        }
    }
    Ok((imp, q3))
}

/// `import* 'module' path ';' struct* word*`, up to the end of input.
///
/// A module whose paths have a name each, whose structs have a field
/// each and whose function types in stack effects name at least one output
/// is read back from its tokens.
#[verifier::spinoff_prover]
#[verifier::rlimit(100)]
pub fn module_parser(input: &ParserInput) -> (r: Result<ASTModule, CompileError>)
    ensures
        r matches Ok(m) ==> (names_not_numeric(kinds(input)) ==> render_module(m) == kinds(input)),
        forall|m: ASTModule| #[trigger]
            module_fits(kinds(input), m) && names_not_numeric(kinds(input)) ==> r is Ok,
        r is Err ==> r->Err_0 is ParseError,
{
    let ghost ks = kinds(input);
    proof {
        lemma_kinds_len(input);
        assert(ks.subrange(0, 0) =~= Seq::<TokenView>::empty());
    }
    let mut imports: Vec<Spanned<ASTImport>> = Vec::new();
    let mut q: usize = 0;
    proof {
        assert forall|m: ASTModule| #[trigger] module_fits(ks, m) implies exists|ys: Seq<Spanned<ASTImport>>|
            #[trigger] imports_rest(ks, q as int, ys, m) by {
            lemma_module_parts(ks, m);
            assert(imports_rest(ks, q as int, m.imports@, m));
        }
    }
    while tag_at(input, q) == TokenTag::KeywordImport || tag_at(input, q) == TokenTag::Hash
        invariant
            ks == kinds(input),
            ks.len() == input.tokens@.len(),
            ks.len() <= usize::MAX,
            q <= ks.len(),
            render_imports(imports@) == ks.subrange(0, q as int),
            forall|m: ASTModule| #[trigger]
                module_fits(ks, m) ==> exists|ys: Seq<Spanned<ASTImport>>| #[trigger] imports_rest(ks, q as int, ys, m),
        decreases ks.len() - q,
    {
        proof {
            assert forall|m: ASTModule, ys: Seq<Spanned<ASTImport>>| #[trigger]
                module_fits(ks, m) && #[trigger] imports_rest(ks, q as int, ys, m) implies ys.len() >= 1
                && import_fits(ks, q as int, ys[0].value) && imports_rest(
                ks,
                q + render_import(ys[0].value).len(),
                ys.drop_first(),
                m,
            ) by {
                lemma_module_parts(ks, m);
                if ys.len() == 0 {
                    assert(token_is(ks, q as int, TokenView::KeywordModule));
                } else {
                    lemma_imports_first(ys);
                    lemma_at_split(ks, q as int, render_import(ys[0].value), render_imports(ys.drop_first()));
                }
            }
        }
        let (imp, q2) = match parse_import(input, q) {
            Ok(x) => x,
            Err(e) => {
                proof {
                    assert forall|m: ASTModule| #[trigger] module_fits(ks, m) && names_not_numeric(ks) implies false by {
                        let ys = choose|ys: Seq<Spanned<ASTImport>>| #[trigger] imports_rest(ks, q as int, ys, m);
                        assert(import_fits(ks, q as int, ys[0].value));
                    }
                }
                return Err(e);
            },
        };
        let ghost old = imports@;
        imports.push(Spanned::new(imp, span_of(input, q, q2)));
        proof {
            assert(imports@.drop_last() =~= old);
            lemma_concat(ks, 0, q as int, q2 as int);
            assert forall|m: ASTModule| #[trigger] module_fits(ks, m) implies exists|ys: Seq<Spanned<ASTImport>>|
                #[trigger] imports_rest(ks, q2 as int, ys, m) by {
                let ys = choose|ys: Seq<Spanned<ASTImport>>| #[trigger] imports_rest(ks, q as int, ys, m);
                assert(import_fits(ks, q as int, ys[0].value));
                assert(imports_rest(ks, q2 as int, ys.drop_first(), m));
            }
        }
        q = q2;
    }
    proof {
        assert forall|m: ASTModule| #[trigger] module_fits(ks, m) implies q == render_imports(m.imports@).len() by {
            lemma_module_parts(ks, m);
            let ys = choose|ys: Seq<Spanned<ASTImport>>| #[trigger] imports_rest(ks, q as int, ys, m);
            if ys.len() >= 1 {
                lemma_imports_first(ys);
                lemma_at_split(ks, q as int, render_import(ys[0].value), render_imports(ys.drop_first()));
                lemma_import_parts(ks, q as int, ys[0].value);
                lemma_at_index(ks, q as int, render_import(ys[0].value), 0);
            }
        }
    }
    let q0 = q;
    let q1 = match expect(input, q0, TokenTag::KeywordModule, "import or module was expected") {
        Ok(q1) => q1,
        Err(e) => {
            proof {
                assert forall|m: ASTModule| #[trigger] module_fits(ks, m) && names_not_numeric(ks) implies false by {
                    lemma_module_parts(ks, m);
                }
            }
            return Err(e);
        },
    };
    let (path, q2) = match parse_path(input, q1) {
        Ok(x) => x,
        Err(e) => {
            proof {
                assert forall|m: ASTModule| #[trigger] module_fits(ks, m) && names_not_numeric(ks) implies false by {
                    lemma_module_parts(ks, m);
                    lemma_path_shape(ks, q1 as int, m.name.value@);
                    assert(ks[q1 + 2 * 0] is Ident);
                }
            }
            return Err(e);
        },
    };
    proof {
        lemma_path_shape(ks, q1 as int, path@);
        assert forall|m: ASTModule| #[trigger] module_fits(ks, m) implies q2 == q1 + render_path(m.name.value@).len() by {
            lemma_module_parts(ks, m);
            lemma_path_shape(ks, q1 as int, m.name.value@);
            lemma_path_unique(ks, q1 as int, m.name.value@.len() as int, path@.len() as int);
        }
    }
    let q3 = match expect(input, q2, TokenTag::Semicolon, "; was expected after the module name") {
        Ok(q3) => q3,
        Err(e) => {
            proof {
                assert forall|m: ASTModule| #[trigger] module_fits(ks, m) && names_not_numeric(ks) implies false by {
                    lemma_module_parts(ks, m);
                }
            }
            return Err(e);
        },
    };
    let name = Spanned::new(path, span_of(input, q1, q2));
    proof {
        lemma_concat(ks, 0, q0 as int, q1 as int);
        lemma_concat(ks, 0, q1 as int, q2 as int);
        lemma_concat(ks, 0, q2 as int, q3 as int);
        assert(ks.subrange(q3 as int, q3 as int) =~= Seq::<TokenView>::empty());
    }
    let mut structs: Vec<Spanned<ASTStruct>> = Vec::new();
    q = q3;
    proof {
        assert forall|m: ASTModule| #[trigger] module_fits(ks, m) implies exists|ys: Seq<Spanned<ASTStruct>>|
            #[trigger] structs_rest(ks, q as int, ys, m) by {
            lemma_module_parts(ks, m);
            assert(structs_rest(ks, q as int, m.structs@, m));
        }
    }
    while tag_at(input, q) == TokenTag::KeywordStruct
        invariant
            ks == kinds(input),
            ks.len() == input.tokens@.len(),
            ks.len() <= usize::MAX,
            q3 <= q <= ks.len(),
            render_structs(structs@) == ks.subrange(q3 as int, q as int),
            forall|m: ASTModule| #[trigger]
                module_fits(ks, m) ==> exists|ys: Seq<Spanned<ASTStruct>>| #[trigger] structs_rest(ks, q as int, ys, m),
        decreases ks.len() - q,
    {
        proof {
            assert forall|m: ASTModule, ys: Seq<Spanned<ASTStruct>>| #[trigger]
                module_fits(ks, m) && #[trigger] structs_rest(ks, q as int, ys, m) implies ys.len() >= 1
                && struct_fits(ks, q as int, ys[0].value) && structs_rest(
                ks,
                q + render_struct(ys[0].value).len(),
                ys.drop_first(),
                m,
            ) by {
                lemma_module_parts(ks, m);
                if ys.len() == 0 {
                    lemma_words_start(ks, m);
                } else {
                    lemma_structs_first(ys);
                    lemma_at_split(ks, q as int, render_struct(ys[0].value), render_structs(ys.drop_first()));
                }
            }
        }
        let (st, q4) = match struct_parser(input, q) {
            Ok(x) => x,
            Err(e) => {
                proof {
                    assert forall|m: ASTModule| #[trigger] module_fits(ks, m) && names_not_numeric(ks) implies false by {
                        let ys = choose|ys: Seq<Spanned<ASTStruct>>| #[trigger] structs_rest(ks, q as int, ys, m);
                        assert(struct_fits(ks, q as int, ys[0].value));
                    }
                }
                return Err(e);
            },
        };
        let ghost old = structs@;
        structs.push(Spanned::new(st, span_of(input, q, q4)));
        proof {
            assert(structs@.drop_last() =~= old);
            lemma_concat(ks, q3 as int, q as int, q4 as int);
            assert forall|m: ASTModule| #[trigger] module_fits(ks, m) implies exists|ys: Seq<Spanned<ASTStruct>>|
                #[trigger] structs_rest(ks, q4 as int, ys, m) by {
                let ys = choose|ys: Seq<Spanned<ASTStruct>>| #[trigger] structs_rest(ks, q as int, ys, m);
                assert(struct_fits(ks, q as int, ys[0].value));
                assert(structs_rest(ks, q4 as int, ys.drop_first(), m));
            }
        }
        q = q4;
    }
    let q5 = q;
    proof {
        assert(ks.subrange(q5 as int, q5 as int) =~= Seq::<TokenView>::empty());
        assert forall|m: ASTModule| #[trigger] module_fits(ks, m) && names_not_numeric(ks) implies exists|
            ys: Seq<Spanned<ASTWord>>,
        | #[trigger] words_rest(ks, q as int, ys, m) by {
            lemma_module_parts(ks, m);
            let ys = choose|ys: Seq<Spanned<ASTStruct>>| #[trigger] structs_rest(ks, q as int, ys, m);
            if ys.len() >= 1 {
                lemma_structs_first(ys);
                lemma_at_split(ks, q as int, render_struct(ys[0].value), render_structs(ys.drop_first()));
                lemma_struct_parts(ks, q as int, ys[0].value);
            }
            assert(words_rest(ks, q as int, m.words@, m));
        }
    }
    let mut words: Vec<Spanned<ASTWord>> = Vec::new();
    while tag_at(input, q) == TokenTag::KeywordDef || tag_at(input, q) == TokenTag::Hash
        invariant
            ks == kinds(input),
            ks.len() == input.tokens@.len(),
            ks.len() <= usize::MAX,
            q5 <= q <= ks.len(),
            names_not_numeric(ks) ==> render_words(words@) == ks.subrange(q5 as int, q as int),
            forall|m: ASTModule| #[trigger]
                module_fits(ks, m) && names_not_numeric(ks) ==> exists|ys: Seq<Spanned<ASTWord>>| #[trigger] words_rest(
                    ks,
                    q as int,
                    ys,
                    m,
                ),
        decreases ks.len() - q,
    {
        proof {
            assert forall|m: ASTModule, ys: Seq<Spanned<ASTWord>>| #[trigger]
                module_fits(ks, m) && names_not_numeric(ks) && #[trigger] words_rest(ks, q as int, ys, m) implies ys.len() >= 1
                && word_fits(ks, q as int, ys[0].value) && words_rest(
                ks,
                q + render_word(ys[0].value).len(),
                ys.drop_first(),
                m,
            ) by {
                if ys.len() == 0 {
                    assert(q == ks.len());
                } else {
                    lemma_words_first(ys);
                    lemma_at_split(ks, q as int, render_word(ys[0].value), render_words(ys.drop_first()));
                }
            }
        }
        let (word, q6) = match word_parser(input, q) {
            Ok(x) => x,
            Err(e) => {
                proof {
                    assert forall|m: ASTModule| #[trigger] module_fits(ks, m) && names_not_numeric(ks) implies false by {
                        let ys = choose|ys: Seq<Spanned<ASTWord>>| #[trigger] words_rest(ks, q as int, ys, m);
                        assert(word_fits(ks, q as int, ys[0].value));
                    }
                }
                return Err(e);
            },
        };
        let ghost old = words@;
        words.push(Spanned::new(word, span_of(input, q, q6)));
        proof {
            assert(words@.drop_last() =~= old);
            lemma_concat(ks, q5 as int, q as int, q6 as int);
            assert forall|m: ASTModule| #[trigger] module_fits(ks, m) && names_not_numeric(ks) implies exists|
                ys: Seq<Spanned<ASTWord>>,
            | #[trigger] words_rest(ks, q6 as int, ys, m) by {
                let ys = choose|ys: Seq<Spanned<ASTWord>>| #[trigger] words_rest(ks, q as int, ys, m);
                assert(word_fits(ks, q as int, ys[0].value));
                assert(words_rest(ks, q6 as int, ys.drop_first(), m));
            }
        }
        q = q6;
    }
    if q < input.tokens.len() {
        proof {
            assert forall|m: ASTModule| #[trigger] module_fits(ks, m) && names_not_numeric(ks) implies false by {
                let ys = choose|ys: Seq<Spanned<ASTWord>>| #[trigger] words_rest(ks, q as int, ys, m);
                if ys.len() >= 1 {
                    lemma_words_first(ys);
                    lemma_at_split(ks, q as int, render_word(ys[0].value), render_words(ys.drop_first()));
                    lemma_word_head(ks, q as int, ys[0].value);
                    lemma_at_index(ks, q as int, render_word(ys[0].value), 0);
                }
            }
        }
        return Err(error_at(input, q, "end of input was expected"));
    }
    let m = ASTModule { name, imports, structs, words };
    proof {
        lemma_concat(ks, 0, q3 as int, q5 as int);
        lemma_concat(ks, 0, q5 as int, q as int);
        assert(ks.subrange(0, ks.len() as int) =~= ks);
    }
    Ok(m)
}

/// Parses the tokens of one source into a module.
///
/// On success the module, written back as tokens, is exactly the input
/// (names are never all digits, so field numbers and names do not mix).
/// Every module whose paths have a name each, whose structs have a field
/// each and whose function types in stack effects name at least one
/// output, written as tokens, parses. On failure one parse error is
/// returned, at the token where parsing stopped.
pub fn parse(input: ParserInput) -> (r: Result<ParseResult, Vec<CompileError>>)
    ensures
        r matches Ok(res) ==> (names_not_numeric(token_kinds(input.tokens@)) ==> render_module(
            res.ast,
        ) == token_kinds(input.tokens@)),
        forall|m: ASTModule| #[trigger]
            module_fits(token_kinds(input.tokens@), m) && names_not_numeric(token_kinds(input.tokens@)) ==> r is Ok,
        r matches Err(errors) ==> errors@.len() == 1 && errors@[0] is ParseError,
{
    let r = module_parser(&input);
    assert(kinds(&input) == token_kinds(input.tokens@));
    match r {
        Ok(ast) => Ok(ParseResult { ast }),
        Err(e) => {
            let mut errors: Vec<CompileError> = Vec::new();
            errors.push(e);
            Err(errors)
        },
    }
}

} // verus!
