//! The parse stage: reads the entrypoint and every module it imports, and
//! parses them into one program.
use vstd::prelude::*;

use crate::common::{CompileContext, CompileTarget, DottedPath, SourceId, Spanned};
use crate::error::{CompileError, Diagnostic, DiagnosticKind, Diagnostics};
use crate::fs::{FileSystem, Module};
use crate::pipeline::{Stage, StageResult};
use crate::stages::parse::ast::{ASTAttribute, ASTImport, ASTModule, ASTProgram, ASTWord, render_module};
use crate::stages::parse::filter_target::{
    filter_module_imports, filter_module_words, import_attrs, imports_filtered, is_target_attribute,
    kept_positions, lemma_positions_bounds, lemma_target_errors_append, strip_targets, stripped_import,
    stripped_word, target_errors, word_attrs, words_filtered,
};
use crate::stages::parse::grammar::module_fits;
use crate::stages::parse::lexer::{
    LexInput, TokenView, classify, is_ident_lexeme, lemma_lexeme_errors_empty, lemma_lexemes_bounds, lex, lexeme_errors,
    lexeme_ok, lexemes,
};
use crate::stages::parse::parser::{ParserInput, names_not_numeric, parse, token_kinds};
use crate::text::{all_digits, copy_string, is_digit, join_seq, join_strings, same_text, string_extend};

verus! {

/// The names of the standard library modules that come with the compiler.
pub open spec fn is_std_module(name: Seq<char>) -> bool {
    ||| name == "std.intrinsics"@
    ||| name == "std.stack"@
    ||| name == "std.math"@
    ||| name == "std.cfg"@
    ||| name == "std.u8"@
    ||| name == "std.u16"@
    ||| name == "std.bool"@
}

/// The sources of the standard library modules.
pub const STD_INTRINSICS: &'static str = "module std.intrinsics;
#[builtin] def add<T>(T, T -- T) end
#[builtin] def sub<T>(T, T -- T) end
#[builtin] def mul<T>(T, T -- T) end
#[builtin] def div<T>(T, T -- T) end
";

pub const STD_STACK: &'static str = "module std.stack;
#[builtin] def drop<T>(T -- ) end
#[builtin] def dup<T>(T -- T, T) end
#[builtin] def swap<A, B>(A, B -- B, A) end
#[builtin] def over<A, B>(A, B -- A, B, A) end
#[builtin] def rotate_left<A, B, C>(A, B, C -- B, C, A) end
#[builtin] def rotate_right<A, B, C>(A, B, C -- C, A, B) end
#[builtin] def call<...S, ...R>(...S, |...S -- ...R| -- ...R) end
";

pub const STD_MATH: &'static str = "module std.math;
#[builtin] def add<T>(T, T -- T) end
#[builtin] def sub<T>(T, T -- T) end
#[builtin] def mul<T>(T, T -- T) end
#[builtin] def div<T>(T, T -- T) end
#[builtin] def eq<T>(T, T -- bool) end
#[builtin] def gt<T>(T, T -- bool) end
#[builtin] def lt<T>(T, T -- bool) end
";

pub const STD_CFG: &'static str = "module std.cfg;
#[builtin] def if<...S, ...R>(...S, bool, |...S -- ...R|, |...S -- ...R| -- ...R) end
#[builtin] def while<...S>(...S, |...S -- ...S, bool|, |...S -- ...S| -- ...S) end
";

pub const STD_U8: &'static str = "module std.u8;
#[builtin] def add(u8, u8 -- u8) end
#[builtin] def sub(u8, u8 -- u8) end
#[builtin] def mul(u8, u8 -- u8) end
#[builtin] def div(u8, u8 -- u8) end
#[builtin] def eq(u8, u8 -- bool) end
#[builtin] def gt(u8, u8 -- bool) end
#[builtin] def lt(u8, u8 -- bool) end
";

pub const STD_U16: &'static str = "module std.u16;
#[builtin] def add(u16, u16 -- u16) end
#[builtin] def sub(u16, u16 -- u16) end
#[builtin] def mul(u16, u16 -- u16) end
#[builtin] def div(u16, u16 -- u16) end
#[builtin] def eq(u16, u16 -- bool) end
#[builtin] def gt(u16, u16 -- bool) end
#[builtin] def lt(u16, u16 -- bool) end
";

pub const STD_BOOL: &'static str = "module std.bool;
#[builtin] def eq(bool, bool -- bool) end
";

/// The texts of the standard library modules.
pub open spec fn std_texts() -> Seq<Seq<char>> {
    seq![STD_INTRINSICS@, STD_STACK@, STD_MATH@, STD_CFG@, STD_U8@, STD_U16@, STD_BOOL@]
}

/// The source of a standard library module.
fn std_source(name: &str) -> (r: Option<(&'static str, &'static str)>)
    ensures
        r is Some <==> is_std_module(name@),
        r matches Some((_, c)) ==> std_texts().contains(c@),
{
    if same_text(name, "std.intrinsics") {
        proof {
            assert(std_texts()[0] == STD_INTRINSICS@);
        }
        Some(("stdlib/intrinsics.by", STD_INTRINSICS))
    }     else if same_text(name, "std.stack") {
        proof {
            assert(std_texts()[1] == STD_STACK@);
        }
        Some(("stdlib/stack.by", STD_STACK))
    }     else if same_text(name, "std.math") {
        proof {
            assert(std_texts()[2] == STD_MATH@);
        }
        Some(("stdlib/math.by", STD_MATH))
    }     else if same_text(name, "std.cfg") {
        proof {
            assert(std_texts()[3] == STD_CFG@);
        }
        Some(("stdlib/cfg.by", STD_CFG))
    }     else if same_text(name, "std.u8") {
        proof {
            assert(std_texts()[4] == STD_U8@);
        }
        Some(("stdlib/u8.by", STD_U8))
    }     else if same_text(name, "std.u16") {
        proof {
            assert(std_texts()[5] == STD_U16@);
        }
        Some(("stdlib/u16.by", STD_U16))
    }     else if same_text(name, "std.bool") {
        proof {
            assert(std_texts()[6] == STD_BOOL@);
        }
        Some(("stdlib/bool.by", STD_BOOL))
    } else {
        None
    }
}

/// The standard library module named `name`, if there is one.
pub fn std_module(name: &str) -> (r: Option<Module>)
    ensures
        r is Some <==> is_std_module(name@),
        r matches Some(m) ==> m.name@ == name@ && std_texts().contains(m.content@),
{
    match std_source(name) {
        Some((path, content)) => Some(
            Module {
                name: String::from_str(name),
                content: String::from_str(content),
                absolute: String::from_str(path),
            },
        ),
        None => None,
    }
}

/// Where an import is read from.
pub enum ImportSource {
    /// A module of the standard library.
    Builtin(Module),
    /// A file of the program, by path.
    File(String),
    /// A name under `std` that the standard library does not have.
    Unknown,
}

/// Whether a path starts with the segment `std`.
pub open spec fn is_std_path(name: Seq<Seq<char>>) -> bool {
    name.len() > 0 && name[0] == "std"@
}

/// `a.b.c` is read from the file `a/b/c.by`; names under `std` come with
/// the compiler.
pub fn import_source(name: &DottedPath) -> (r: ImportSource)
    ensures
        is_std_path(name@) && is_std_module(join_seq(name@, '.')) ==> (r matches ImportSource::Builtin(
            m,
        ) && m.name@ == join_seq(name@, '.')),
        r matches ImportSource::Builtin(m) ==> std_texts().contains(m.content@),
        is_std_path(name@) && !is_std_module(join_seq(name@, '.')) ==> r is Unknown,
        !is_std_path(name@) ==> (r matches ImportSource::File(p) && p@ == join_seq(name@, '/')
            + ".by"@),
{
    if name.starts_with_segment("std") {
        let dotted = name.to_dotted_string();
        match std_module(dotted.as_str()) {
            Some(m) => ImportSource::Builtin(m),
            None => ImportSource::Unknown,
        }
    } else {
        let mut path = join_strings(&name.0, '/');
        string_extend(&mut path, ".by");
        ImportSource::File(path)
    }
}

/// A stripped attribute list holds no target attribute.
pub proof fn lemma_strip_targets_clean(attrs: Seq<Spanned<crate::stages::parse::ast::ASTAttribute>>)
    ensures
        forall|i: int|
            0 <= i < strip_targets(attrs).len() ==> !is_target_attribute(
                #[trigger] strip_targets(attrs)[i].value,
            ),
    decreases attrs.len(),
{
    if attrs.len() > 0 {
        lemma_strip_targets_clean(attrs.drop_last());
        let s = strip_targets(attrs.drop_last());
        if !is_target_attribute(attrs.last().value) {
            assert forall|i: int| 0 <= i < s.push(attrs.last()).len() implies !is_target_attribute(
                #[trigger] s.push(attrs.last())[i].value,
            ) by {
                if i < s.len() {
                    assert(s.push(attrs.last())[i] == s[i]);
                }
            }
        }
    }
}

/// No import and no word of the module carries a target attribute.
pub open spec fn free_of_targets(m: ASTModule) -> bool {
    &&& forall|i: int, j: int|
        0 <= i < m.imports@.len() && 0 <= j < m.imports@[i].value.attributes@.len()
            ==> !is_target_attribute(#[trigger] m.imports@[i].value.attributes@[j].value)
    &&& forall|i: int, j: int|
        0 <= i < m.words@.len() && 0 <= j < m.words@[i].value.attributes@.len()
            ==> !is_target_attribute(#[trigger] m.words@[i].value.attributes@[j].value)
}

/// The diagnostics the parse stage reports.
pub open spec fn is_parse_stage_error(e: CompileError) -> bool {
    ||| e is FileNotFound
    ||| e is ImportError
    ||| e is UnexpectedToken
    ||| e is ParseError
    ||| e is InvalidAttribute
}

/// Every diagnostic is an error of the parse stage, and the diagnostics are
/// fatal exactly when there is one.
pub open spec fn parse_stage_diagnostics(d: Diagnostics) -> bool {
    &&& d.fatal == (d.errors@.len() > 0)
    &&& forall|i: int|
        0 <= i < d.errors@.len() ==> (#[trigger] d.errors@[i]).kind == DiagnosticKind::Error
            && is_parse_stage_error(d.errors@[i].error)
}

/// The kinds of the tokens a source is written with, where every lexeme
/// stands for a token.
pub open spec fn source_kinds(s: Seq<char>) -> Seq<TokenView> {
    lexemes(s, 0).map_values(|l: (int, int)| classify(s.subrange(l.0, l.1))->Some_0)
}

/// Every lexeme of the source stands for a token.
pub open spec fn source_lexes(s: Seq<char>) -> bool {
    forall|k: int| 0 <= k < lexemes(s, 0).len() ==> lexeme_ok(s, #[trigger] lexemes(s, 0)[k])
}

/// `m` is module `ast` as kept for `target`: its imports and words for the
/// target, without their target attributes, the rest unchanged; `errors`
/// report the bad target attributes of its imports, then of its words.
pub open spec fn kept_module(ast: ASTModule, m: ASTModule, target: CompileTarget, errors: Seq<Diagnostic>) -> bool {
    &&& m.name == ast.name
    &&& m.structs == ast.structs
    &&& imports_filtered(ast.imports@, m.imports@, target)
    &&& words_filtered(ast.words@, m.words@, target)
    &&& target_errors(import_attrs(ast.imports@) + word_attrs(ast.words@), errors)
}

/// `m` is kept for `target` from a module written with the tokens `ks`.
pub open spec fn module_for_target(ks: Seq<TokenView>, target: CompileTarget, m: ASTModule, errors: Seq<Diagnostic>) -> bool {
    exists|ast: ASTModule| render_module(ast) == ks && #[trigger] kept_module(ast, m, target, errors)
}

/// A lexed name is never all digits: it starts with a letter or `_`.
pub proof fn lemma_source_names(s: Seq<char>)
    requires
        source_lexes(s),
    ensures
        names_not_numeric(source_kinds(s)),
{
    let ks = source_kinds(s);
    lemma_lexemes_bounds(s, 0);
    assert forall|i: int| 0 <= i < ks.len() implies (#[trigger] ks[i] matches TokenView::Ident(x) ==> !all_digits(x)) by {
        let l = lexemes(s, 0)[i];
        let w = s.subrange(l.0, l.1);
        assert(lexeme_ok(s, lexemes(s, 0)[i]));
        match ks[i] {
            TokenView::Ident(x) => {
                if is_ident_lexeme(w) {
                    assert(x == w);
                    assert(!is_digit(w[0]));
                }
            },
            _ => {},
        }
    }
}

/// The reports for bad target attributes are errors about attributes.
pub proof fn lemma_target_errors_kind(lists: Seq<Seq<Spanned<ASTAttribute>>>, errors: Seq<Diagnostic>)
    requires
        target_errors(lists, errors),
    ensures
        forall|k: int|
            0 <= k < errors.len() ==> (#[trigger] errors[k]).kind == DiagnosticKind::Error
                && errors[k].error is InvalidAttribute,
{
}

/// `m` is kept for `target` from the tokens of some source that lexes.
pub open spec fn from_source(target: CompileTarget, m: ASTModule) -> bool {
    exists|c: Seq<char>, e: Seq<Diagnostic>| source_lexes(c) && #[trigger] module_for_target(source_kinds(c), target, m, e)
}

/// A module as kept for a target carries no target attribute.
pub proof fn lemma_kept_module_free(ast: ASTModule, m: ASTModule, target: CompileTarget, errors: Seq<Diagnostic>)
    requires
        kept_module(ast, m, target, errors),
    ensures
        free_of_targets(m),
{
    let ki = kept_positions(import_attrs(ast.imports@), target);
    let kw = kept_positions(word_attrs(ast.words@), target);
    lemma_positions_bounds(import_attrs(ast.imports@), target);
    lemma_positions_bounds(word_attrs(ast.words@), target);
    assert forall|i: int, j: int|
        0 <= i < m.imports@.len() && 0 <= j < m.imports@[i].value.attributes@.len() implies !is_target_attribute(
        #[trigger] m.imports@[i].value.attributes@[j].value,
    ) by {
        assert(stripped_import(m.imports@[i], ast.imports@[ki[i]]));
        lemma_strip_targets_clean(ast.imports@[ki[i]].value.attributes@);
    }
    assert forall|i: int, j: int|
        0 <= i < m.words@.len() && 0 <= j < m.words@[i].value.attributes@.len() implies !is_target_attribute(
        #[trigger] m.words@[i].value.attributes@[j].value,
    ) by {
        assert(stripped_word(m.words@[i], ast.words@[kw[i]]));
        lemma_strip_targets_clean(ast.words@[kw[i]].value.attributes@);
    }
}

/// Reads the module a source holds, for `target`: the source is lexed and
/// parsed, then its imports and words are kept for the target.
///
/// A source with a lexeme that stands for no token gives nothing, and one
/// error for each such lexeme. A source whose tokens do not parse gives
/// nothing and the parse error. Otherwise it gives the module its tokens
/// write, as kept for the target, and the reports of bad target
/// attributes; every well-formed module written as the tokens parses.
#[verifier::spinoff_prover]
#[verifier::rlimit(30)]
pub fn parse_source(content: String, source_id: SourceId, target: CompileTarget, diagnostics: &mut Diagnostics) -> (r:
    Option<ASTModule>)
    requires
        parse_stage_diagnostics(*old(diagnostics)),
    ensures
        parse_stage_diagnostics(*final(diagnostics)),
        final(diagnostics).errors@.len() >= old(diagnostics).errors@.len(),
        final(diagnostics).errors@.subrange(0, old(diagnostics).errors@.len() as int) == old(diagnostics).errors@,
        ({
            let new = final(diagnostics).errors@.subrange(
                old(diagnostics).errors@.len() as int,
                final(diagnostics).errors@.len() as int,
            );
            let lexical = lexeme_errors(content@, source_id, lexemes(content@, 0));
            &&& !source_lexes(content@) ==> r is None && new.len() == lexical.len() && forall|k: int|
                0 <= k < new.len() ==> #[trigger] new[k] == (Diagnostic { kind: DiagnosticKind::Error, error: lexical[k] })
            &&& source_lexes(content@) ==> (forall|m0: ASTModule| #[trigger]
                module_fits(source_kinds(content@), m0) ==> r is Some)
            &&& r matches Some(m) ==> source_lexes(content@) && module_for_target(
                source_kinds(content@),
                target,
                m,
                new,
            )
            &&& (r is None && source_lexes(content@)) ==> new.len() == 1 && new[0].kind
                == DiagnosticKind::Error && new[0].error is ParseError
        }),
{
    let ghost s = content@;
    let ghost d0 = diagnostics.errors@;
    let content_len = content.unicode_len();
    let lexed = match lex(&LexInput { content, source_id }) {
        Ok(lexed) => lexed,
        Err(errors) => {
            let mut errors = errors;
            let ghost all = errors@;
            proof {
                assert(diagnostics.errors@.subrange(d0.len() as int, d0.len() as int) =~= Seq::<Diagnostic>::empty());
                assert(diagnostics.errors@.subrange(0, d0.len() as int) =~= d0);
            }
            while errors.len() > 0
                invariant
                    parse_stage_diagnostics(*diagnostics),
                    errors@.len() <= all.len(),
                    errors@ == all.skip(all.len() - errors@.len()),
                    all.len() > 0,
                    forall|i: int| 0 <= i < all.len() ==> (#[trigger] all[i]) is UnexpectedToken,
                    diagnostics.errors@.len() == d0.len() + (all.len() - errors@.len()),
                    diagnostics.errors@.subrange(0, d0.len() as int) == d0,
                    forall|k: int|
                        0 <= k < all.len() - errors@.len() ==> #[trigger] diagnostics.errors@[d0.len() + k]
                            == (Diagnostic { kind: DiagnosticKind::Error, error: all[k] }),
                decreases errors@.len(),
            {
                let ghost done = all.len() - errors@.len();
                assert(errors@[0] == all[done]);
                let e = errors.remove(0);
                let ghost before = diagnostics.errors@;
                diagnostics.emit_fatal(e);
                proof {
                    assert(errors@ =~= all.skip(all.len() - errors@.len()));
                    assert(diagnostics.errors@.subrange(0, d0.len() as int) =~= before.subrange(0, d0.len() as int));
                    assert forall|k: int| 0 <= k < all.len() - errors@.len() implies #[trigger] diagnostics.errors@[d0.len() + k]
                        == (Diagnostic { kind: DiagnosticKind::Error, error: all[k] }) by {
                        if k < done {
                            assert(diagnostics.errors@[d0.len() + k] == before[d0.len() + k]);
                        }
                    }
                }
            }
            proof {
                let new = diagnostics.errors@.subrange(d0.len() as int, diagnostics.errors@.len() as int);
                assert forall|k: int| 0 <= k < new.len() implies #[trigger] new[k] == (Diagnostic {
                    kind: DiagnosticKind::Error,
                    error: all[k],
                }) by {
                    assert(new[k] == diagnostics.errors@[d0.len() + k]);
                }
            }
            return None;
        },
    };
    proof {
        assert(token_kinds(lexed.tokens@) =~= source_kinds(s));
        lemma_source_names(s);
    }
    let ast = match parse(ParserInput { tokens: lexed.tokens, source_id, content_len }) {
        Ok(result) => result.ast,
        Err(errors) => {
            let mut errors = errors;
            let e = errors.remove(0);
            diagnostics.emit_fatal(e);
            proof {
                assert(diagnostics.errors@.subrange(0, d0.len() as int) =~= d0);
                assert(diagnostics.errors@.subrange(d0.len() as int, diagnostics.errors@.len() as int)[0]
                    == diagnostics.errors@[d0.len() as int]);
            }
            return None;
        },
    };
    let ghost ast_view = ast;
    let ASTModule { name, imports, structs, words } = ast;
    let ghost d1 = diagnostics.errors@;
    let imports = filter_module_imports(imports, target, diagnostics);
    let ghost d2 = diagnostics.errors@;
    let words = filter_module_words(words, target, diagnostics);
    let m = ASTModule { name, imports, structs, words };
    proof {
        let e1 = d2.subrange(d1.len() as int, d2.len() as int);
        let e2 = diagnostics.errors@.subrange(d2.len() as int, diagnostics.errors@.len() as int);
        lemma_target_errors_append(import_attrs(ast_view.imports@), word_attrs(ast_view.words@), e1, e2);
        let new = diagnostics.errors@.subrange(d0.len() as int, diagnostics.errors@.len() as int);
        assert(d1 == d0);
        assert(new =~= e1 + e2);
        assert(diagnostics.errors@.subrange(0, d0.len() as int) =~= d0) by {
            assert(diagnostics.errors@.subrange(0, d0.len() as int) =~= diagnostics.errors@.subrange(
                0,
                d2.len() as int,
            ).subrange(0, d0.len() as int));
        }
        assert(kept_module(ast_view, m, target, new));
        lemma_target_errors_kind(import_attrs(ast_view.imports@), e1);
        lemma_target_errors_kind(word_attrs(ast_view.words@), e2);
        assert forall|k: int| 0 <= k < diagnostics.errors@.len() implies (#[trigger] diagnostics.errors@[k]).kind
            == DiagnosticKind::Error && is_parse_stage_error(diagnostics.errors@[k].error) by {
            if k < d0.len() {
                assert(diagnostics.errors@[k] == d0[k]);
            } else if k < d2.len() {
                assert(diagnostics.errors@[k] == d2[k]);
                assert(d2[k] == e1[k - d0.len()]);
            } else {
                assert(diagnostics.errors@[k] == e2[k - d2.len()]);
            }
        }
    }
    Some(m)
}

/// A text the stage can have read: a file of the file system, or a module
/// of the standard library.
pub open spec fn read_text<F: FileSystem>(fs: F, c: Seq<char>) -> bool {
    ||| exists|path: Seq<char>| #[trigger] fs.spec_read(path) matches Some(md) && md.content@ == c
    ||| std_texts().contains(c)
}

/// `m` is the module a text writes, as kept for the target.
pub open spec fn from_text(c: Seq<char>, target: CompileTarget, m: ASTModule) -> bool {
    source_lexes(c) && exists|e: Seq<Diagnostic>| #[trigger] module_for_target(source_kinds(c), target, m, e)
}

/// `m` is the module of a text the stage can have read.
pub open spec fn from_read<F: FileSystem>(fs: F, target: CompileTarget, m: ASTModule) -> bool {
    exists|c: Seq<char>| read_text(fs, c) && #[trigger] from_text(c, target, m)
}

/// The path an import is reported under when it cannot be read.
pub open spec fn import_path_text(name: Seq<Seq<char>>) -> Seq<char> {
    if is_std_path(name) {
        join_seq(name, '.')
    } else {
        join_seq(name, '/') + ".by"@
    }
}

/// An import that cannot be read: a name under `std` the standard library
/// lacks, or a file the file system does not have.
pub open spec fn import_unreadable<F: FileSystem>(fs: F, name: Seq<Seq<char>>) -> bool {
    if is_std_path(name) {
        !is_std_module(join_seq(name, '.'))
    } else {
        fs.spec_read(join_seq(name, '/') + ".by"@) is None
    }
}

/// The import was reported as one that cannot be read, with its path and
/// span.
pub open spec fn import_reported(d: Seq<Diagnostic>, import: Spanned<ASTImport>) -> bool {
    exists|k: int| 0 <= k < d.len() && import_error_for((#[trigger] d[k]).error, import)
}

/// The error reports that the import cannot be read.
pub open spec fn import_error_for(e: CompileError, import: Spanned<ASTImport>) -> bool {
    e matches CompileError::ImportError { path, span } && span == import.span && path@ == import_path_text(
        import.value.name@,
    )
}

/// Every import of the module that cannot be read was reported.
pub open spec fn imports_reported<F: FileSystem>(fs: F, d: Seq<Diagnostic>, m: ASTModule) -> bool {
    forall|j: int|
        0 <= j < m.imports@.len() && import_unreadable(fs, (#[trigger] m.imports@[j]).value.name@) ==> import_reported(
            d,
            m.imports@[j],
        )
}

/// What was reported stays reported.
proof fn lemma_imports_reported_grow<F: FileSystem>(fs: F, a: Seq<Diagnostic>, b: Seq<Diagnostic>, m: ASTModule)
    requires
        imports_reported(fs, a, m),
        a.is_prefix_of(b),
    ensures
        imports_reported(fs, b, m),
{
    assert forall|j: int|
        0 <= j < m.imports@.len() && import_unreadable(fs, (#[trigger] m.imports@[j]).value.name@) implies import_reported(
        b,
        m.imports@[j],
    ) by {
        let k = choose|k: int| 0 <= k < a.len() && import_error_for((#[trigger] a[k]).error, m.imports@[j]);
        assert(b[k] == a[k]);
    }
}

/// Reads the entrypoint and, one after another, every module that a read
/// module imports; each module is read and parsed once.
#[derive(Debug)]
pub struct ParseStage<F: FileSystem> {
    pub file_loader: F,
}

/// Whether `path` is one of `visited`.
fn contains_path(visited: &Vec<String>, path: &str) -> (r: bool)
    ensures
        r == exists|i: int| 0 <= i < visited@.len() && (#[trigger] visited@[i])@ == path@,
{
    let mut i: usize = 0;
    while i < visited.len()
        invariant
            i <= visited@.len(),
            forall|j: int| 0 <= j < i ==> (#[trigger] visited@[j])@ != path@,
        decreases visited@.len() - i,
    {
        if same_text(visited[i].as_str(), path) {
            return true;
        }
        i += 1;
    }
    false
}

impl<F: FileSystem> Stage<CompileContext> for ParseStage<F> {
    type Input = String;

    type Output = ASTProgram;

    open spec fn runs(
        &self,
        input: Self::Input,
        context: CompileContext,
        after: Self,
        after_context: CompileContext,
        result: StageResult<Self::Output>,
    ) -> bool {
        &&& parse_stage_diagnostics(result.diagnostics)
        &&& (result.output is None <==> self.file_loader.spec_read(input@) is None)
        &&& (result.output is None ==> result.diagnostics.errors@.len() == 1 && (
        result.diagnostics.errors@[0].error matches CompileError::FileNotFound { path } && path@ == input@))
        &&& (result.output matches Some(p) ==> forall|i: int|
            0 <= i < p.modules@.len() ==> {
                &&& free_of_targets(#[trigger] p.modules@[i])
                &&& from_read(self.file_loader, context.target, p.modules@[i])
                &&& imports_reported(self.file_loader, result.diagnostics.errors@, p.modules@[i])
            })
        &&& (self.file_loader.spec_read(input@) is Some && result.diagnostics.errors@.len() == 0 ==> (
        result.output matches Some(p) && p.modules@.len() > 0 && from_text(
            self.file_loader.spec_read(input@)->0.content@,
            context.target,
            p.modules@[0],
        )))
        &&& after_context.target == context.target
        &&& context.sources@.is_prefix_of(after_context.sources@)
        &&& after == *self
    }

    fn execute(&mut self, input: String, context: &mut CompileContext) -> (r: StageResult<
        ASTProgram,
    >)
    {
        let ghost fs = self.file_loader;
        let mut diagnostics = Diagnostics::new();
        let entrypoint = match self.file_loader.read(input.as_str()) {
            Some(m) => m,
            None => {
                diagnostics.emit_fatal(CompileError::FileNotFound { path: input });
                return StageResult::new(None, diagnostics);
            },
        };
        let ghost entry_content = entrypoint.content@;
        assert(fs.spec_read(input@) matches Some(md) && md.content@ == entry_content);
        let target = context.target;
        let mut visited: Vec<String> = Vec::new();
        visited.push(copy_string(&entrypoint.absolute));
        let mut queue: Vec<Module> = Vec::new();
        queue.push(entrypoint);
        let mut modules: Vec<ASTModule> = Vec::new();
        let mut started = false;
        while queue.len() > 0
            invariant
                parse_stage_diagnostics(diagnostics),
                fs == self.file_loader,
                fs.spec_read(input@) matches Some(md) && md.content@ == entry_content,
                forall|q: int| 0 <= q < queue@.len() ==> read_text(fs, (#[trigger] queue@[q]).content@),
                !started ==> queue@.len() == 1 && queue@[0].content@ == entry_content && modules@.len() == 0
                    && diagnostics.errors@.len() == 0,
                started && diagnostics.errors@.len() == 0 ==> modules@.len() > 0 && from_text(
                    entry_content,
                    target,
                    modules@[0],
                ),
                forall|i: int| 0 <= i < modules@.len() ==> {
                    &&& free_of_targets(#[trigger] modules@[i])
                    &&& from_read(fs, target, modules@[i])
                    &&& imports_reported(fs, diagnostics.errors@, modules@[i])
                },
                context.target == target,
                target == old(context).target,
                old(context).sources@.is_prefix_of(context.sources@),
            decreases usize::MAX - visited@.len(), queue@.len(),
        {
            let ghost q_before = queue@;
            let module = queue.pop().unwrap();
            assert(read_text(fs, module.content@)) by {
                assert(module == q_before[q_before.len() - 1]);
            }
            let ghost first = !started;
            started = true;
            let ghost v0 = visited@.len();
            assert(visited@.len() <= usize::MAX) by {
                assert(visited.len() == visited@.len());
            }
            let ghost q0 = queue@.len();
            let ghost before_sources = context.sources@;
            let source_id = context.add_source(copy_string(&module.absolute), copy_string(&module.content));
            let ghost d_before = diagnostics.errors@;
            let ghost content = module.content@;
            proof {
                assert(context.sources@.subrange(0, old(context).sources@.len() as int)
                    =~= before_sources.subrange(0, old(context).sources@.len() as int));
            }
            let m = match parse_source(module.content, source_id, target, &mut diagnostics) {
                Some(m) => m,
                None => {
                    proof {
                        assert(d_before.is_prefix_of(diagnostics.errors@));
                        assert forall|i: int| 0 <= i < modules@.len() implies imports_reported(
                            fs,
                            diagnostics.errors@,
                            #[trigger] modules@[i],
                        ) by {
                            lemma_imports_reported_grow(fs, d_before, diagnostics.errors@, modules@[i]);
                        }
                        lemma_lexeme_errors_empty(content, source_id, lexemes(content, 0));
                        assert(diagnostics.errors@.len() > d_before.len());
                    }
                    continue;
                },
            };
            let ghost d_parsed = diagnostics.errors@;
            proof {
                let new = diagnostics.errors@.subrange(d_before.len() as int, diagnostics.errors@.len() as int);
                let ast = choose|ast: ASTModule|
                    render_module(ast) == source_kinds(content) && #[trigger] kept_module(ast, m, target, new);
                lemma_kept_module_free(ast, m, target, new);
                assert(module_for_target(source_kinds(content), target, m, new));
                assert(from_text(content, target, m));
                assert(from_read(fs, target, m));
                assert(d_before.is_prefix_of(diagnostics.errors@));
            }
            let imports = &m.imports;
            let mut i: usize = 0;
            while i < imports.len()
                invariant
                    parse_stage_diagnostics(diagnostics),
                    fs == self.file_loader,
                    i <= imports@.len(),
                    v0 <= visited@.len() <= usize::MAX,
                    visited@.len() - v0 == queue@.len() - q0,
                    forall|q: int| 0 <= q < queue@.len() ==> read_text(fs, (#[trigger] queue@[q]).content@),
                    d_parsed.is_prefix_of(diagnostics.errors@),
                    forall|j: int|
                        0 <= j < i && import_unreadable(fs, (#[trigger] imports@[j]).value.name@) ==> import_reported(
                            diagnostics.errors@,
                            imports@[j],
                        ),
                decreases imports@.len() - i,
            {
                let import = &imports[i];
                let ghost d_i = diagnostics.errors@;
                let ghost name = import.value.name@;
                match import_source(&import.value.name) {
                    ImportSource::Builtin(m) => {
                        assert(!import_unreadable(fs, name));
                        if visited.len() < usize::MAX && !contains_path(&visited, m.absolute.as_str()) {
                            visited.push(copy_string(&m.absolute));
                            let ghost qb = queue@;
                            queue.push(m);
                            proof {
                                assert forall|q: int| 0 <= q < queue@.len() implies read_text(fs, (#[trigger] queue@[q]).content@) by {
                                    if q < qb.len() {
                                        assert(queue@[q] == qb[q]);
                                    }
                                }
                            }
                        }
                    },
                    ImportSource::File(path) => {
                        match self.file_loader.read(path.as_str()) {
                            Some(m) => {
                                assert(!import_unreadable(fs, name));
                                assert(fs.spec_read(path@) matches Some(md) && md.content@ == m.content@);
                                if visited.len() < usize::MAX && !contains_path(&visited, m.absolute.as_str()) {
                                    visited.push(copy_string(&m.absolute));
                                    let ghost qb = queue@;
                                    queue.push(m);
                                    proof {
                                        assert forall|q: int| 0 <= q < queue@.len() implies read_text(fs, (#[trigger] queue@[q]).content@) by {
                                            if q < qb.len() {
                                                assert(queue@[q] == qb[q]);
                                            }
                                        }
                                    }
                                }
                            },
                            None => {
                                let e = CompileError::ImportError { path, span: import.span };
                                assert(import_error_for(e, *import));
                                diagnostics.emit_fatal(e);
                                assert(import_error_for(diagnostics.errors@[d_i.len() as int].error, *import));
                            },
                        }
                    },
                    ImportSource::Unknown => {
                        let e = CompileError::ImportError {
                            path: import.value.name.to_dotted_string(),
                            span: import.span,
                        };
                        assert(import_error_for(e, *import));
                        diagnostics.emit_fatal(e);
                        assert(import_error_for(diagnostics.errors@[d_i.len() as int].error, *import));
                    },
                }
                proof {
                    assert(d_i.is_prefix_of(diagnostics.errors@));
                    assert forall|j: int|
                        0 <= j < i + 1 && import_unreadable(fs, (#[trigger] imports@[j]).value.name@) implies import_reported(
                        diagnostics.errors@,
                        imports@[j],
                    ) by {
                        if j < i {
                            let k = choose|k: int| 0 <= k < d_i.len() && import_error_for((#[trigger] d_i[k]).error, imports@[j]);
                            assert(diagnostics.errors@[k] == d_i[k]);
                        } else {
                            assert(diagnostics.errors@[d_i.len() as int].error == diagnostics.errors@[d_i.len() as int].error);
                        }
                    }
                }
                i += 1;
            }
            let ghost before = modules@;
            modules.push(m);
            proof {
                assert(d_before.is_prefix_of(diagnostics.errors@));
                assert(imports_reported(fs, diagnostics.errors@, m));
                assert forall|i: int| 0 <= i < modules@.len() implies {
                    &&& free_of_targets(#[trigger] modules@[i])
                    &&& from_read(fs, target, modules@[i])
                    &&& imports_reported(fs, diagnostics.errors@, modules@[i])
                } by {
                    if i < before.len() {
                        assert(modules@[i] == before[i]);
                        lemma_imports_reported_grow(fs, d_before, diagnostics.errors@, modules@[i]);
                    }
                }
                if first && diagnostics.errors@.len() == 0 {
                    assert(content == entry_content);
                    assert(modules@[0] == m);
                }
                if !first && diagnostics.errors@.len() == 0 {
                    assert(d_before.len() == 0);
                    assert(modules@[0] == before[0]);
                }
            }
        }
        assert(started);
        assert(diagnostics.errors@.len() == 0 ==> modules@.len() > 0 && from_text(entry_content, target, modules@[0]));
        let result = StageResult::new(Some(ASTProgram { modules }), diagnostics);
        assert(result.output matches Some(p) ==> forall|i: int|
            0 <= i < p.modules@.len() ==> {
                &&& free_of_targets(#[trigger] p.modules@[i])
                &&& from_read(self.file_loader, target, p.modules@[i])
                &&& imports_reported(self.file_loader, result.diagnostics.errors@, p.modules@[i])
            });
        result
    }
}

} // verus!
