//! Warns of words without instructions.
use vstd::prelude::*;

use crate::error::{CompileError, Diagnostic, DiagnosticKind, Diagnostics};
use crate::lints::Lint;
use crate::stages::semantic::context::HIRContext;
use crate::common::Spanned;
use crate::stages::semantic::hir::{HIRInstruction, HIRModule, HIRProgram, HIRStruct, HIRWord, HIRWordAttribute};
use crate::stages::semantic::type_check::is_builtin;

verus! {

/// Warns of a word that has no instruction and is not built in.
pub struct EmptyWord;

impl Lint for EmptyWord {
    /// Warns of the word where it is empty and not built in.
    open spec fn word_step(
        &self,
        ctx: &HIRContext,
        word: &HIRWord,
        before: Diagnostics,
        after: Self,
        after_diagnostics: Diagnostics,
    ) -> bool {
        &&& after == *self
        &&& after_diagnostics.fatal == before.fatal
        &&& after_diagnostics.errors@ == if word.body@.len() == 0 && !word.attributes@.contains(
            HIRWordAttribute::BuiltIn,
        ) {
            before.errors@.push(
                Diagnostic {
                    kind: DiagnosticKind::Warning,
                    error: CompileError::EmptyWord { span: word.signature.name.span },
                },
            )
        } else {
            before.errors@
        }
    }

    fn check_program(&mut self, ctx: &HIRContext, program: &HIRProgram, diagnostics: &mut Diagnostics) {
    }

    fn check_module(&mut self, ctx: &HIRContext, module: &HIRModule, diagnostics: &mut Diagnostics) {
    }

    fn check_struct(&mut self, ctx: &HIRContext, hir_struct: &HIRStruct, diagnostics: &mut Diagnostics) {
    }

    fn check_instruction(
        &mut self,
        ctx: &HIRContext,
        instruction: &Spanned<HIRInstruction>,
        diagnostics: &mut Diagnostics,
    ) {
    }

    fn finish(&mut self, ctx: &HIRContext, program: &HIRProgram, diagnostics: &mut Diagnostics) {
    }

    fn check_word(&mut self, ctx: &HIRContext, word: &HIRWord, diagnostics: &mut Diagnostics)
        ensures
            word.body@.len() == 0 && !word.attributes@.contains(HIRWordAttribute::BuiltIn)
                ==> final(diagnostics).errors@ == old(diagnostics).errors@.push(
                (Diagnostic {
                    kind: DiagnosticKind::Warning,
                    error: CompileError::EmptyWord { span: word.signature.name.span },
                }),
            ),
            !(word.body@.len() == 0 && !word.attributes@.contains(HIRWordAttribute::BuiltIn))
                ==> *final(diagnostics) == *old(diagnostics),
    {
        if word.body.len() == 0 && !is_builtin(word) {
            diagnostics.emit_warning(CompileError::EmptyWord { span: word.signature.name.span });
        }
    }
}

} // verus!
