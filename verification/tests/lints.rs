use std::collections::HashMap;

use buyan::common::{CompileContext, CompileTarget};
use buyan::error::{CompileError, Diagnostic, DiagnosticKind};
use buyan::fs::{FileSystem, Module};
use buyan::lints::empty_word::EmptyWord;
use buyan::lints::unused_import::{uses_import, UnusedImport};
use buyan::lints::LintPass;
use buyan::pipeline::PipelineBuilder;
use buyan::stages::parse::stage::ParseStage;
use buyan::stages::semantic::collect_hir::CollectHIRStage;
use buyan::stages::semantic::collect_names::CollectNamesStage;
use buyan::stages::semantic::type_check::TypeCheckStage;

struct MemoryFiles {
    files: HashMap<String, String>,
}

impl FileSystem for MemoryFiles {
    fn read(&self, path: &str) -> Option<Module> {
        self.files.get(path).map(|content| Module {
            name: path.to_string(),
            content: content.clone(),
            absolute: path.to_string(),
        })
    }
}

/// The diagnostics of the checked program after the lints, and whether the
/// program came through.
fn lint(source: &str) -> (Vec<Diagnostic>, bool) {
    let files = [("app.by".to_string(), source.to_string())].into_iter().collect();
    let pipeline = PipelineBuilder::new("app.by".to_string(), CompileContext::new(CompileTarget::Interpreter));
    let pipeline = pipeline.stage(ParseStage { file_loader: MemoryFiles { files } });
    let pipeline = pipeline.stage(CollectNamesStage).stage(CollectHIRStage).stage(TypeCheckStage);
    let pipeline = pipeline.stage(LintPass::default().lint(EmptyWord).lint(UnusedImport::default()));
    let ok = pipeline.prev.is_some();
    (pipeline.diagnostics.errors, ok)
}

#[test]
fn warns_of_empty_words() {
    let (diagnostics, ok) = lint("module app; def main( -- ) end");
    assert!(ok);
    assert_eq!(diagnostics.len(), 1);
    assert_eq!(diagnostics[0].kind, DiagnosticKind::Warning);
    assert!(matches!(diagnostics[0].error, CompileError::EmptyWord { .. }));
}

#[test]
fn warns_of_unused_imports() {
    let (diagnostics, ok) = lint("import std.stack; module app; def main( -- u8) 1u8 end");
    assert!(ok);
    assert_eq!(diagnostics.len(), 1);
    assert_eq!(diagnostics[0].kind, DiagnosticKind::Warning);
    match &diagnostics[0].error {
        CompileError::UnusedImport { name, .. } => assert_eq!(name, "std.stack"),
        other => panic!("unexpected {other:?}"),
    }
}

#[test]
fn a_used_import_is_not_reported() {
    let (diagnostics, ok) =
        lint("import std.stack; module app; def main( -- u8) 1u8 2u8 std.stack.drop end");
    assert!(ok);
    assert!(diagnostics.is_empty(), "{diagnostics:?}");
}

#[test]
fn names_use_imports_by_segment() {
    assert!(uses_import("std.stack", "std.stack"));
    assert!(uses_import("std.stack.drop", "std.stack"));
    assert!(!uses_import("std.stacks", "std.stack"));
    assert!(!uses_import("std", "std.stack"));
}
