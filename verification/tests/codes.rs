use std::collections::HashMap;

use buyan::common::{CompileContext, CompileTarget};
use buyan::error::{Diagnostic, DiagnosticKind};
use buyan::fs::{FileSystem, Module};
use buyan::lints::empty_word::EmptyWord;
use buyan::lints::unused_import::UnusedImport;
use buyan::lints::LintPass;
use buyan::pipeline::PipelineBuilder;
use buyan::stages::parse::stage::ParseStage;
use buyan::stages::semantic::collect_hir::CollectHIRStage;
use buyan::stages::semantic::collect_names::CollectNamesStage;
use buyan::stages::semantic::type_check::TypeCheckStage;

struct MemoryFiles {
    files: HashMap<String, String>,
}

impl FileSystem for MemoryFiles {
    fn read(&self, path: &str) -> Option<Module> {
        self.files.get(path).map(|content| Module {
            name: path.to_string(),
            content: content.clone(),
            absolute: path.to_string(),
        })
    }
}

/// Every diagnostic of the front end and the lints for one source.
fn diagnostics(source: &str) -> Vec<Diagnostic> {
    let files = [("app.by".to_string(), source.to_string())].into_iter().collect();
    PipelineBuilder::new("app.by".to_string(), CompileContext::new(CompileTarget::Interpreter))
        .stage(ParseStage { file_loader: MemoryFiles { files } })
        .stage(CollectNamesStage)
        .stage(CollectHIRStage)
        .stage(TypeCheckStage)
        .stage(LintPass::default().lint(EmptyWord).lint(UnusedImport::default()))
        .diagnostics
        .errors
}

fn has(source: &str, kind: DiagnosticKind, code: u16) -> bool {
    diagnostics(source).iter().any(|d| d.kind == kind && d.error.code() == code)
}

fn assert_error(source: &str, code: u16) {
    assert!(has(source, DiagnosticKind::Error, code), "B{code:04} not reported: {:?}", diagnostics(source));
}

#[test]
fn b0002_file_not_found() {
    let files = HashMap::new();
    let pipeline = PipelineBuilder::new("missing.by".to_string(), CompileContext::new(CompileTarget::Interpreter))
        .stage(ParseStage { file_loader: MemoryFiles { files } });
    assert!(pipeline.prev.is_none());
    assert!(pipeline.diagnostics.errors.iter().any(|d| d.error.code() == 2));
}

#[test]
fn b0003_import_error() {
    assert_error("import missing;\n\nmodule app;\n", 3);
}

#[test]
fn b0004_unexpected_token() {
    assert_error("module app;\n!\n", 4);
}

#[test]
fn b0005_parse_error() {
    assert_error("module app;\n\ndef main( -- )\n    1u8\n", 5);
}

#[test]
fn b0006_invalid_attribute() {
    assert_error("module app;\n\n#[inline]\ndef main( -- u8) 1u8 end\n", 6);
}

#[test]
fn b0007_symbol_already_exists() {
    assert_error("module app;\n\ndef value( -- u8) 1u8 end\ndef value( -- u8) 2u8 end\n", 7);
}

#[test]
fn b0008_symbol_not_found() {
    assert_error("module app;\n\ndef main(Missing -- Missing) end\n", 8);
}

#[test]
fn b0009_field_read_on_a_word() {
    assert_error("module app;\n\ndef value( -- u8) 1u8 end\ndef main( -- u8) value.0 end\n", 9);
}

#[test]
fn b0010_recursive_struct() {
    assert_error("module app;\n\nstruct A(B);\nstruct B(A);\n", 10);
}

#[test]
fn b0011_invalid_field_index() {
    assert_error("module app;\n\nstruct Pair(u8, u16);\n\ndef first(Pair -- u8) Pair.2 end\n", 11);
}

#[test]
fn b0012_invalid_stack() {
    assert_error("import std.u8;\n\nmodule app;\n\ndef main( -- u8)\n    1u8\n    \"two\"\n    std.u8.add\nend\n", 12);
}

#[test]
fn b0013_empty_word_is_a_warning() {
    assert!(has("module app;\n\ndef main( -- ) end\n", DiagnosticKind::Warning, 13));
    assert!(!has("module app;\n\ndef main( -- ) end\n", DiagnosticKind::Error, 13));
}

#[test]
fn b0014_unused_import_is_a_warning() {
    assert!(has("import std.stack;\n\nmodule app;\n\ndef main( -- u8) 1u8 end\n", DiagnosticKind::Warning, 14));
}

#[test]
fn b0016_cannot_infer_type() {
    assert_error("module app;\n\n#[builtin]\ndef make<T>( -- T) end\n\ndef main( -- u8)\n    make\nend\n", 16);
}

#[test]
fn b0016_inferred_from_an_input() {
    assert!(diagnostics("module app;\n\n#[builtin]\ndef identity<T>(T -- T) end\n\ndef main( -- u8)\n    1u8\n    identity\nend\n")
        .iter()
        .all(|d| d.kind == DiagnosticKind::Warning));
}

#[test]
fn b0017_invalid_string_literal() {
    assert_error("module app;\n\ndef main( -- [u8; 6])\n    \"\u{41f}\u{440}\u{438}\u{432}\u{435}\u{442}\"\nend\n", 17);
}
