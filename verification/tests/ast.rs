use std::collections::HashMap;

use buyan::common::{CompileContext, CompileTarget, SourceId};
use buyan::error::{CompileError, Diagnostic, DiagnosticKind, Diagnostics};
use buyan::fs::{FileSystem, Module};
use buyan::pipeline::PipelineBuilder;
use buyan::stages::parse::ast::{ASTInstruction, ASTProgram, ASTStackEffectItem};
use buyan::stages::parse::dump::dump_program;
use buyan::stages::parse::stage::{ParseStage, parse_source};

struct MemoryFiles {
    files: HashMap<String, String>,
}

impl FileSystem for MemoryFiles {
    fn read(&self, path: &str) -> Option<Module> {
        self.files.get(path).map(|content| Module {
            name: path.to_string(),
            content: content.clone(),
            absolute: path.to_string(),
        })
    }
}

fn parse_files(files: &[(&str, &str)]) -> Result<ASTProgram, Vec<Diagnostic>> {
    let files = files.iter().map(|(p, c)| (p.to_string(), c.to_string())).collect();
    let pipeline = PipelineBuilder::new("app.by".to_string(), CompileContext::new(CompileTarget::Interpreter));
    let pipeline = pipeline.stage(ParseStage { file_loader: MemoryFiles { files } });
    match pipeline.dump() {
        Ok(_) => Ok(pipeline.prev.unwrap()),
        Err(errors) => Err(errors.clone()),
    }
}

fn assert_parse_err(result: Result<ASTProgram, Vec<Diagnostic>>, pred: impl Fn(&CompileError) -> bool) {
    let errors = match result {
        Ok(_) => panic!("parse stage did not fail"),
        Err(errors) => errors,
    };
    assert!(
        errors.iter().filter(|d| d.kind == DiagnosticKind::Error).map(|d| &d.error).any(pred),
        "error not found: {errors:?}"
    );
}

#[test]
fn ast_program() {
    let program = parse_files(&[
        (
            "app.by",
            r#"
        import dep;
        import deep.lib;
        import std.stack;
        module app;
        #[intrinsic]
        def main( -- u8) 1u8 dep.word end
        "#,
        ),
        ("dep.by", "module dep; def word( -- ) end"),
        ("deep/lib.by", "module deep.lib;"),
    ])
    .expect("parse failed");
    assert_eq!(program.modules.len(), 4);
    assert_eq!(program.modules[0].name.value.to_dotted_string(), "app");
}

#[test]
fn ast_generics() {
    let program = parse_files(&[(
        "app.by",
        r#"
        module app;
        def swap<...S, A, B>(...S, A, B -- ...S, B, A) end
        "#,
    )])
    .expect("parse failed");
    let word = &program.modules[0].words[0].value;
    assert_eq!(word.word_vars.len(), 3);
    assert_eq!(word.stack_effect.value.stack_in.len(), 3);
}

#[test]
fn ast_structs() {
    let program = parse_files(&[
        (
            "app.by",
            r#"
        import geometry;
        module app;
        struct Pair(u8, bool);
        def unpack(Pair -- u8, bool) Pair> end
        def field(Pair -- u8) Pair.0 end
        def qualified( -- geometry.Point) 1u8 2u8 >geometry.Point end
        def path( -- ) geometry.Point.0.tail end
        "#,
        ),
        ("geometry.by", "module geometry; struct Point(u8, u8);"),
    ])
    .expect("parse failed");
    let app = &program.modules[0];
    assert_eq!(app.structs.len(), 1);
    assert!(matches!(app.words[0].value.body[0].value, ASTInstruction::Unpack(_)));
    match &app.words[3].value.body[0].value {
        ASTInstruction::Call(path) => assert_eq!(path.to_dotted_string(), "geometry.Point.0.tail"),
        other => panic!("unexpected instruction {other:?}"),
    }
}

#[test]
fn ast_lambdas() {
    let program = parse_files(&[(
        "app.by",
        r#"
        module app;
        def apply(|u8 -- u8| -- ) end
        def main( -- ) |u8 -- u8| { 1u8 } apply end
        "#,
    )])
    .expect("parse failed");
    let app = &program.modules[0];
    assert!(matches!(
        app.words[0].value.stack_effect.value.stack_in[0].value,
        ASTStackEffectItem::Lambda { .. }
    ));
    assert!(matches!(app.words[1].value.body[0].value, ASTInstruction::Lambda { .. }));
}

#[test]
fn token() {
    assert_parse_err(parse_files(&[("app.by", "!")]), |e| matches!(e, CompileError::UnexpectedToken { .. }));
}

#[test]
fn syntax() {
    assert_parse_err(
        parse_files(&[("app.by", "module app; def main( -- ) end struct A(u8);")]),
        |e| matches!(e, CompileError::ParseError { .. }),
    );
}

#[test]
fn import() {
    assert_parse_err(parse_files(&[("app.by", "import missing; module app;")]), |e| {
        matches!(e, CompileError::ImportError { .. })
    });
}

#[test]
fn unknown_std_module_is_an_import_error() {
    assert_parse_err(parse_files(&[("app.by", "import std.nothing; module app;")]), |e| {
        matches!(e, CompileError::ImportError { path, .. } if path == "std.nothing")
    });
}

#[test]
fn missing_entrypoint_is_file_not_found() {
    assert_parse_err(parse_files(&[]), |e| matches!(e, CompileError::FileNotFound { path } if path == "app.by"));
}

#[test]
fn arrays_and_postfix_pack() {
    let program = parse_files(&[(
        "app.by",
        "module app; struct Inner(u8, u16); def main( -- [u8; 1], Inner) \"x\" 1u8 2u16 Inner< end",
    )])
    .expect("parse failed");
    let word = &program.modules[0].words[0].value;
    assert!(matches!(
        word.stack_effect.value.stack_out[0].value,
        ASTStackEffectItem::Array { size: 1, .. }
    ));
    assert!(matches!(word.body[3].value, ASTInstruction::PackPostfix(_)));
}

#[test]
fn target_attributes_filter_words() {
    let program = parse_files(&[(
        "app.by",
        r#"module app;
        #[target = "interpreter"] def a( -- ) end
        #[target = "z80-unknown-cpm"] def b( -- ) end
        def c( -- ) end"#,
    )])
    .expect("parse failed");
    let words = &program.modules[0].words;
    assert_eq!(words.len(), 2);
    assert_eq!(words[0].value.name.value, "a");
    assert!(words[0].value.attributes.is_empty());
    assert_eq!(words[1].value.name.value, "c");
}

#[test]
fn bad_target_attribute() {
    assert_parse_err(
        parse_files(&[("app.by", "module app; #[target = \"moon\"] def a( -- ) end")]),
        |e| matches!(e, CompileError::InvalidAttribute { reason, .. } if reason == "unknown target \"moon\";"),
    );
}

#[test]
fn dump_lists_words_and_instructions() {
    let source = "import std.stack; module app; struct P(u8, [u8; 2]); def swap2<A, ...S>(A, |...S -- u8| -- A) 1u8 \"s\" >P P> P< P.0 | -- u8| { 2u16 true } end";
    let program = parse_files(&[("app.by", source)]).unwrap();
    let text = dump_program(&program);
    assert!(text.contains("module \"app\"\n\n"), "{text}");
    assert!(text.contains("def swap2<A, S>(A, |...S -- u8| -- A)\n\t1\n\ts\n\t>P\n\tP>\n\tP<\n\tP.0\n\t| -- u8| { 2 true }\nend\n\n"), "{text}");
}

#[test]
fn function_type_without_outputs() {
    let program = parse_files(&[("app.by", "module app; def each(|u8 --| -- ) end")]).expect("parse failed");
    match &program.modules[0].words[0].value.stack_effect.value.stack_in[0].value {
        ASTStackEffectItem::Lambda { stack_effect } => {
            assert_eq!(stack_effect.value.stack_in.len(), 1);
            assert_eq!(stack_effect.value.stack_out.len(), 0);
        }
        other => panic!("unexpected item {other:?}"),
    }
}

#[test]
fn parse_source_keeps_words_for_the_target() {
    let mut diagnostics = Diagnostics::new();
    let module = parse_source(
        r#"module app;
        #[target = "interpreter"] def a( -- ) end
        #[target = "z80-unknown-cpm"] def b( -- ) end
        #[target = "moon"] def c( -- ) end
        #[inline] def d( -- ) end"#
            .to_string(),
        SourceId(0),
        CompileTarget::Interpreter,
        &mut diagnostics,
    )
    .expect("no module");
    let names: Vec<&str> = module.words.iter().map(|w| w.value.name.value.as_str()).collect();
    assert_eq!(names, vec!["a", "d"]);
    assert!(module.words[0].value.attributes.is_empty());
    assert_eq!(module.words[1].value.attributes.len(), 1);
    assert_eq!(diagnostics.errors.len(), 1);
    assert!(matches!(
        &diagnostics.errors[0].error,
        CompileError::InvalidAttribute { name, reason, .. } if name == "target" && reason == "unknown target \"moon\";"
    ));
    assert!(diagnostics.fatal);
}

#[test]
fn parse_source_reports_lexical_errors() {
    let mut diagnostics = Diagnostics::new();
    let module = parse_source("module app; ! ?".to_string(), SourceId(2), CompileTarget::Interpreter, &mut diagnostics);
    assert!(module.is_none());
    assert_eq!(diagnostics.errors.len(), 2);
    assert!(diagnostics.errors.iter().all(|d| matches!(d.error, CompileError::UnexpectedToken { .. })));
}

#[test]
fn parse_source_reports_one_parse_error() {
    let mut diagnostics = Diagnostics::new();
    let module = parse_source("module app; def".to_string(), SourceId(0), CompileTarget::Interpreter, &mut diagnostics);
    assert!(module.is_none());
    assert_eq!(diagnostics.errors.len(), 1);
    assert!(matches!(diagnostics.errors[0].error, CompileError::ParseError { .. }));
}
