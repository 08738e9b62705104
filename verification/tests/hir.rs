use std::collections::HashMap;

use buyan::common::{CompileContext, CompileTarget, DottedPath};
use buyan::error::{CompileError, Diagnostic, DiagnosticKind};
use buyan::fs::{FileSystem, Module};
use buyan::pipeline::PipelineBuilder;
use buyan::stages::parse::ast::ASTProgram;
use buyan::stages::parse::stage::ParseStage;
use buyan::stages::semantic::collect_hir::CollectHIRStage;
use buyan::stages::semantic::collect_names::CollectNamesStage;
use buyan::stages::semantic::hir::HIRProgram;
use buyan::stages::semantic::type_check::TypeCheckStage;
use buyan::stages::semantic::context::{HIRContext, SymbolKind};

struct MemoryFiles {
    files: HashMap<String, String>,
}

impl FileSystem for MemoryFiles {
    fn read(&self, path: &str) -> Option<Module> {
        self.files.get(path).map(|content| Module {
            name: path.to_string(),
            content: content.clone(),
            absolute: path.to_string(),
        })
    }
}

fn collect_names(files: &[(&str, &str)]) -> Result<(HIRContext, ASTProgram), Vec<Diagnostic>> {
    let files = files.iter().map(|(p, c)| (p.to_string(), c.to_string())).collect();
    let pipeline = PipelineBuilder::new("app.by".to_string(), CompileContext::new(CompileTarget::Interpreter));
    let pipeline = pipeline.stage(ParseStage { file_loader: MemoryFiles { files } });
    let pipeline = pipeline.stage(CollectNamesStage);
    match pipeline.dump() {
        Ok(_) => Ok(pipeline.prev.unwrap()),
        Err(errors) => Err(errors.clone()),
    }
}

fn check(files: &[(&str, &str)]) -> Option<Result<(HIRContext, HIRProgram), Vec<Diagnostic>>> {
    let files = files.iter().map(|(p, c)| (p.to_string(), c.to_string())).collect();
    let pipeline = PipelineBuilder::new("app.by".to_string(), CompileContext::new(CompileTarget::Interpreter));
    let pipeline = pipeline.stage(ParseStage { file_loader: MemoryFiles { files } });
    let pipeline = pipeline.stage(CollectNamesStage).stage(CollectHIRStage).stage(TypeCheckStage);
    if pipeline.prev.is_none() && !pipeline.diagnostics.has_errors() {
        return None;
    }
    Some(match pipeline.dump() {
        Ok(_) => Ok(pipeline.prev.unwrap()),
        Err(errors) => Err(errors.clone()),
    })
}

fn assert_hir_ok(files: &[(&str, &str)]) {
    match check(files) {
        Some(Ok(_)) => {}
        other => panic!("hir stage failed {:?}", other.map(|r| r.err())),
    }
}

fn assert_hir_err(result: Result<(HIRContext, ASTProgram), Vec<Diagnostic>>, pred: impl Fn(&CompileError) -> bool) {
    let errors = match result {
        Ok(_) => panic!("HIR stage did not fail"),
        Err(errors) => errors,
    };
    assert!(
        errors.iter().filter(|d| d.kind == DiagnosticKind::Error).map(|d| &d.error).any(pred),
        "error in hir not found: {errors:?}"
    );
}

#[test]
fn symbols() {
    assert_hir_err(collect_names(&[("app.by", "module app; def main(Missing -- Missing) end")]), |e| {
        matches!(e, CompileError::SymbolNotFound { .. })
    });
}

#[test]
fn cycle() {
    assert_hir_err(collect_names(&[("app.by", "module app; struct A(B); struct B(A);")]), |e| {
        matches!(e, CompileError::RecursiveStruct { .. })
    });
}

#[test]
fn structs_are_registered_after_their_fields() {
    let (ctx, _) = collect_names(&[(
        "app.by",
        "module app; struct Outer(Inner, u8); struct Inner([u8; 1]); def main( -- u8) 1u8 end",
    )])
    .expect("names were not collected");
    let outer = ctx.lookup(&DottedPath::parse("app.Outer")).expect("Outer is registered");
    let inner = ctx.lookup(&DottedPath::parse("app.Inner")).expect("Inner is registered");
    assert!(inner.0 < outer.0);
    match ctx.get(outer) {
        Some(SymbolKind::Struct { name, fields }) => {
            assert_eq!(name, "app.Outer");
            assert_eq!(fields.len(), 2);
            assert_eq!(ctx.format_type(&fields[0].value), "app.Inner");
            assert_eq!(ctx.format_type(&fields[1].value), "u8");
        }
        other => panic!("unexpected symbol {other:?}"),
    }
    let main = ctx.lookup(&DottedPath::parse("app.main")).expect("main is registered");
    assert!(matches!(ctx.get(main), Some(SymbolKind::Word { entrypoint: true, .. })));
}

#[test]
fn duplicate_struct() {
    assert_hir_err(collect_names(&[("app.by", "module app; struct A(u8); struct A(u8);")]), |e| {
        matches!(e, CompileError::SymbolAlreadyExists { .. })
    });
}

#[test]
fn generic_word_signature() {
    let (ctx, _) = collect_names(&[(
        "app.by",
        "module app; def keep<...S, A>(...S, A -- ...S, A) end def call(|u8 -- u8| -- ) end",
    )])
    .expect("names were not collected");
    let keep = ctx.lookup(&DottedPath::parse("app.keep")).expect("keep is registered");
    match ctx.get(keep) {
        Some(SymbolKind::Word { stack_in, stack_out, typevars, stackvars, .. }) => {
            assert_eq!(typevars.len(), 1);
            assert_eq!(stackvars.len(), 1);
            assert_eq!(ctx.format_type(&stack_in[0].value), "...S");
            assert_eq!(ctx.format_type(&stack_out[1].value), "A");
        }
        other => panic!("unexpected symbol {other:?}"),
    }
    let call = ctx.lookup(&DottedPath::parse("app.call")).expect("call is registered");
    match ctx.get(call) {
        Some(SymbolKind::Word { stack_in, .. }) => {
            assert_eq!(ctx.format_type(&stack_in[0].value), "|u8 -- u8|");
        }
        other => panic!("unexpected symbol {other:?}"),
    }
}

#[test]
fn builtin_context() {
    let ctx = HIRContext::new().expect("built-ins register");
    assert!(ctx.lookup(&DottedPath::parse("u8")).is_some());
    assert!(ctx.lookup(&DottedPath::parse("bool")).is_some());
    assert!(ctx.lookup(&DottedPath::parse("Missing")).is_none());
}

#[test]
fn values() {
    assert_hir_ok(&[(
        "app.by",
        r#"
        import std.math;
        module app;
        def main( -- u8, [u8; 1]) 1u8 2u8 std.math.add "x" end
        "#,
    )]);
}

#[test]
fn hir_generics() {
    assert_hir_ok(&[(
        "app.by",
        r#"
        module app;
        def id<A>(A -- A) end
        def keep<...S, A>(...S, A -- ...S, A) end
        def main( -- u8) 1u8 id keep end
        "#,
    )]);
}

#[test]
fn hir_lambdas() {
    assert_hir_ok(&[(
        "app.by",
        r#"
        import std.cfg;
        import std.math;
        import std.stack;
        module app;
        def call( -- [u8; 1]) | -- [u8; 1]| { "x" } std.stack.call end
        def main( -- u8)
            0u8 1u8 std.math.gt
            | -- u8| { 2u8 }
            | -- u8| { 3u8 }
            std.cfg.if
        end
        "#,
    )]);
}

#[test]
fn hir_structs() {
    assert_hir_ok(&[(
        "app.by",
        r#"
        module app;
        struct Outer(Inner, u8);
        struct Inner([u8; 1]);
        struct Pair(u8, [u8; 1]);
        def nested(Outer -- [u8; 1]) Outer.0 Inner.0 end
        def roundtrip( -- u8, [u8; 1]) 1u8 "x" >Pair Pair> end
        "#,
    )]);
}

#[test]
fn modules() {
    assert_hir_ok(&[
        (
            "app.by",
            r#"
        import deep.geometry;
        module app;
        struct Segment(deep.geometry.Point);
        def main( -- u8)
            1u8 2u8 >deep.geometry.Point >Segment
            Segment.0 deep.geometry.Point.1
        end
        "#,
        ),
        ("deep/geometry.by", "module deep.geometry; struct Point(u8, u8);"),
    ]);
}

#[test]
fn types() -> Result<(), String> {
    let result = check(&[(
        "app.by",
        r#"
        module app;
        def first( -- u8) end
        def second(u8 -- ) end
        def third( -- u8) "x" end
        "#,
    )]);
    let hir = result.ok_or_else(|| "HIR stage did not run".to_string())?;
    let errors = hir.err().ok_or_else(|| "HIR stage unexpectedly succeeded".to_string())?;
    assert_eq!(
        errors
            .iter()
            .filter(|diagnostic| {
                diagnostic.kind == DiagnosticKind::Error
                    && matches!(&diagnostic.error, CompileError::InvalidStack { .. })
            })
            .count(),
        3
    );
    Ok(())
}

#[test]
fn unknown_word_in_body() {
    match check(&[("app.by", "module app; def main( -- ) nothing end")]) {
        Some(Err(errors)) => assert!(errors.iter().any(|d| matches!(d.error, CompileError::SymbolNotFound { .. }))),
        other => panic!("unexpected {:?}", other.map(|r| r.is_ok())),
    }
}

#[test]
fn invalid_field_index() {
    match check(&[("app.by", "module app; struct P(u8); def f(P -- u8) P.3 end")]) {
        Some(Err(errors)) => assert!(errors.iter().any(|d| matches!(d.error, CompileError::InvalidFieldIndex { index: 3, field_count: 1, .. }))),
        other => panic!("unexpected {:?}", other.map(|r| r.is_ok())),
    }
}

#[test]
fn type_mismatch_is_reported_with_stacks() {
    match check(&[("app.by", "import std.math; module app; def f( -- u8) true 1u8 std.math.add end")]) {
        Some(Err(errors)) => {
            let found = errors.iter().find_map(|d| match &d.error {
                CompileError::InvalidStack { expected_stack, actual_stack, .. } => Some((expected_stack.clone(), actual_stack.clone())),
                _ => None,
            });
            let (expected, actual) = found.expect("a stack error");
            assert_eq!(expected, vec!["T".to_string(), "T".to_string()]);
            assert_eq!(actual, vec!["bool".to_string(), "u8".to_string()]);
        }
        other => panic!("unexpected {:?}", other.map(|r| r.is_ok())),
    }
}
