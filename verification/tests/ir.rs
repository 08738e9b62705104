use std::collections::HashMap;

use buyan::common::{CompileContext, CompileTarget};
use buyan::error::Diagnostic;
use buyan::fs::{FileSystem, Module};
use buyan::pipeline::PipelineBuilder;
use buyan::stages::lower::collect::CollectSymbolsStage;
use buyan::stages::lower::context::IRContext;
use buyan::stages::lower::ir::{IRConstant, IRInstruction, IRProgram, IRTerminator, IRType};
use buyan::stages::lower::monomorphize::MonomorphizeStage;
use buyan::stages::lower::stage::LowerStage;
use buyan::stages::parse::stage::ParseStage;
use buyan::stages::semantic::collect_hir::CollectHIRStage;
use buyan::stages::semantic::collect_names::CollectNamesStage;
use buyan::stages::semantic::type_check::TypeCheckStage;

struct MemoryFiles {
    files: HashMap<String, String>,
}

impl FileSystem for MemoryFiles {
    fn read(&self, path: &str) -> Option<Module> {
        self.files.get(path).map(|content| Module {
            name: path.to_string(),
            content: content.clone(),
            absolute: path.to_string(),
        })
    }
}

fn files_of(files: &[(&str, &str)]) -> HashMap<String, String> {
    files.iter().map(|(p, c)| (p.to_string(), c.to_string())).collect()
}

/// Parse, names, HIR, type check, layout and lowering, as the compiler's
/// tests run them.
fn lower(files: &[(&str, &str)]) -> Result<(IRContext, IRProgram), Vec<Diagnostic>> {
    let pipeline = PipelineBuilder::new("app.by".to_string(), CompileContext::new(CompileTarget::Interpreter));
    let pipeline = pipeline.stage(ParseStage { file_loader: MemoryFiles { files: files_of(files) } });
    let pipeline = pipeline.stage(CollectNamesStage).stage(CollectHIRStage).stage(TypeCheckStage);
    let pipeline = pipeline.stage(CollectSymbolsStage).stage(LowerStage);
    match pipeline.dump() {
        Ok(_) => Ok(pipeline.prev.unwrap()),
        Err(errors) => Err(errors.clone()),
    }
}

/// The same with the words instantiated before lowering.
fn compile(files: &[(&str, &str)]) -> Result<(IRContext, IRProgram), Vec<Diagnostic>> {
    let pipeline = PipelineBuilder::new("app.by".to_string(), CompileContext::new(CompileTarget::Interpreter));
    let pipeline = pipeline.stage(ParseStage { file_loader: MemoryFiles { files: files_of(files) } });
    let pipeline = pipeline.stage(CollectNamesStage).stage(CollectHIRStage).stage(TypeCheckStage);
    let pipeline = pipeline.stage(CollectSymbolsStage).stage(MonomorphizeStage).stage(LowerStage);
    match pipeline.dump() {
        Ok(_) => Ok(pipeline.prev.unwrap()),
        Err(errors) => Err(errors.clone()),
    }
}

fn assert_ir_ok(result: &Result<(IRContext, IRProgram), Vec<Diagnostic>>) {
    assert!(result.is_ok(), "ir stage failed {:?}", result.as_ref().err());
}

#[test]
fn ir_program() {
    assert_ir_ok(&lower(&[("app.by", "module app; def main( -- u8) 1u8 end")]));
}

#[test]
fn ir_structs() {
    assert_ir_ok(&lower(&[(
        "app.by",
        r#"
        module app;
        struct Inner(u8, u16);
        struct Outer(Inner);
        def main( -- u16)
            1u8 2u16 Inner< Outer<
            Outer.0 Inner.1
        end
        "#,
    )]));
}

#[test]
fn lowers_the_entrypoint_to_one_block() {
    let (_, program) = compile(&[("app.by", "module app; def main( -- u8) 1u8 end")]).unwrap();
    assert_eq!(program.words.len(), 1);
    let word = &program.words[0].value;
    assert_eq!(word.word_id.0, 0);
    assert!(word.entrypoint);
    assert_eq!(word.name, "app.main");
    assert_eq!(word.blocks.len(), 1);
    assert_eq!(word.blocks[0].instructions.len(), 1);
    assert!(matches!(
        word.blocks[0].instructions[0].value,
        IRInstruction::PushConstant { value: IRConstant::U8(1) }
    ));
    assert!(matches!(word.blocks[0].terminator.value, IRTerminator::End));
}

#[test]
fn lays_out_structs_field_by_field() {
    let (ctx, program) = compile(&[(
        "app.by",
        "module app; struct Inner(u8, u16); struct Outer(Inner); def main( -- u16) 1u8 2u16 Inner< Outer< Outer.0 Inner.1 end",
    )])
    .unwrap();
    // bool, u8, u16, then the two structs
    assert_eq!(ctx.types.len(), 5);
    match &ctx.types[4] {
        IRType::Struct { fields } => {
            assert_eq!(fields.len(), 1);
            match &fields[0] {
                IRType::Struct { fields } => {
                    assert!(matches!(fields[0], IRType::U8));
                    assert!(matches!(fields[1], IRType::U16));
                }
                other => panic!("unexpected field {other:?}"),
            }
        }
        other => panic!("unexpected type {other:?}"),
    }
    assert_eq!(program.types.len(), 5);
}

#[test]
fn instantiates_called_words() {
    let (ctx, program) = compile(&[(
        "app.by",
        "module app; def main( -- u8) helper end def helper( -- u8) 7u8 end",
    )])
    .unwrap();
    assert_eq!(ctx.words.len(), 2);
    assert_eq!(program.words.len(), 2);
    for (index, word) in program.words.iter().enumerate() {
        assert_eq!(word.value.word_id.0, index);
    }
    let main = &program.words[0].value;
    assert!(matches!(
        main.blocks[0].instructions[0].value,
        IRInstruction::CallDirect { word_id } if word_id.0 == 1
    ));
}

#[test]
fn lowers_if_to_branches() {
    let (_, program) = compile(&[(
        "app.by",
        "import std.cfg; module app; def main( -- u8) true | -- u8| { 1u8 } | -- u8| { 2u8 } std.cfg.if end",
    )])
    .unwrap();
    // main and its two lambdas
    assert_eq!(program.words.len(), 3);
    let main = &program.words[0].value;
    assert_eq!(main.blocks.len(), 5);
    assert!(matches!(main.blocks[0].terminator.value, IRTerminator::Branch { branch } if branch.0 == 1));
    assert!(matches!(
        main.blocks[1].terminator.value,
        IRTerminator::BranchIfZero { then_branch, else_branch } if then_branch.0 == 2 && else_branch.0 == 3
    ));
    assert!(matches!(
        main.blocks[2].instructions[0].value,
        IRInstruction::CallDirect { word_id } if word_id.0 == 1
    ));
    assert!(matches!(
        main.blocks[3].instructions[0].value,
        IRInstruction::CallDirect { word_id } if word_id.0 == 2
    ));
    assert!(matches!(main.blocks[4].terminator.value, IRTerminator::End));
    assert_eq!(program.words[1].value.name, "lambda_1");
}

#[test]
fn places_strings_in_static_data() {
    let (_, program) = compile(&[("app.by", "import std.stack; module app; def main( -- ) \"hi\" std.stack.drop end")]).unwrap();
    assert_eq!(program.static_data, vec![2, b'h', b'i']);
    let main = &program.words[0].value;
    assert!(matches!(
        main.blocks[0].instructions[0].value,
        IRInstruction::PushConstant { value: IRConstant::StaticPtr(0) }
    ));
}
