use buyan::common::{SourceId, Span, Spanned};
use buyan::error::CompileError;
use buyan::stages::interpreter::executor::{IRInterpreter, IRValue, Step};
use buyan::stages::lower::context::{TypeId, WordId};
use buyan::stages::lower::ir::{
    BasicBlockId, IRBasicBlock, IRConstant, IRInstruction, IRProgram, IRTerminator, IRType, IRWord,
};

fn sp<T>(value: T) -> Spanned<T> {
    Spanned::new(value, Span { source_id: SourceId(0), start: 0, end: 0 })
}

fn block(instructions: Vec<IRInstruction>, terminator: IRTerminator) -> IRBasicBlock {
    IRBasicBlock { instructions: instructions.into_iter().map(sp).collect(), terminator: sp(terminator) }
}

fn word(id: usize, entrypoint: bool, blocks: Vec<IRBasicBlock>) -> Spanned<IRWord> {
    sp(IRWord { word_id: WordId(id), name: format!("w{id}"), entrypoint, blocks })
}

fn u8c(v: u8) -> IRInstruction {
    IRInstruction::PushConstant { value: IRConstant::U8(v) }
}

fn put_char() -> IRInstruction {
    IRInstruction::CallExtern { symbol: "put_char".to_string() }
}

/// Runs a program with the given input; the output bytes and the error, if any.
fn run(program: &IRProgram, input: &[u8]) -> (IRInterpreter, Vec<u8>, Option<CompileError>) {
    let mut machine = IRInterpreter::new();
    if let Err(e) = machine.start(program) {
        return (machine, Vec::new(), Some(e));
    }
    let mut output = Vec::new();
    let mut input = input.iter();
    for _ in 0..100_000 {
        assert!(machine.is_step_valid(program), "invalid IR type for interpreter");
        match machine.step(program) {
            Step::Continue => {}
            Step::Output(b) => output.push(b),
            Step::NeedInput => machine.provide_input(*input.next().expect("input")),
            Step::Done => return (machine, output, None),
            Step::Failed(e) => return (machine, output, Some(e)),
        }
    }
    panic!("program did not end");
}

fn program(words: Vec<Spanned<IRWord>>, types: Vec<IRType>) -> IRProgram {
    IRProgram { words, types, static_data: vec![7, 8] }
}

#[test]
fn arithmetic_and_output() {
    let p = program(
        vec![word(0, true, vec![block(
            vec![u8c(250), u8c(10), IRInstruction::Add { ty: IRType::U8 }, put_char(), u8c(3), u8c(5),
                IRInstruction::Sub { ty: IRType::U8 }, put_char()],
            IRTerminator::End,
        )])],
        vec![],
    );
    let (machine, output, error) = run(&p, &[]);
    assert!(error.is_none());
    assert_eq!(output, vec![4, 254]);
    assert!(machine.stack().is_empty());
}

#[test]
fn division_by_zero() {
    let p = program(
        vec![word(0, true, vec![block(vec![u8c(1), u8c(0), IRInstruction::Div { ty: IRType::U8 }], IRTerminator::End)])],
        vec![],
    );
    let (_, _, error) = run(&p, &[]);
    assert!(matches!(error, Some(CompileError::RuntimeError { label }) if label == "division by zero"));
}

#[test]
fn stack_underflow() {
    let p = program(
        vec![word(0, true, vec![block(vec![IRInstruction::Drop { ty: IRType::U8 }], IRTerminator::End)])],
        vec![],
    );
    let (_, _, error) = run(&p, &[]);
    assert!(matches!(error, Some(CompileError::RuntimeError { label }) if label == "stack underflow"));
}

#[test]
fn missing_entrypoint() {
    let p = program(vec![word(0, false, vec![block(vec![], IRTerminator::End)])], vec![]);
    let (_, _, error) = run(&p, &[]);
    assert!(matches!(error, Some(CompileError::RuntimeError { label }) if label == "word not found"));
}

#[test]
fn calls_branches_and_input() {
    // main: read a byte, call `double`, compare with 10, print 1 or 0
    let double = word(1, false, vec![block(
        vec![IRInstruction::Dup { ty: IRType::U8 }, IRInstruction::Add { ty: IRType::U8 }],
        IRTerminator::End,
    )]);
    let main = word(0, true, vec![
        block(
            vec![IRInstruction::CallExtern { symbol: "read_char".to_string() },
                IRInstruction::CallDirect { word_id: WordId(1) }, u8c(10), IRInstruction::Gt { ty: IRType::U8 }],
            IRTerminator::BranchIfZero { then_branch: BasicBlockId(1), else_branch: BasicBlockId(2) },
        ),
        block(vec![u8c(1), put_char()], IRTerminator::Branch { branch: BasicBlockId(3) }),
        block(vec![u8c(0), put_char()], IRTerminator::Branch { branch: BasicBlockId(3) }),
        block(vec![], IRTerminator::End),
    ]);
    let p = program(vec![main, double], vec![]);
    assert_eq!(run(&p, &[6]).1, vec![1]);
    assert_eq!(run(&p, &[5]).1, vec![0]);
}

#[test]
fn structs_and_memory() {
    let p = program(
        vec![word(0, true, vec![block(
            vec![
                u8c(1),
                IRInstruction::PushConstant { value: IRConstant::U16(2) },
                IRInstruction::Pack { type_id: TypeId(0) },
                IRInstruction::Dup { ty: IRType::Lambda },
                IRInstruction::GetField { type_id: TypeId(0), field_index: 1 },
                IRInstruction::Drop { ty: IRType::U16 },
                IRInstruction::Unpack { type_id: TypeId(0) },
                IRInstruction::Drop { ty: IRType::U16 },
                IRInstruction::PushConstant { value: IRConstant::StaticPtr(1) },
                IRInstruction::Load,
                put_char(),
                IRInstruction::PushConstant { value: IRConstant::U16(100) },
                u8c(42),
                IRInstruction::Store,
                IRInstruction::PushConstant { value: IRConstant::U16(100) },
                IRInstruction::Load,
                put_char(),
            ],
            IRTerminator::End,
        )])],
        vec![IRType::Struct { fields: vec![IRType::U8, IRType::U16] }],
    );
    let (machine, output, error) = run(&p, &[]);
    assert!(error.is_none(), "{error:?}");
    assert_eq!(output, vec![8, 42]);
    assert_eq!(machine.stack().len(), 1);
    assert!(matches!(machine.stack()[0], IRValue::U8(1)));
}

#[test]
fn alloc_and_rotations() {
    let p = program(
        vec![word(0, true, vec![block(
            vec![
                IRInstruction::PushConstant { value: IRConstant::U16(4) },
                IRInstruction::CallExtern { symbol: "alloc".to_string() },
                IRInstruction::Cast { from: IRType::U16, to: IRType::U8 },
                put_char(),
                u8c(1), u8c(2), u8c(3),
                IRInstruction::RotateLeft { lower: IRType::U8, middle: IRType::U8, upper: IRType::U8 },
                put_char(), put_char(), put_char(),
            ],
            IRTerminator::End,
        )])],
        vec![],
    );
    let (_, output, error) = run(&p, &[]);
    assert!(error.is_none(), "{error:?}");
    assert_eq!(output, vec![2, 1, 3, 2]);
}

#[test]
fn ill_typed_program_is_detected() {
    let p = program(
        vec![word(0, true, vec![block(
            vec![IRInstruction::PushConstant { value: IRConstant::Bool(true) }, u8c(1),
                IRInstruction::Add { ty: IRType::U8 }],
            IRTerminator::End,
        )])],
        vec![],
    );
    let mut machine = IRInterpreter::new();
    machine.start(&p).expect("entrypoint");
    assert!(machine.is_step_valid(&p));
    assert!(matches!(machine.step(&p), Step::Continue));
    assert!(matches!(machine.step(&p), Step::Continue));
    assert!(!machine.is_step_valid(&p));
}
