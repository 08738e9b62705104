use buyan::common::{CompileContext, CompileTarget, SourceId, Span, Spanned};
use buyan::pipeline::Stage;
use buyan::stages::codegen::z80_cpm::Z80CpmCodegenStage;
use buyan::stages::lower::context::{IRContext, TypeId, WordId};
use buyan::stages::lower::ir::{
    BasicBlockId, IRBasicBlock, IRConstant, IRInstruction, IRProgram, IRTerminator, IRType, IRWord,
};

fn span() -> Span {
    Span { source_id: SourceId(0), start: 0, end: 0 }
}

fn sp<T>(value: T) -> Spanned<T> {
    Spanned { value, span: span() }
}

fn word(id: usize, entrypoint: bool, blocks: Vec<IRBasicBlock>) -> Spanned<IRWord> {
    sp(IRWord { word_id: WordId(id), name: format!("w{id}"), entrypoint, blocks })
}

fn block(instructions: Vec<IRInstruction>, terminator: IRTerminator) -> IRBasicBlock {
    IRBasicBlock { instructions: instructions.into_iter().map(sp).collect(), terminator: sp(terminator) }
}

fn generate(types: Vec<IRType>, words: Vec<Spanned<IRWord>>, static_data: Vec<u8>) -> Option<String> {
    let ctx = IRContext { words: Vec::new(), external_symbols: Vec::new(), symbol_id_to_type_id: Vec::new(), types };
    let program = IRProgram { words, types: Vec::new(), static_data };
    let mut context = CompileContext::new(CompileTarget::Z80UnknownCpm);
    Z80CpmCodegenStage.execute((ctx, program), &mut context).output
}

fn lines(text: &str) -> Vec<&str> {
    text.lines().collect()
}

#[test]
fn no_entrypoint_gives_no_source() {
    let text = generate(vec![], vec![word(0, false, vec![block(vec![], IRTerminator::End)])], vec![]).unwrap();
    assert_eq!(text, "");
}

#[test]
fn program_layout() {
    let text = generate(
        vec![],
        vec![word(0, true, vec![block(vec![IRInstruction::PushConstant { value: IRConstant::U8(7) }], IRTerminator::End)])],
        vec![1, 2],
    )
    .unwrap();
    let l = lines(&text);
    assert_eq!(l[0], "ORG 0x100");
    assert_eq!(l[1], "start:");
    assert_eq!(l[2], "\tld hl, __heap");
    assert_eq!(l[3], "\tld (__heap_ptr), hl");
    assert_eq!(l[4], "\tld ix, __data_stack_end");
    assert_eq!(l[5], "\tcall __word_0");
    assert_eq!(l[6], "\tld c, 0");
    assert_eq!(l[7], "\tcall 5");
    assert_eq!(l[8], "bdos_call:");
    let at = l.iter().position(|line| *line == "__word_0:").unwrap();
    assert_eq!(l[at - 1], "; w0");
    assert_eq!(l[at + 1], "__word_0_bb0:");
    assert_eq!(l[at + 2], "\tdec ix");
    assert_eq!(l[at + 3], "\tld (ix+0), 7");
    assert_eq!(l[at + 4], "\tret");
    assert_eq!(l[at + 5], "__static_data:");
    assert_eq!(l[at + 6], "\tdb 1");
    assert_eq!(l[at + 7], "\tdb 2");
    assert_eq!(l[at + 8], "__data_stack:");
    assert_eq!(l[at + 9], "\tdefs 256");
    assert_eq!(l[at + 10], "__data_stack_end:");
    assert_eq!(l[at + 11], "__heap_ptr:");
    assert_eq!(l[at + 12], "\tdefs 2");
    assert_eq!(l[at + 13], "__heap:");
    assert_eq!(l.len(), at + 14);
}

#[test]
fn branches_jump_to_block_labels() {
    let text = generate(
        vec![],
        vec![word(
            3,
            true,
            vec![
                block(vec![IRInstruction::PushConstant { value: IRConstant::Bool(true) }], IRTerminator::BranchIfZero {
                    then_branch: BasicBlockId(1),
                    else_branch: BasicBlockId(2),
                }),
                block(vec![], IRTerminator::Branch { branch: BasicBlockId(2) }),
                block(vec![], IRTerminator::End),
            ],
        )],
        vec![],
    )
    .unwrap();
    let l = lines(&text);
    let at = l.iter().position(|line| *line == "__word_3_bb0:").unwrap();
    assert_eq!(&l[at + 1..at + 8], &[
        "\tdec ix",
        "\tld (ix+0), 1",
        "\tld a, (ix+0)",
        "\tinc ix",
        "\tor a",
        "\tjp nz, __word_3_bb1",
        "\tjp __word_3_bb2",
    ]);
    assert_eq!(l[at + 8], "__word_3_bb1:");
    assert_eq!(l[at + 9], "\tjp __word_3_bb2");
    assert_eq!(l[at + 10], "__word_3_bb2:");
}

#[test]
fn equality_uses_a_local_label() {
    let text = generate(
        vec![],
        vec![word(0, true, vec![block(vec![IRInstruction::Eq { ty: IRType::U8 }], IRTerminator::End)])],
        vec![],
    )
    .unwrap();
    let l = lines(&text);
    let at = l.iter().position(|line| *line == "__word_0_bb0:").unwrap();
    assert_eq!(&l[at + 1..at + 10], &[
        "\tld a, (ix+1)",
        "\tcp (ix+0)",
        "\tld a, 0",
        "\tjr nz, __word_0_bb0_eq_u8_0_not_equal",
        "\tinc a",
        "__word_0_bb0_eq_u8_0_not_equal:",
        "\tld (ix+1), a",
        "\tinc ix",
        "\tret",
    ]);
}

#[test]
fn u16_constants_push_the_low_byte_last() {
    let text = generate(
        vec![],
        vec![word(0, true, vec![block(vec![IRInstruction::PushConstant { value: IRConstant::U16(258) }], IRTerminator::End)])],
        vec![],
    )
    .unwrap();
    let l = lines(&text);
    let at = l.iter().position(|line| *line == "__word_0_bb0:").unwrap();
    assert_eq!(&l[at + 1..at + 8], &[
        "\tld hl, 258",
        "\tld a, h",
        "\tdec ix",
        "\tld (ix+0), a",
        "\tld a, l",
        "\tdec ix",
        "\tld (ix+0), a",
    ]);
}

#[test]
fn struct_fields_are_copied_into_place() {
    let pair = IRType::Struct { fields: vec![IRType::U8, IRType::U16] };
    let text = generate(
        vec![pair],
        vec![word(0, true, vec![block(vec![IRInstruction::GetField { type_id: TypeId(0), field_index: 0 }], IRTerminator::End)])],
        vec![],
    )
    .unwrap();
    let l = lines(&text);
    let at = l.iter().position(|line| *line == "__word_0_bb0:").unwrap();
    assert_eq!(&l[at + 1..at + 6], &["\tld a, (ix+2)", "\tld (ix+2), a", "\tld de, 2", "\tadd ix, de", "\tret"]);
}

#[test]
fn unsupported_instructions_are_errors() {
    let out = generate(
        vec![],
        vec![word(0, true, vec![block(vec![IRInstruction::Sub { ty: IRType::U8 }], IRTerminator::End)])],
        vec![],
    );
    assert!(out.is_none());
}

#[test]
fn invalid_external_symbols_are_errors() {
    let out = generate(
        vec![],
        vec![word(0, true, vec![block(vec![IRInstruction::CallExtern { symbol: "9bad".to_string() }], IRTerminator::End)])],
        vec![],
    );
    assert!(out.is_none());
    let ok = generate(
        vec![],
        vec![word(0, true, vec![block(vec![IRInstruction::CallExtern { symbol: "put_char".to_string() }], IRTerminator::End)])],
        vec![],
    )
    .unwrap();
    assert!(ok.lines().any(|line| line == "\tcall put_char"));
}
