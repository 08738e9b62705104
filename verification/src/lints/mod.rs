//! Lints: checks of the program that only warn.
pub mod empty_word;
pub mod unused_import;

use vstd::prelude::*;

use crate::common::{CompileContext, Spanned};
use crate::error::{DiagnosticKind, Diagnostics};
use crate::pipeline::{Stage, StageResult};
use crate::stages::semantic::context::HIRContext;
use crate::stages::semantic::hir::{HIRInstruction, HIRModule, HIRProgram, HIRStruct, HIRWord};
use crate::stages::semantic::type_check::{hir_body_size, hir_instruction_size, lemma_hir_body_size_prefix};

verus! {

/// `after` is `before` with warnings added: nothing reported before
/// changed, and whether the compilation stops did not either.
pub open spec fn warned(before: Diagnostics, after: Diagnostics) -> bool {
    &&& after.fatal == before.fatal
    &&& before.errors@.len() <= after.errors@.len()
    &&& forall|i: int| 0 <= i < before.errors@.len() ==> #[trigger] after.errors@[i] == before.errors@[i]
    &&& forall|i: int|
        before.errors@.len() <= i < after.errors@.len() ==> (#[trigger] after.errors@[i]).kind
            == DiagnosticKind::Warning
}

/// Warning twice is warning.
pub proof fn lemma_warned_trans(a: Diagnostics, b: Diagnostics, c: Diagnostics)
    requires
        warned(a, b),
        warned(b, c),
    ensures
        warned(a, c),
{
    assert forall|i: int| a.errors@.len() <= i < c.errors@.len() implies (#[trigger] c.errors@[i]).kind
        == DiagnosticKind::Warning by {
        if i < b.errors@.len() {
            assert(c.errors@[i] == b.errors@[i]);
        }
    }
}

/// A check of the program. Each hook sees one part of it, in the order of
/// the program, and may only warn. What each hook does is stated by a spec
/// function beside it, which an implementation that overrides the hook
/// overrides too.
pub trait Lint: Sized {
    /// What `check_program` does: whether it can leave the lint as `after` and
    /// the diagnostics as `after_diagnostics`, from the lint as it is and
    /// `before`. By default it does nothing.
    open spec fn program_step(
        &self,
        ctx: &HIRContext,
        program: &HIRProgram,
        before: Diagnostics,
        after: Self,
        after_diagnostics: Diagnostics,
    ) -> bool {
        after == *self && after_diagnostics == before
    }

    /// What `check_module` does, in the same way.
    open spec fn module_step(
        &self,
        ctx: &HIRContext,
        module: &HIRModule,
        before: Diagnostics,
        after: Self,
        after_diagnostics: Diagnostics,
    ) -> bool {
        after == *self && after_diagnostics == before
    }

    /// What `check_struct` does, in the same way.
    open spec fn struct_step(
        &self,
        ctx: &HIRContext,
        hir_struct: &HIRStruct,
        before: Diagnostics,
        after: Self,
        after_diagnostics: Diagnostics,
    ) -> bool {
        after == *self && after_diagnostics == before
    }

    /// What `check_word` does, in the same way.
    open spec fn word_step(
        &self,
        ctx: &HIRContext,
        word: &HIRWord,
        before: Diagnostics,
        after: Self,
        after_diagnostics: Diagnostics,
    ) -> bool {
        after == *self && after_diagnostics == before
    }

    /// What `check_instruction` does, in the same way.
    open spec fn instruction_step(
        &self,
        ctx: &HIRContext,
        instruction: &Spanned<HIRInstruction>,
        before: Diagnostics,
        after: Self,
        after_diagnostics: Diagnostics,
    ) -> bool {
        after == *self && after_diagnostics == before
    }

    /// What `finish` does, in the same way.
    open spec fn finish_step(
        &self,
        ctx: &HIRContext,
        program: &HIRProgram,
        before: Diagnostics,
        after: Self,
        after_diagnostics: Diagnostics,
    ) -> bool {
        after == *self && after_diagnostics == before
    }

    fn check_program(&mut self, ctx: &HIRContext, program: &HIRProgram, diagnostics: &mut Diagnostics)
        ensures
            warned(*old(diagnostics), *final(diagnostics)),
            old(self).program_step(ctx, program, *old(diagnostics), *final(self), *final(diagnostics)),
    ;

    fn check_module(&mut self, ctx: &HIRContext, module: &HIRModule, diagnostics: &mut Diagnostics)
        ensures
            warned(*old(diagnostics), *final(diagnostics)),
            old(self).module_step(ctx, module, *old(diagnostics), *final(self), *final(diagnostics)),
    ;

    fn check_struct(&mut self, ctx: &HIRContext, hir_struct: &HIRStruct, diagnostics: &mut Diagnostics)
        ensures
            warned(*old(diagnostics), *final(diagnostics)),
            old(self).struct_step(ctx, hir_struct, *old(diagnostics), *final(self), *final(diagnostics)),
    ;

    fn check_word(&mut self, ctx: &HIRContext, word: &HIRWord, diagnostics: &mut Diagnostics)
        ensures
            warned(*old(diagnostics), *final(diagnostics)),
            old(self).word_step(ctx, word, *old(diagnostics), *final(self), *final(diagnostics)),
    ;

    fn check_instruction(
        &mut self,
        ctx: &HIRContext,
        instruction: &Spanned<HIRInstruction>,
        diagnostics: &mut Diagnostics,
    )
        ensures
            warned(*old(diagnostics), *final(diagnostics)),
            old(self).instruction_step(ctx, instruction, *old(diagnostics), *final(self), *final(diagnostics)),
    ;

    fn finish(&mut self, ctx: &HIRContext, program: &HIRProgram, diagnostics: &mut Diagnostics)
        ensures
            warned(*old(diagnostics), *final(diagnostics)),
            old(self).finish_step(ctx, program, *old(diagnostics), *final(self), *final(diagnostics)),
    ;
}

/// No lint.
impl Lint for () {
    fn check_program(&mut self, ctx: &HIRContext, program: &HIRProgram, diagnostics: &mut Diagnostics) {
    }

    fn check_module(&mut self, ctx: &HIRContext, module: &HIRModule, diagnostics: &mut Diagnostics) {
    }

    fn check_struct(&mut self, ctx: &HIRContext, hir_struct: &HIRStruct, diagnostics: &mut Diagnostics) {
    }

    fn check_word(&mut self, ctx: &HIRContext, word: &HIRWord, diagnostics: &mut Diagnostics) {
    }

    fn check_instruction(
        &mut self,
        ctx: &HIRContext,
        instruction: &Spanned<HIRInstruction>,
        diagnostics: &mut Diagnostics,
    ) {
    }

    fn finish(&mut self, ctx: &HIRContext, program: &HIRProgram, diagnostics: &mut Diagnostics) {
    }
}

/// Two lints, the first one first at each hook.
impl<A: Lint, B: Lint> Lint for (A, B) {
    /// The first lint's step, then the second's from where it left the
    /// diagnostics.
    open spec fn program_step(
        &self,
        ctx: &HIRContext,
        program: &HIRProgram,
        before: Diagnostics,
        after: Self,
        after_diagnostics: Diagnostics,
    ) -> bool {
        exists|mid: Diagnostics|
            #[trigger] self.0.program_step(ctx, program, before, after.0, mid) && self.1.program_step(
                ctx,
                program,
                mid,
                after.1,
                after_diagnostics,
            )
    }

    /// The first lint's step, then the second's from where it left the
    /// diagnostics.
    open spec fn module_step(
        &self,
        ctx: &HIRContext,
        module: &HIRModule,
        before: Diagnostics,
        after: Self,
        after_diagnostics: Diagnostics,
    ) -> bool {
        exists|mid: Diagnostics|
            #[trigger] self.0.module_step(ctx, module, before, after.0, mid) && self.1.module_step(
                ctx,
                module,
                mid,
                after.1,
                after_diagnostics,
            )
    }

    /// The first lint's step, then the second's from where it left the
    /// diagnostics.
    open spec fn struct_step(
        &self,
        ctx: &HIRContext,
        hir_struct: &HIRStruct,
        before: Diagnostics,
        after: Self,
        after_diagnostics: Diagnostics,
    ) -> bool {
        exists|mid: Diagnostics|
            #[trigger] self.0.struct_step(ctx, hir_struct, before, after.0, mid) && self.1.struct_step(
                ctx,
                hir_struct,
                mid,
                after.1,
                after_diagnostics,
            )
    }

    /// The first lint's step, then the second's from where it left the
    /// diagnostics.
    open spec fn word_step(
        &self,
        ctx: &HIRContext,
        word: &HIRWord,
        before: Diagnostics,
        after: Self,
        after_diagnostics: Diagnostics,
    ) -> bool {
        exists|mid: Diagnostics|
            #[trigger] self.0.word_step(ctx, word, before, after.0, mid) && self.1.word_step(
                ctx,
                word,
                mid,
                after.1,
                after_diagnostics,
            )
    }

    /// The first lint's step, then the second's from where it left the
    /// diagnostics.
    open spec fn instruction_step(
        &self,
        ctx: &HIRContext,
        instruction: &Spanned<HIRInstruction>,
        before: Diagnostics,
        after: Self,
        after_diagnostics: Diagnostics,
    ) -> bool {
        exists|mid: Diagnostics|
            #[trigger] self.0.instruction_step(ctx, instruction, before, after.0, mid) && self.1.instruction_step(
                ctx,
                instruction,
                mid,
                after.1,
                after_diagnostics,
            )
    }

    /// The first lint's step, then the second's from where it left the
    /// diagnostics.
    open spec fn finish_step(
        &self,
        ctx: &HIRContext,
        program: &HIRProgram,
        before: Diagnostics,
        after: Self,
        after_diagnostics: Diagnostics,
    ) -> bool {
        exists|mid: Diagnostics|
            #[trigger] self.0.finish_step(ctx, program, before, after.0, mid) && self.1.finish_step(
                ctx,
                program,
                mid,
                after.1,
                after_diagnostics,
            )
    }

    fn check_program(&mut self, ctx: &HIRContext, program: &HIRProgram, diagnostics: &mut Diagnostics) {
        let ghost d0 = *diagnostics;
        let ghost l0 = *self;
        self.0.check_program(ctx, program, diagnostics);
        let ghost d1 = *diagnostics;
        self.1.check_program(ctx, program, diagnostics);
        proof {
            lemma_warned_trans(d0, d1, *diagnostics);
            assert(l0.0.program_step(ctx, program, d0, self.0, d1));
        }
    }

    fn check_module(&mut self, ctx: &HIRContext, module: &HIRModule, diagnostics: &mut Diagnostics) {
        let ghost d0 = *diagnostics;
        let ghost l0 = *self;
        self.0.check_module(ctx, module, diagnostics);
        let ghost d1 = *diagnostics;
        self.1.check_module(ctx, module, diagnostics);
        proof {
            lemma_warned_trans(d0, d1, *diagnostics);
            assert(l0.0.module_step(ctx, module, d0, self.0, d1));
        }
    }

    fn check_struct(&mut self, ctx: &HIRContext, hir_struct: &HIRStruct, diagnostics: &mut Diagnostics) {
        let ghost d0 = *diagnostics;
        let ghost l0 = *self;
        self.0.check_struct(ctx, hir_struct, diagnostics);
        let ghost d1 = *diagnostics;
        self.1.check_struct(ctx, hir_struct, diagnostics);
        proof {
            lemma_warned_trans(d0, d1, *diagnostics);
            assert(l0.0.struct_step(ctx, hir_struct, d0, self.0, d1));
        }
    }

    fn check_word(&mut self, ctx: &HIRContext, word: &HIRWord, diagnostics: &mut Diagnostics) {
        let ghost d0 = *diagnostics;
        let ghost l0 = *self;
        self.0.check_word(ctx, word, diagnostics);
        let ghost d1 = *diagnostics;
        self.1.check_word(ctx, word, diagnostics);
        proof {
            lemma_warned_trans(d0, d1, *diagnostics);
            assert(l0.0.word_step(ctx, word, d0, self.0, d1));
        }
    }

    fn check_instruction(
        &mut self,
        ctx: &HIRContext,
        instruction: &Spanned<HIRInstruction>,
        diagnostics: &mut Diagnostics,
    ) {
        let ghost d0 = *diagnostics;
        let ghost l0 = *self;
        self.0.check_instruction(ctx, instruction, diagnostics);
        let ghost d1 = *diagnostics;
        self.1.check_instruction(ctx, instruction, diagnostics);
        proof {
            lemma_warned_trans(d0, d1, *diagnostics);
            assert(l0.0.instruction_step(ctx, instruction, d0, self.0, d1));
        }
    }

    fn finish(&mut self, ctx: &HIRContext, program: &HIRProgram, diagnostics: &mut Diagnostics) {
        let ghost d0 = *diagnostics;
        let ghost l0 = *self;
        self.0.finish(ctx, program, diagnostics);
        let ghost d1 = *diagnostics;
        self.1.finish(ctx, program, diagnostics);
        proof {
            lemma_warned_trans(d0, d1, *diagnostics);
            assert(l0.0.finish_step(ctx, program, d0, self.0, d1));
        }
    }
}

/// What giving an instruction to the lints does: their instruction step on
/// it, then, for a lambda, the same for each instruction of its body in
/// turn.
pub open spec fn instruction_walked<L: Lint>(
    lints: L,
    ctx: &HIRContext,
    instruction: Spanned<HIRInstruction>,
    before: Diagnostics,
    after: L,
    after_diagnostics: Diagnostics,
) -> bool
    decreases instruction,
{
    exists|mid: L, mid_diagnostics: Diagnostics|
        #[trigger] lints.instruction_step(ctx, &instruction, before, mid, mid_diagnostics) && match instruction.value {
            HIRInstruction::Lambda { body, .. } => body_walked(mid, ctx, body@, mid_diagnostics, after, after_diagnostics),
            _ => after == mid && after_diagnostics == mid_diagnostics,
        }
}

/// A state of the lints and the diagnostics between two steps.
pub open spec fn walk_point<L>(lints: L, diagnostics: Diagnostics) -> bool {
    true
}

/// What giving each instruction of a body to the lints, in order, does.
pub open spec fn body_walked<L: Lint>(
    lints: L,
    ctx: &HIRContext,
    body: Seq<Spanned<HIRInstruction>>,
    before: Diagnostics,
    after: L,
    after_diagnostics: Diagnostics,
) -> bool
    decreases body,
{
    if body.len() == 0 {
        after == lints && after_diagnostics == before
    } else {
        exists|mid: L, mid_diagnostics: Diagnostics|
            #[trigger] walk_point(mid, mid_diagnostics) && body_walked(
                lints,
                ctx,
                body.drop_last(),
                before,
                mid,
                mid_diagnostics,
            ) && instruction_walked(
                mid,
                ctx,
                body.last(),
                mid_diagnostics,
                after,
                after_diagnostics,
            )
    }
}

/// A body is walked by walking all but its last instruction, then that one.
proof fn lemma_body_walked_step<L: Lint>(
    lints: L,
    ctx: &HIRContext,
    body: Seq<Spanned<HIRInstruction>>,
    before: Diagnostics,
    mid: L,
    mid_diagnostics: Diagnostics,
    after: L,
    after_diagnostics: Diagnostics,
)
    requires
        body.len() > 0,
        body_walked(lints, ctx, body.drop_last(), before, mid, mid_diagnostics),
        instruction_walked(mid, ctx, body.last(), mid_diagnostics, after, after_diagnostics),
    ensures
        body_walked(lints, ctx, body, before, after, after_diagnostics),
{
    assert(walk_point(mid, mid_diagnostics));
}

/// What giving each struct of a list to the lints, in order, does.
pub open spec fn structs_walked<L: Lint>(
    lints: L,
    ctx: &HIRContext,
    structs: Seq<HIRStruct>,
    before: Diagnostics,
    after: L,
    after_diagnostics: Diagnostics,
) -> bool
    decreases structs.len(),
{
    if structs.len() == 0 {
        after == lints && after_diagnostics == before
    } else {
        exists|mid: L, mid_diagnostics: Diagnostics|
            #[trigger] walk_point(mid, mid_diagnostics) && structs_walked(
                lints,
                ctx,
                structs.drop_last(),
                before,
                mid,
                mid_diagnostics,
            ) && mid.struct_step(ctx, &structs.last(), mid_diagnostics, after, after_diagnostics)
    }
}

/// What giving a word to the lints does: their word step, then each of its
/// instructions in turn.
pub open spec fn word_walked<L: Lint>(
    lints: L,
    ctx: &HIRContext,
    word: HIRWord,
    before: Diagnostics,
    after: L,
    after_diagnostics: Diagnostics,
) -> bool {
    exists|mid: L, mid_diagnostics: Diagnostics|
        #[trigger] walk_point(mid, mid_diagnostics) && lints.word_step(ctx, &word, before, mid, mid_diagnostics)
            && body_walked(mid, ctx, word.body@, mid_diagnostics, after, after_diagnostics)
}

/// What giving each word of a list to the lints, in order, does.
pub open spec fn words_walked<L: Lint>(
    lints: L,
    ctx: &HIRContext,
    words: Seq<Spanned<HIRWord>>,
    before: Diagnostics,
    after: L,
    after_diagnostics: Diagnostics,
) -> bool
    decreases words.len(),
{
    if words.len() == 0 {
        after == lints && after_diagnostics == before
    } else {
        exists|mid: L, mid_diagnostics: Diagnostics|
            #[trigger] walk_point(mid, mid_diagnostics) && words_walked(
                lints,
                ctx,
                words.drop_last(),
                before,
                mid,
                mid_diagnostics,
            ) && word_walked(mid, ctx, words.last().value, mid_diagnostics, after, after_diagnostics)
    }
}

/// What giving a module to the lints does: their module step, then its
/// structs, then its words.
pub open spec fn module_walked<L: Lint>(
    lints: L,
    ctx: &HIRContext,
    module: HIRModule,
    before: Diagnostics,
    after: L,
    after_diagnostics: Diagnostics,
) -> bool {
    exists|m1: L, d1: Diagnostics, m2: L, d2: Diagnostics|
        #![trigger walk_point(m1, d1), walk_point(m2, d2)]
        lints.module_step(ctx, &module, before, m1, d1) && structs_walked(m1, ctx, module.structs@, d1, m2, d2)
            && words_walked(m2, ctx, module.words@, d2, after, after_diagnostics)
}

/// What giving each module of a list to the lints, in order, does.
pub open spec fn modules_walked<L: Lint>(
    lints: L,
    ctx: &HIRContext,
    modules: Seq<HIRModule>,
    before: Diagnostics,
    after: L,
    after_diagnostics: Diagnostics,
) -> bool
    decreases modules.len(),
{
    if modules.len() == 0 {
        after == lints && after_diagnostics == before
    } else {
        exists|mid: L, mid_diagnostics: Diagnostics|
            #[trigger] walk_point(mid, mid_diagnostics) && modules_walked(
                lints,
                ctx,
                modules.drop_last(),
                before,
                mid,
                mid_diagnostics,
            ) && module_walked(mid, ctx, modules.last(), mid_diagnostics, after, after_diagnostics)
    }
}

/// What running the lints over a program does: their program step, then
/// each module, then `finish`.
pub open spec fn program_walked<L: Lint>(
    lints: L,
    ctx: &HIRContext,
    program: HIRProgram,
    before: Diagnostics,
    after: L,
    after_diagnostics: Diagnostics,
) -> bool {
    exists|m1: L, d1: Diagnostics, m2: L, d2: Diagnostics|
        #![trigger walk_point(m1, d1), walk_point(m2, d2)]
        lints.program_step(ctx, &program, before, m1, d1) && modules_walked(m1, ctx, program.modules@, d1, m2, d2)
            && m2.finish_step(ctx, &program, d2, after, after_diagnostics)
}

proof fn lemma_structs_walked_step<L: Lint>(
    lints: L,
    ctx: &HIRContext,
    structs: Seq<HIRStruct>,
    before: Diagnostics,
    mid: L,
    mid_diagnostics: Diagnostics,
    after: L,
    after_diagnostics: Diagnostics,
)
    requires
        structs.len() > 0,
        structs_walked(lints, ctx, structs.drop_last(), before, mid, mid_diagnostics),
        mid.struct_step(ctx, &structs.last(), mid_diagnostics, after, after_diagnostics),
    ensures
        structs_walked(lints, ctx, structs, before, after, after_diagnostics),
{
    assert(walk_point(mid, mid_diagnostics));
}

proof fn lemma_words_walked_step<L: Lint>(
    lints: L,
    ctx: &HIRContext,
    words: Seq<Spanned<HIRWord>>,
    before: Diagnostics,
    mid: L,
    mid_diagnostics: Diagnostics,
    after: L,
    after_diagnostics: Diagnostics,
)
    requires
        words.len() > 0,
        words_walked(lints, ctx, words.drop_last(), before, mid, mid_diagnostics),
        word_walked(mid, ctx, words.last().value, mid_diagnostics, after, after_diagnostics),
    ensures
        words_walked(lints, ctx, words, before, after, after_diagnostics),
{
    assert(walk_point(mid, mid_diagnostics));
}

proof fn lemma_modules_walked_step<L: Lint>(
    lints: L,
    ctx: &HIRContext,
    modules: Seq<HIRModule>,
    before: Diagnostics,
    mid: L,
    mid_diagnostics: Diagnostics,
    after: L,
    after_diagnostics: Diagnostics,
)
    requires
        modules.len() > 0,
        modules_walked(lints, ctx, modules.drop_last(), before, mid, mid_diagnostics),
        module_walked(mid, ctx, modules.last(), mid_diagnostics, after, after_diagnostics),
    ensures
        modules_walked(lints, ctx, modules, before, after, after_diagnostics),
{
    assert(walk_point(mid, mid_diagnostics));
}

/// The lints to run, in the order they were added.
pub struct LintPass<L> {
    pub lints: L,
}

impl Default for LintPass<()> {
    fn default() -> (r: Self)
        ensures
            r.lints == (),
    {
        LintPass { lints: () }
    }
}

impl<L: Lint> LintPass<L> {
    /// The pass with one more lint, run after the others.
    pub fn lint<M: Lint>(self, lint: M) -> (r: LintPass<(L, M)>)
        ensures
            r.lints == (self.lints, lint),
    {
        LintPass { lints: (self.lints, lint) }
    }

    /// Gives an instruction, then each of a lambda's instructions, to the
    /// lints.
    fn check_instruction(
        lints: &mut L,
        ctx: &HIRContext,
        instruction: &Spanned<HIRInstruction>,
        diagnostics: &mut Diagnostics,
    )
        ensures
            warned(*old(diagnostics), *final(diagnostics)),
            instruction_walked(*old(lints), ctx, *instruction, *old(diagnostics), *final(lints), *final(diagnostics)),
        decreases hir_instruction_size(instruction.value),
    {
        let ghost d0 = *diagnostics;
        let ghost l0 = *lints;
        lints.check_instruction(ctx, instruction, diagnostics);
        let ghost d_mid = *diagnostics;
        let ghost l_mid = *lints;
        assert(l0.instruction_step(ctx, instruction, d0, l_mid, d_mid));
        match &instruction.value {
            HIRInstruction::Lambda { body, .. } => {
                let mut i: usize = 0;
                assert(body@.subrange(0, 0) =~= Seq::<Spanned<HIRInstruction>>::empty());
                while i < body.len()
                    invariant
                        i <= body@.len(),
                        instruction.value == (HIRInstruction::Lambda { stack_in: instruction.value->stack_in, stack_out: instruction.value->stack_out, body: *body }),
                        warned(d0, *diagnostics),
                        body_walked(l_mid, ctx, body@.subrange(0, i as int), d_mid, *lints, *diagnostics),
                    decreases body@.len() - i,
                {
                    let ghost d1 = *diagnostics;
                    let ghost l1 = *lints;
                    proof {
                        lemma_hir_body_size_prefix(body@, i as int);
                    }
                    Self::check_instruction(lints, ctx, &body[i], diagnostics);
                    proof {
                        lemma_warned_trans(d0, d1, *diagnostics);
                        let next = body@.subrange(0, i + 1);
                        assert(next.drop_last() =~= body@.subrange(0, i as int));
                        assert(next.last() == body@[i as int]);
                        assert(body_walked(l_mid, ctx, next.drop_last(), d_mid, l1, d1));
                        assert(instruction_walked(l1, ctx, next.last(), d1, *lints, *diagnostics));
                        lemma_body_walked_step(l_mid, ctx, next, d_mid, l1, d1, *lints, *diagnostics);
                    }
                    i += 1;
                }
                assert(body@.subrange(0, body@.len() as int) =~= body@);
            },
            _ => {},
        }
    }
}

impl<L: Lint> Stage<CompileContext> for LintPass<L> {
    type Input = (HIRContext, HIRProgram);

    type Output = (HIRContext, HIRProgram);

    open spec fn runs(
        &self,
        input: Self::Input,
        context: CompileContext,
        after: Self,
        after_context: CompileContext,
        result: StageResult<Self::Output>,
    ) -> bool {
        &&& (result.output == Some(input))
        &&& (!result.diagnostics.fatal)
        &&& (forall|i: int|
                0 <= i < result.diagnostics.errors@.len() ==> (#[trigger] result.diagnostics.errors@[i]).kind
                    == DiagnosticKind::Warning)
        &&& (exists|start: Diagnostics|
                start.errors@.len() == 0 && !start.fatal && #[trigger] program_walked(
                    self.lints,
                    &input.0,
                    input.1,
                    start,
                    after.lints,
                    result.diagnostics,
                ))
        &&& (after_context == context)
    }

    /// Runs the lints over the program: the program first, then each
    /// module, its structs, and its words with their instructions, and at
    /// last `finish`. The program is handed on unchanged, and only
    /// warnings are reported.
    fn execute(&mut self, input: (HIRContext, HIRProgram), context: &mut CompileContext) -> (r: StageResult<
        (HIRContext, HIRProgram),
    >)
    {
        let (ctx, program) = input;
        let mut diagnostics = Diagnostics::new();
        let ghost d0 = diagnostics;
        let ghost l0 = self.lints;
        self.lints.check_program(&ctx, &program, &mut diagnostics);
        let ghost d1 = diagnostics;
        let ghost l1 = self.lints;
        let mut m: usize = 0;
        assert(program.modules@.subrange(0, 0) =~= Seq::<HIRModule>::empty());
        while m < program.modules.len()
            invariant
                m <= program.modules@.len(),
                warned(d0, diagnostics),
                modules_walked(l1, &ctx, program.modules@.subrange(0, m as int), d1, self.lints, diagnostics),
            decreases program.modules@.len() - m,
        {
            let module = &program.modules[m];
            let ghost dm0 = diagnostics;
            let ghost lm0 = self.lints;
            self.lints.check_module(&ctx, module, &mut diagnostics);
            proof {
                lemma_warned_trans(d0, dm0, diagnostics);
            }
            let ghost dm1 = diagnostics;
            let ghost lm1 = self.lints;
            let mut s: usize = 0;
            assert(module.structs@.subrange(0, 0) =~= Seq::<HIRStruct>::empty());
            while s < module.structs.len()
                invariant
                    s <= module.structs@.len(),
                    warned(d0, diagnostics),
                    structs_walked(lm1, &ctx, module.structs@.subrange(0, s as int), dm1, self.lints, diagnostics),
                decreases module.structs@.len() - s,
            {
                let ghost d2 = diagnostics;
                let ghost l2 = self.lints;
                self.lints.check_struct(&ctx, &module.structs[s], &mut diagnostics);
                proof {
                    lemma_warned_trans(d0, d2, diagnostics);
                    let next = module.structs@.subrange(0, s + 1);
                    assert(next.drop_last() =~= module.structs@.subrange(0, s as int));
                    assert(next.last() == module.structs@[s as int]);
                    lemma_structs_walked_step(lm1, &ctx, next, dm1, l2, d2, self.lints, diagnostics);
                }
                s += 1;
            }
            assert(module.structs@.subrange(0, module.structs@.len() as int) =~= module.structs@);
            let ghost dm2 = diagnostics;
            let ghost lm2 = self.lints;
            let mut w: usize = 0;
            assert(module.words@.subrange(0, 0) =~= Seq::<Spanned<HIRWord>>::empty());
            while w < module.words.len()
                invariant
                    w <= module.words@.len(),
                    warned(d0, diagnostics),
                    words_walked(lm2, &ctx, module.words@.subrange(0, w as int), dm2, self.lints, diagnostics),
                decreases module.words@.len() - w,
            {
                let word = &module.words[w];
                let ghost d2 = diagnostics;
                let ghost l2 = self.lints;
                self.lints.check_word(&ctx, &word.value, &mut diagnostics);
                proof {
                    lemma_warned_trans(d0, d2, diagnostics);
                }
                let ghost dw = diagnostics;
                let ghost lw = self.lints;
                let mut k: usize = 0;
                assert(word.value.body@.subrange(0, 0) =~= Seq::<Spanned<HIRInstruction>>::empty());
                while k < word.value.body.len()
                    invariant
                        k <= word.value.body@.len(),
                        warned(d0, diagnostics),
                        body_walked(lw, &ctx, word.value.body@.subrange(0, k as int), dw, self.lints, diagnostics),
                    decreases word.value.body@.len() - k,
                {
                    let ghost d3 = diagnostics;
                    let ghost l3 = self.lints;
                    Self::check_instruction(&mut self.lints, &ctx, &word.value.body[k], &mut diagnostics);
                    proof {
                        lemma_warned_trans(d0, d3, diagnostics);
                        let next = word.value.body@.subrange(0, k + 1);
                        assert(next.drop_last() =~= word.value.body@.subrange(0, k as int));
                        assert(next.last() == word.value.body@[k as int]);
                        lemma_body_walked_step(lw, &ctx, next, dw, l3, d3, self.lints, diagnostics);
                    }
                    k += 1;
                }
                proof {
                    assert(word.value.body@.subrange(0, word.value.body@.len() as int) =~= word.value.body@);
                    assert(walk_point(lw, dw));
                    assert(word_walked(l2, &ctx, word.value, d2, self.lints, diagnostics));
                    let next = module.words@.subrange(0, w + 1);
                    assert(next.drop_last() =~= module.words@.subrange(0, w as int));
                    assert(next.last() == module.words@[w as int]);
                    lemma_words_walked_step(lm2, &ctx, next, dm2, l2, d2, self.lints, diagnostics);
                }
                w += 1;
            }
            proof {
                assert(module.words@.subrange(0, module.words@.len() as int) =~= module.words@);
                assert(walk_point(lm1, dm1) && walk_point(lm2, dm2));
                assert(module_walked(lm0, &ctx, *module, dm0, self.lints, diagnostics));
                let next = program.modules@.subrange(0, m + 1);
                assert(next.drop_last() =~= program.modules@.subrange(0, m as int));
                assert(next.last() == program.modules@[m as int]);
                lemma_modules_walked_step(l1, &ctx, next, d1, lm0, dm0, self.lints, diagnostics);
            }
            m += 1;
        }
        assert(program.modules@.subrange(0, program.modules@.len() as int) =~= program.modules@);
        let ghost d4 = diagnostics;
        let ghost l4 = self.lints;
        self.lints.finish(&ctx, &program, &mut diagnostics);
        proof {
            lemma_warned_trans(d0, d4, diagnostics);
            assert(walk_point(l1, d1) && walk_point(l4, d4));
            assert(program_walked(l0, &ctx, program, d0, self.lints, diagnostics));
        }
        StageResult::new(Some((ctx, program)), diagnostics)
    }
}

} // verus!
