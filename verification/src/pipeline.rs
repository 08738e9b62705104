//! Stages and the pipeline that runs them one after another.
use vstd::prelude::*;

use crate::error::{Diagnostic, Diagnostics, has_error};

verus! {

/// What a stage hands on: its output, if it produced one, and what it
/// reported.
#[derive(Debug)]
pub struct StageResult<T> {
    pub output: Option<T>,
    pub diagnostics: Diagnostics,
}

impl<T> StageResult<T> {
    /// An output with nothing reported.
    pub fn success(output: T) -> (r: Self)
        ensures
            r.output == Some(output),
            r.diagnostics.errors@.len() == 0,
            !r.diagnostics.fatal,
    {
        StageResult { output: Some(output), diagnostics: Diagnostics::new() }
    }

    pub fn new(output: Option<T>, diagnostics: Diagnostics) -> (r: Self)
        ensures
            r.output == output,
            r.diagnostics == diagnostics,
    {
        StageResult { output, diagnostics }
    }
}

/// One step of the compilation: from an input, in a shared context, to an
/// output.
pub trait Stage<C>: Sized {
    type Input;
    type Output;

    /// What running the stage does: whether, from the stage as it is, the
    /// input and the context, it can leave the stage as `after` and the
    /// context as `after_context`, and return `result`.
    spec fn runs(
        &self,
        input: Self::Input,
        context: C,
        after: Self,
        after_context: C,
        result: StageResult<Self::Output>,
    ) -> bool;

    fn execute(&mut self, input: Self::Input, context: &mut C) -> (r: StageResult<Self::Output>)
        ensures
            old(self).runs(input, *old(context), *final(self), *final(context), r),
    ;
}

/// A chain of stages: the last output, the shared context and every
/// diagnostic reported so far.
#[derive(Debug)]
pub struct PipelineBuilder<O, C> {
    pub prev: Option<O>,
    pub context: C,
    pub diagnostics: Diagnostics,
}

impl<O, C> PipelineBuilder<O, C> {
    /// A pipeline whose first stage will get `init`.
    pub fn new(init: O, context: C) -> (r: Self)
        ensures
            r.prev == Some(init),
            r.context == context,
            r.diagnostics.errors@.len() == 0,
            !r.diagnostics.fatal,
    {
        PipelineBuilder { prev: Some(init), context, diagnostics: Diagnostics::new() }
    }

    /// Runs `stage` on the last output, unless a fatal diagnostic was
    /// reported or there is no output; then nothing runs and nothing changes
    /// but that there is no output any more. The diagnostics of the stage
    /// are added after those reported before.
    pub fn stage<T>(self, stage: T) -> (r: PipelineBuilder<T::Output, C>) where
        T: Stage<C, Input = O>,

        ensures
            (self.diagnostics.fatal || self.prev is None) ==> (r.prev is None && r.context
                == self.context && r.diagnostics == self.diagnostics),
            self.diagnostics.errors@.is_prefix_of(r.diagnostics.errors@),
            self.diagnostics.fatal ==> r.diagnostics.fatal,
            !(self.diagnostics.fatal || self.prev is None) ==> exists|ran: T, out: StageResult<T::Output>|
                #[trigger] stage.runs(self.prev->0, self.context, ran, r.context, out) && r.prev == out.output
                    && r.diagnostics.errors@ == self.diagnostics.errors@ + out.diagnostics.errors@
                    && r.diagnostics.fatal == out.diagnostics.fatal,
    {
        let ghost self0 = self;
        let ghost stage_in = stage;
        let mut st = stage;
        let mut this = self;
        if this.diagnostics.fatal {
            return PipelineBuilder { prev: None, context: this.context, diagnostics: this.diagnostics };
        }
        let prev = match this.prev {
            Some(prev) => prev,
            None => {
                return PipelineBuilder {
                    prev: None,
                    context: this.context,
                    diagnostics: this.diagnostics,
                };
            },
        };
        let mut context = this.context;
        let ghost prev0 = prev;
        let ghost context0 = context;
        let outcome = st.execute(prev, &mut context);
        let ghost out = outcome;
        let ghost ran = st;
        assert(stage_in.runs(self0.prev->0, self0.context, ran, context, out));
        let mut diagnostics = this.diagnostics;
        let ghost before = diagnostics.errors@;
        diagnostics.append(outcome.diagnostics);
        assert(before.is_prefix_of(diagnostics.errors@)) by {
            assert(diagnostics.errors@.subrange(0, before.len() as int) =~= before);
        }
        let result = PipelineBuilder { prev: outcome.output, context, diagnostics };
        assert(result.prev == out.output);
        assert(result.diagnostics.errors@ == before + out.diagnostics.errors@);
        assert(result.diagnostics.fatal == out.diagnostics.fatal);
        assert(stage_in.runs(self0.prev->0, self0.context, ran, result.context, out));
        result
    }

    /// The last output; the diagnostics where an error was reported or no
    /// output is left.
    pub fn dump(&self) -> (r: Result<&O, &Vec<Diagnostic>>)
        ensures
            r matches Ok(o) ==> !has_error(self.diagnostics.errors@) && self.prev == Some(*o),
            r matches Err(e) ==> *e == self.diagnostics.errors && (has_error(
                self.diagnostics.errors@,
            ) || self.prev is None),
    {
        if self.diagnostics.has_errors() {
            Err(&self.diagnostics.errors)
        } else {
            match &self.prev {
                Some(o) => Ok(o),
                None => Err(&self.diagnostics.errors),
            }
        }
    }
}

} // verus!
