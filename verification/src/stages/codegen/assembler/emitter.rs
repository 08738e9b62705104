//! Collects assembly source one line at a time.
use vstd::prelude::*;

verus! {

/// An assembly line that can be written out as text.
pub trait Assembly: Sized {
    /// The text of the line, without the line break.
    spec fn text(&self) -> Seq<char>;

    fn write_to(self, output: &mut String)
        ensures
            final(output)@ == old(output)@ + self.text(),
    ;
}

/// The text of lines, each followed by a line break.
pub open spec fn lines_text<A: Assembly>(lines: Seq<A>) -> Seq<char>
    decreases lines.len(),
{
    if lines.len() == 0 {
        Seq::empty()
    } else {
        lines_text(lines.drop_last()) + lines.last().text() + seq!['\n']
    }
}

/// The assembly source written so far, and the lines it was written from.
pub struct Emitter<A> {
    pub output: String,
    pub lines: Ghost<Seq<A>>,
    pub assembly: core::marker::PhantomData<A>,
}

impl<A: Assembly> Emitter<A> {
    /// The source is the text of the lines.
    pub open spec fn wf(&self) -> bool {
        self.output@ == lines_text(self.lines@)
    }

    pub fn new() -> (r: Self)
        ensures
            r.output@.len() == 0,
            r.lines@.len() == 0,
            r.wf(),
    {
        Emitter { output: String::new(), lines: Ghost(Seq::empty()), assembly: core::marker::PhantomData }
    }

    /// Writes one line.
    pub fn emit(&mut self, assembly: A)
        ensures
            final(self).output@ == old(self).output@ + assembly.text() + seq!['\n'],
            final(self).lines@ == old(self).lines@.push(assembly),
            old(self).wf() ==> final(self).wf(),
    {
        let ghost line = assembly;
        assembly.write_to(&mut self.output);
        crate::text::string_push(&mut self.output, '\n');
        proof {
            let before = self.lines@;
            self.lines = Ghost(before.push(line));
            assert(self.lines@.drop_last() =~= before);
            assert(self.lines@.last() == line);
            assert(lines_text(self.lines@) == lines_text(before) + line.text() + seq!['\n']);
        }
    }

    /// The source written.
    pub fn finish(self) -> (r: String)
        ensures
            r@ == self.output@,
    {
        self.output
    }
}

} // verus!
