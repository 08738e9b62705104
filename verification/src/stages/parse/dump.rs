//! A readable listing of the syntax tree: each module with its words.
use vstd::prelude::*;

use crate::common::{CompileContext, Spanned};
use crate::pipeline::{Stage, StageResult};
use crate::stages::parse::ast::{
    ASTInstruction, ASTLiteral, ASTModule, ASTProgram, ASTStackEffect, ASTStackEffectItem, ASTWord,
    ASTWordVar,
};
use crate::text::{decimal_chars, join_seq, string_extend, usize_to_string};

verus! {

/// How a stack item is listed: a path, `...name`, `|effect|` or
/// `[element; size]`.
pub open spec fn item_text(item: ASTStackEffectItem) -> Seq<char>
    decreases item,
{
    match item {
        ASTStackEffectItem::Symbol { name } => join_seq(name@, '.'),
        ASTStackEffectItem::StackVar { name } => "..."@ + name@,
        ASTStackEffectItem::Lambda { stack_effect } => "|"@ + items_text(stack_effect.value.stack_in@)
            + " -- "@ + items_text(stack_effect.value.stack_out@) + "|"@,
        ASTStackEffectItem::Array { element, size } => "["@ + item_text(element.value) + "; "@
            + decimal_chars(size as nat) + "]"@,
    }
}

/// Items separated by `, `.
pub open spec fn items_text(items: Seq<Spanned<ASTStackEffectItem>>) -> Seq<char>
    decreases items,
{
    if items.len() == 0 {
        Seq::empty()
    } else if items.len() == 1 {
        item_text(items[0].value)
    } else {
        items_text(items.drop_last()) + ", "@ + item_text(items.last().value)
    }
}

/// `inputs -- outputs`.
pub open spec fn effect_text(e: ASTStackEffect) -> Seq<char> {
    items_text(e.stack_in@) + " -- "@ + items_text(e.stack_out@)
}

pub open spec fn literal_text(l: ASTLiteral) -> Seq<char> {
    match l {
        ASTLiteral::Bool(b) => if b {
            "true"@
        } else {
            "false"@
        },
        ASTLiteral::String(s) => s@,
        ASTLiteral::U8(v) => decimal_chars(v as nat),
        ASTLiteral::U16(v) => decimal_chars(v as nat),
    }
}

/// How an instruction is listed: a literal's value, a call's path, a pack
/// or unpack as written, a lambda as `|effect| { body }`.
pub open spec fn instruction_text(i: ASTInstruction) -> Seq<char>
    decreases i,
{
    match i {
        ASTInstruction::Literal(l) => literal_text(l),
        ASTInstruction::Call(p) => join_seq(p@, '.'),
        ASTInstruction::Pack(p) => ">"@ + join_seq(p@, '.'),
        ASTInstruction::PackPostfix(p) => join_seq(p@, '.') + "<"@,
        ASTInstruction::Unpack(p) => join_seq(p@, '.') + ">"@,
        ASTInstruction::Lambda { stack_effect, body } => "|"@ + items_text(stack_effect.value.stack_in@)
            + " -- "@ + items_text(stack_effect.value.stack_out@) + "| { "@ + body_text(body@, " "@)
            + " }"@,
    }
}

/// Instructions separated by `sep`.
pub open spec fn body_text(body: Seq<Spanned<ASTInstruction>>, sep: Seq<char>) -> Seq<char>
    decreases body,
{
    if body.len() == 0 {
        Seq::empty()
    } else if body.len() == 1 {
        instruction_text(body[0].value)
    } else {
        body_text(body.drop_last(), sep) + sep + instruction_text(body.last().value)
    }
}

pub open spec fn var_name(v: ASTWordVar) -> Seq<char> {
    match v {
        ASTWordVar::Type { name } => name.value@,
        ASTWordVar::Stack { name } => name.value@,
    }
}

/// Word variables by name, separated by `, `.
pub open spec fn vars_text(vars: Seq<ASTWordVar>) -> Seq<char>
    decreases vars.len(),
{
    if vars.len() == 0 {
        Seq::empty()
    } else if vars.len() == 1 {
        var_name(vars[0])
    } else {
        vars_text(vars.drop_last()) + ", "@ + var_name(vars.last())
    }
}

/// `def name<vars>(effect)`, the instructions one per line after a tab,
/// then `end` and an empty line.
pub open spec fn word_text(w: ASTWord) -> Seq<char> {
    "def "@ + w.name.value@ + (if w.word_vars@.len() > 0 {
        "<"@ + vars_text(w.word_vars@) + ">"@
    } else {
        Seq::empty()
    }) + "("@ + effect_text(w.stack_effect.value) + ")\n"@ + (if w.body@.len() > 0 {
        "\t"@ + body_text(w.body@, "\n\t"@) + "\n"@
    } else {
        Seq::empty()
    }) + "end\n\n"@
}

pub open spec fn words_text(words: Seq<Spanned<ASTWord>>) -> Seq<char>
    decreases words.len(),
{
    if words.len() == 0 {
        Seq::empty()
    } else {
        words_text(words.drop_last()) + word_text(words.last().value)
    }
}

/// `module "name"`, an empty line, then the words.
pub open spec fn module_text(m: ASTModule) -> Seq<char> {
    "module \""@ + join_seq(m.name.value@, '.') + "\"\n\n"@ + words_text(m.words@)
}

pub open spec fn modules_text(modules: Seq<ASTModule>) -> Seq<char>
    decreases modules.len(),
{
    if modules.len() == 0 {
        Seq::empty()
    } else {
        modules_text(modules.drop_last()) + module_text(modules.last())
    }
}

fn dump_stack_item(buf: &mut String, item: &ASTStackEffectItem)
    ensures
        final(buf)@ == old(buf)@ + item_text(*item),
    decreases item,
{
    match item {
        ASTStackEffectItem::Symbol { name } => {
            let s = name.to_dotted_string();
            string_extend(buf, s.as_str());
        },
        ASTStackEffectItem::StackVar { name } => {
            string_extend(buf, "...");
            string_extend(buf, name.as_str());
        },
        ASTStackEffectItem::Lambda { stack_effect } => {
            string_extend(buf, "|");
            dump_items(buf, &stack_effect.value.stack_in);
            string_extend(buf, " -- ");
            dump_items(buf, &stack_effect.value.stack_out);
            string_extend(buf, "|");
        },
        ASTStackEffectItem::Array { element, size } => {
            string_extend(buf, "[");
            dump_stack_item(buf, &element.value);
            string_extend(buf, "; ");
            let n = usize_to_string(*size);
            string_extend(buf, n.as_str());
            string_extend(buf, "]");
        },
    }
    assert(buf@ =~= old(buf)@ + item_text(*item));
}

fn dump_items(buf: &mut String, items: &Vec<Spanned<ASTStackEffectItem>>)
    ensures
        final(buf)@ == old(buf)@ + items_text(items@),
    decreases items@,
{
    let ghost start = buf@;
    let mut k: usize = 0;
    assert(items@.subrange(0, 0) =~= Seq::<Spanned<ASTStackEffectItem>>::empty());
    while k < items.len()
        invariant
            k <= items@.len(),
            buf@ == start + items_text(items@.subrange(0, k as int)),
        decreases items@.len() - k,
    {
        let ghost next = items@.subrange(0, k + 1);
        assert(next.drop_last() =~= items@.subrange(0, k as int));
        assert(next.last() == items@[k as int]);
        if k > 0 {
            string_extend(buf, ", ");
        }
        dump_stack_item(buf, &items[k].value);
        proof {
            if k == 0 {
                assert(next[0] == items@[0]);
            }
            assert(buf@ =~= start + items_text(next));
        }
        k += 1;
    }
    assert(items@.subrange(0, items@.len() as int) =~= items@);
}

fn dump_instruction(buf: &mut String, instruction: &ASTInstruction)
    ensures
        final(buf)@ == old(buf)@ + instruction_text(*instruction),
    decreases instruction,
{
    match instruction {
        ASTInstruction::Literal(literal) => match literal {
            ASTLiteral::Bool(b) => {
                if *b {
                    string_extend(buf, "true");
                } else {
                    string_extend(buf, "false");
                }
            },
            ASTLiteral::String(s) => string_extend(buf, s.as_str()),
            ASTLiteral::U8(v) => {
                let n = usize_to_string(*v as usize);
                string_extend(buf, n.as_str());
            },
            ASTLiteral::U16(v) => {
                let n = usize_to_string(*v as usize);
                string_extend(buf, n.as_str());
            },
        },
        ASTInstruction::Call(p) => {
            let s = p.to_dotted_string();
            string_extend(buf, s.as_str());
        },
        ASTInstruction::Pack(p) => {
            string_extend(buf, ">");
            let s = p.to_dotted_string();
            string_extend(buf, s.as_str());
        },
        ASTInstruction::PackPostfix(p) => {
            let s = p.to_dotted_string();
            string_extend(buf, s.as_str());
            string_extend(buf, "<");
        },
        ASTInstruction::Unpack(p) => {
            let s = p.to_dotted_string();
            string_extend(buf, s.as_str());
            string_extend(buf, ">");
        },
        ASTInstruction::Lambda { stack_effect, body } => {
            string_extend(buf, "|");
            dump_items(buf, &stack_effect.value.stack_in);
            string_extend(buf, " -- ");
            dump_items(buf, &stack_effect.value.stack_out);
            string_extend(buf, "| { ");
            dump_body(buf, body, " ");
            string_extend(buf, " }");
        },
    }
    assert(buf@ =~= old(buf)@ + instruction_text(*instruction));
}

fn dump_body(buf: &mut String, body: &Vec<Spanned<ASTInstruction>>, sep: &str)
    ensures
        final(buf)@ == old(buf)@ + body_text(body@, sep@),
    decreases body@,
{
    let ghost start = buf@;
    let mut k: usize = 0;
    assert(body@.subrange(0, 0) =~= Seq::<Spanned<ASTInstruction>>::empty());
    while k < body.len()
        invariant
            k <= body@.len(),
            buf@ == start + body_text(body@.subrange(0, k as int), sep@),
        decreases body@.len() - k,
    {
        let ghost next = body@.subrange(0, k + 1);
        assert(next.drop_last() =~= body@.subrange(0, k as int));
        assert(next.last() == body@[k as int]);
        if k > 0 {
            string_extend(buf, sep);
        }
        dump_instruction(buf, &body[k].value);
        proof {
            if k == 0 {
                assert(next[0] == body@[0]);
            }
            assert(buf@ =~= start + body_text(next, sep@));
        }
        k += 1;
    }
    assert(body@.subrange(0, body@.len() as int) =~= body@);
}

fn dump_vars(buf: &mut String, vars: &Vec<ASTWordVar>)
    ensures
        final(buf)@ == old(buf)@ + vars_text(vars@),
{
    let ghost start = buf@;
    let mut k: usize = 0;
    assert(vars@.subrange(0, 0) =~= Seq::<ASTWordVar>::empty());
    while k < vars.len()
        invariant
            k <= vars@.len(),
            buf@ == start + vars_text(vars@.subrange(0, k as int)),
        decreases vars@.len() - k,
    {
        let ghost next = vars@.subrange(0, k + 1);
        assert(next.drop_last() =~= vars@.subrange(0, k as int));
        assert(next.last() == vars@[k as int]);
        if k > 0 {
            string_extend(buf, ", ");
        }
        match &vars[k] {
            ASTWordVar::Type { name } => string_extend(buf, name.value.as_str()),
            ASTWordVar::Stack { name } => string_extend(buf, name.value.as_str()),
        }
        proof {
            if k == 0 {
                assert(next[0] == vars@[0]);
            }
            assert(buf@ =~= start + vars_text(next));
        }
        k += 1;
    }
    assert(vars@.subrange(0, vars@.len() as int) =~= vars@);
}

/// Appends the listing of a word.
pub fn dump_word(buf: &mut String, word: &ASTWord)
    ensures
        final(buf)@ == old(buf)@ + word_text(*word),
{
    string_extend(buf, "def ");
    string_extend(buf, word.name.value.as_str());
    if word.word_vars.len() > 0 {
        string_extend(buf, "<");
        dump_vars(buf, &word.word_vars);
        string_extend(buf, ">");
    }
    string_extend(buf, "(");
    dump_items(buf, &word.stack_effect.value.stack_in);
    string_extend(buf, " -- ");
    dump_items(buf, &word.stack_effect.value.stack_out);
    string_extend(buf, ")\n");
    if word.body.len() > 0 {
        string_extend(buf, "\t");
        dump_body(buf, &word.body, "\n\t");
        string_extend(buf, "\n");
    }
    string_extend(buf, "end\n\n");
    assert(buf@ =~= old(buf)@ + word_text(*word));
}

/// Appends the listing of a module.
pub fn dump_module(buf: &mut String, module: &ASTModule)
    ensures
        final(buf)@ == old(buf)@ + module_text(*module),
{
    let ghost start = buf@;
    string_extend(buf, "module \"");
    let name = module.name.value.to_dotted_string();
    string_extend(buf, name.as_str());
    string_extend(buf, "\"\n\n");
    let ghost head = buf@;
    let mut k: usize = 0;
    assert(module.words@.subrange(0, 0) =~= Seq::<Spanned<ASTWord>>::empty());
    while k < module.words.len()
        invariant
            k <= module.words@.len(),
            buf@ == head + words_text(module.words@.subrange(0, k as int)),
        decreases module.words@.len() - k,
    {
        let ghost next = module.words@.subrange(0, k + 1);
        assert(next.drop_last() =~= module.words@.subrange(0, k as int));
        assert(next.last() == module.words@[k as int]);
        dump_word(buf, &module.words[k].value);
        assert(buf@ =~= head + words_text(next));
        k += 1;
    }
    assert(module.words@.subrange(0, module.words@.len() as int) =~= module.words@);
    assert(buf@ =~= start + module_text(*module));
}

/// The listing of a program, module by module.
pub fn dump_program(program: &ASTProgram) -> (r: String)
    ensures
        r@ == modules_text(program.modules@),
{
    let mut buf = String::new();
    let mut k: usize = 0;
    assert(program.modules@.subrange(0, 0) =~= Seq::<ASTModule>::empty());
    while k < program.modules.len()
        invariant
            k <= program.modules@.len(),
            buf@ == modules_text(program.modules@.subrange(0, k as int)),
        decreases program.modules@.len() - k,
    {
        let ghost next = program.modules@.subrange(0, k + 1);
        assert(next.drop_last() =~= program.modules@.subrange(0, k as int));
        assert(next.last() == program.modules@[k as int]);
        dump_module(&mut buf, &program.modules[k]);
        k += 1;
    }
    assert(program.modules@.subrange(0, program.modules@.len() as int) =~= program.modules@);
    buf
}

/// Lists the syntax tree and hands it on; the listing is kept for the
/// caller to show.
pub struct DumpAst {
    pub output: String,
}

impl Default for DumpAst {
    fn default() -> (r: Self)
        ensures
            r.output@.len() == 0,
    {
        DumpAst { output: String::new() }
    }
}

impl Stage<CompileContext> for DumpAst {
    type Input = ASTProgram;

    type Output = ASTProgram;

    open spec fn runs(
        &self,
        input: Self::Input,
        context: CompileContext,
        after: Self,
        after_context: CompileContext,
        result: StageResult<Self::Output>,
    ) -> bool {
        &&& (after.output@ == self.output@ + modules_text(input.modules@))
        &&& (result.output == Some(input))
        &&& (result.diagnostics.errors@.len() == 0)
        &&& (!result.diagnostics.fatal)
        &&& (after_context == context)
    }

    /// Adds the listing of the program to `output`; the program is handed
    /// on unchanged and nothing is reported.
    fn execute(&mut self, input: ASTProgram, context: &mut CompileContext) -> (r: StageResult<ASTProgram>)
    {
        let listing = dump_program(&input);
        string_extend(&mut self.output, listing.as_str());
        StageResult::success(input)
    }
}

} // verus!
