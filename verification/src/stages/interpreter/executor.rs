//! The IR interpreter: a stack machine with a byte memory.
//!
//! It runs one instruction per `step`; what the program writes and reads is
//! handed to the caller as an action, so the machine itself does no I/O.
use vstd::prelude::*;

use crate::error::CompileError;
use crate::stages::lower::context::{TypeId, WordId};
use crate::stages::lower::ir::{
    BasicBlockId, IRConstant, IRInstruction, IRProgram, IRTerminator, IRType,
};
use crate::text::same_text;

verus! {

/// A value on the machine's stack.
#[derive(Debug)]
pub enum IRValue {
    Bool(bool),
    U8(u8),
    U16(u16),
    Lambda(WordId),
    Struct { type_id: TypeId, fields: Vec<IRValue> },
}

/// A value as a mathematical object: the fields of a struct are a sequence.
pub enum ValueView {
    Bool(bool),
    U8(u8),
    U16(u16),
    Lambda(WordId),
    Struct { type_id: TypeId, fields: Seq<ValueView> },
}

pub open spec fn value_view(v: IRValue) -> ValueView
    decreases v,
{
    match v {
        IRValue::Bool(b) => ValueView::Bool(b),
        IRValue::U8(x) => ValueView::U8(x),
        IRValue::U16(x) => ValueView::U16(x),
        IRValue::Lambda(w) => ValueView::Lambda(w),
        IRValue::Struct { type_id, fields } => ValueView::Struct {
            type_id,
            fields: values_view(fields@),
        },
    }
}

pub open spec fn values_view(vs: Seq<IRValue>) -> Seq<ValueView>
    decreases vs,
{
    if vs.len() == 0 {
        Seq::empty()
    } else {
        values_view(vs.drop_last()).push(value_view(vs.last()))
    }
}

pub proof fn lemma_values_view(vs: Seq<IRValue>)
    ensures
        values_view(vs).len() == vs.len(),
        forall|i: int| 0 <= i < vs.len() ==> #[trigger] values_view(vs)[i] == value_view(vs[i]),
    decreases vs.len(),
{
    if vs.len() > 0 {
        lemma_values_view(vs.drop_last());
        assert forall|i: int| 0 <= i < vs.len() implies #[trigger] values_view(vs)[i] == value_view(
            vs[i],
        ) by {
            if i < vs.len() - 1 {
                assert(vs.drop_last()[i] == vs[i]);
            }
        }
    }
}

/// The view of a sequence of values is taken element by element.
pub proof fn lemma_values_view_ext(vs: Seq<IRValue>, ws: Seq<ValueView>)
    requires
        ws.len() == vs.len(),
        forall|i: int| 0 <= i < vs.len() ==> ws[i] == value_view(#[trigger] vs[i]),
    ensures
        values_view(vs) == ws,
{
    lemma_values_view(vs);
    assert(values_view(vs) =~= ws);
}

/// A copy of a value.
pub fn copy_value(v: &IRValue) -> (r: IRValue)
    ensures
        value_view(r) == value_view(*v),
    decreases v,
{
    match v {
        IRValue::Bool(b) => IRValue::Bool(*b),
        IRValue::U8(x) => IRValue::U8(*x),
        IRValue::U16(x) => IRValue::U16(*x),
        IRValue::Lambda(w) => IRValue::Lambda(*w),
        IRValue::Struct { type_id, fields } => IRValue::Struct {
            type_id: *type_id,
            fields: copy_values(fields),
        },
    }
}

/// A copy of a list of values.
pub fn copy_values(vs: &Vec<IRValue>) -> (r: Vec<IRValue>)
    ensures
        values_view(r@) == values_view(vs@),
        r@.len() == vs@.len(),
    decreases vs@,
{
    let mut copied: Vec<IRValue> = Vec::new();
    let mut i: usize = 0;
    while i < vs.len()
        invariant
            i <= vs@.len(),
            copied@.len() == i,
            forall|j: int| 0 <= j < i ==> value_view(#[trigger] copied@[j]) == value_view(vs@[j]),
        decreases vs@.len() - i,
    {
        copied.push(copy_value(&vs[i]));
        i += 1;
    }
    proof {
        lemma_values_view(vs@);
        lemma_values_view_ext(copied@, values_view(vs@));
    }
    copied
}

pub open spec fn constant_view(c: IRConstant) -> ValueView {
    match c {
        IRConstant::Bool(b) => ValueView::Bool(b),
        IRConstant::U8(x) => ValueView::U8(x),
        IRConstant::U16(x) => ValueView::U16(x),
        IRConstant::StaticPtr(a) => ValueView::U16(a),
    }
}

/// What one instruction does to the machine.
pub enum Effect {
    /// The machine goes on with this stack, memory and heap pointer.
    Next { stack: Seq<ValueView>, memory: Seq<u8>, heap_ptr: int },
    /// The word is called, with this stack.
    Call { stack: Seq<ValueView>, word: WordId },
    /// The byte is written out, and the machine goes on with this stack.
    Output { stack: Seq<ValueView>, byte: u8 },
    /// A byte is to be read in and pushed.
    Input,
    /// The program stops with a runtime error.
    Error { label: Seq<char> },
    /// The instruction does not fit the values on the stack: the IR is not
    /// well typed.
    Invalid,
}

pub open spec fn underflow() -> Effect {
    Effect::Error { label: "stack underflow"@ }
}

/// `op` on the two values on top of the stack.
pub open spec fn binary_effect(
    s: Seq<ValueView>,
    m: Seq<u8>,
    h: int,
    result: Option<ValueView>,
) -> Effect {
    if s.len() < 2 {
        underflow()
    } else {
        match result {
            Some(v) => Effect::Next { stack: s.subrange(0, s.len() - 2).push(v), memory: m, heap_ptr: h },
            None => Effect::Invalid,
        }
    }
}

pub open spec fn arith(op: int, l: ValueView, r: ValueView) -> Option<ValueView> {
    match (l, r) {
        (ValueView::U8(a), ValueView::U8(b)) => Some(
            ValueView::U8(
                (if op == 0 {
                    (a + b) % 256
                } else if op == 1 {
                    (a - b + 256) % 256
                } else {
                    (a * b) % 256
                }) as u8,
            ),
        ),
        (ValueView::U16(a), ValueView::U16(b)) => Some(
            ValueView::U16(
                (if op == 0 {
                    (a + b) % 65536
                } else if op == 1 {
                    (a - b + 65536) % 65536
                } else {
                    (a * b) % 65536
                }) as u16,
            ),
        ),
        _ => None,
    }
}

pub open spec fn compare(op: int, l: ValueView, r: ValueView) -> Option<ValueView> {
    match (l, r) {
        (ValueView::U8(a), ValueView::U8(b)) => Some(
            ValueView::Bool(
                if op == 0 {
                    a == b
                } else if op == 1 {
                    a > b
                } else {
                    a < b
                },
            ),
        ),
        (ValueView::U16(a), ValueView::U16(b)) => Some(
            ValueView::Bool(
                if op == 0 {
                    a == b
                } else if op == 1 {
                    a > b
                } else {
                    a < b
                },
            ),
        ),
        (ValueView::Bool(a), ValueView::Bool(b)) => if op == 0 {
            Some(ValueView::Bool(a == b))
        } else {
            None
        },
        _ => None,
    }
}

/// Writing the byte on top of the stack out.
pub open spec fn put_char_effect(s: Seq<ValueView>) -> Effect {
    if s.len() == 0 {
        underflow()
    } else {
        match s.last() {
            ValueView::U8(b) => Effect::Output { stack: s.drop_last(), byte: b },
            _ => Effect::Invalid,
        }
    }
}

/// The effect of one instruction on a machine with stack `s`, memory `m`
/// and heap pointer `h`, for a program with these types.
pub open spec fn effect(
    s: Seq<ValueView>,
    m: Seq<u8>,
    h: int,
    types: Seq<IRType>,
    instr: IRInstruction,
) -> Effect {
    let n = s.len();
    match instr {
        IRInstruction::PushConstant { value } => Effect::Next {
            stack: s.push(constant_view(value)),
            memory: m,
            heap_ptr: h,
        },
        IRInstruction::PushLambda { word_id } => Effect::Next {
            stack: s.push(ValueView::Lambda(word_id)),
            memory: m,
            heap_ptr: h,
        },
        IRInstruction::CallDirect { word_id } => Effect::Call { stack: s, word: word_id },
        IRInstruction::CallExtern { symbol } => if symbol@ == "put_char"@ {
            put_char_effect(s)
        } else if symbol@ == "read_char"@ {
            Effect::Input
        } else if symbol@ == "alloc"@ {
            if n == 0 {
                underflow()
            } else {
                match s.last() {
                    ValueView::U16(size) => if h <= u16::MAX && h + size <= m.len() {
                        Effect::Next {
                            stack: s.drop_last().push(ValueView::U16(h as u16)),
                            memory: m,
                            heap_ptr: h + size,
                        }
                    } else {
                        Effect::Error { label: "out of memory"@ }
                    },
                    _ => Effect::Invalid,
                }
            }
        } else {
            Effect::Error { label: "cannot execute an external word in interpreter"@ }
        },
        IRInstruction::Print => put_char_effect(s),
        IRInstruction::CallIndirect => if n == 0 {
            underflow()
        } else {
            match s.last() {
                ValueView::Lambda(w) => Effect::Call { stack: s.drop_last(), word: w },
                _ => Effect::Invalid,
            }
        },
        IRInstruction::Pack { type_id } => if type_id.0 < types.len() {
            match types[type_id.0 as int] {
                IRType::Struct { fields } => if n < fields@.len() {
                    underflow()
                } else {
                    Effect::Next {
                        stack: s.subrange(0, n - fields@.len()).push(
                            ValueView::Struct {
                                type_id,
                                fields: s.subrange(n - fields@.len(), n as int),
                            },
                        ),
                        memory: m,
                        heap_ptr: h,
                    }
                },
                _ => Effect::Invalid,
            }
        } else {
            Effect::Invalid
        },
        IRInstruction::Unpack { type_id } => if n == 0 {
            underflow()
        } else {
            match s.last() {
                ValueView::Struct { type_id: t, fields } => if t == type_id {
                    Effect::Next { stack: s.drop_last() + fields, memory: m, heap_ptr: h }
                } else {
                    Effect::Invalid
                },
                _ => Effect::Invalid,
            }
        },
        IRInstruction::GetField { type_id, field_index } => if n == 0 {
            underflow()
        } else {
            match s.last() {
                ValueView::Struct { type_id: t, fields } => if t == type_id && field_index
                    < fields.len() {
                    Effect::Next {
                        stack: s.drop_last().push(fields[field_index as int]),
                        memory: m,
                        heap_ptr: h,
                    }
                } else {
                    Effect::Invalid
                },
                _ => Effect::Invalid,
            }
        },
        IRInstruction::Load => if n == 0 {
            underflow()
        } else {
            match s.last() {
                ValueView::U16(a) => if a < m.len() {
                    Effect::Next {
                        stack: s.drop_last().push(ValueView::U8(m[a as int])),
                        memory: m,
                        heap_ptr: h,
                    }
                } else {
                    Effect::Error { label: "memory address out of bounds"@ }
                },
                _ => Effect::Invalid,
            }
        },
        IRInstruction::Store => if n < 2 {
            underflow()
        } else {
            match (s[n - 2], s[n - 1]) {
                (ValueView::U16(a), ValueView::U8(v)) => if a < m.len() {
                    Effect::Next {
                        stack: s.subrange(0, n - 2),
                        memory: m.update(a as int, v),
                        heap_ptr: h,
                    }
                } else {
                    Effect::Error { label: "memory address out of bounds"@ }
                },
                _ => Effect::Invalid,
            }
        },
        IRInstruction::Cast { from, to } => if n == 0 {
            underflow()
        } else {
            match (from, to, s.last()) {
                (IRType::U8, IRType::U16, ValueView::U8(v)) => Effect::Next {
                    stack: s.drop_last().push(ValueView::U16(v as u16)),
                    memory: m,
                    heap_ptr: h,
                },
                (IRType::U16, IRType::U8, ValueView::U16(v)) => Effect::Next {
                    stack: s.drop_last().push(ValueView::U8((v % 256) as u8)),
                    memory: m,
                    heap_ptr: h,
                },
                _ => Effect::Invalid,
            }
        },
        IRInstruction::Swap { .. } => if n < 2 {
            underflow()
        } else {
            Effect::Next {
                stack: s.subrange(0, n - 2).push(s[n - 1]).push(s[n - 2]),
                memory: m,
                heap_ptr: h,
            }
        },
        IRInstruction::Over { .. } => if n < 2 {
            underflow()
        } else {
            Effect::Next { stack: s.push(s[n - 2]), memory: m, heap_ptr: h }
        },
        IRInstruction::RotateLeft { .. } => if n < 3 {
            underflow()
        } else {
            Effect::Next {
                stack: s.subrange(0, n - 3).push(s[n - 2]).push(s[n - 1]).push(s[n - 3]),
                memory: m,
                heap_ptr: h,
            }
        },
        IRInstruction::RotateRight { .. } => if n < 3 {
            underflow()
        } else {
            Effect::Next {
                stack: s.subrange(0, n - 3).push(s[n - 1]).push(s[n - 3]).push(s[n - 2]),
                memory: m,
                heap_ptr: h,
            }
        },
        IRInstruction::Dup { .. } => if n == 0 {
            underflow()
        } else {
            Effect::Next { stack: s.push(s.last()), memory: m, heap_ptr: h }
        },
        IRInstruction::Drop { .. } => if n == 0 {
            underflow()
        } else {
            Effect::Next { stack: s.drop_last(), memory: m, heap_ptr: h }
        },
        IRInstruction::Add { .. } => binary_effect(s, m, h, if n >= 2 {
            arith(0, s[n - 2], s[n - 1])
        } else {
            None
        }),
        IRInstruction::Sub { .. } => binary_effect(s, m, h, if n >= 2 {
            arith(1, s[n - 2], s[n - 1])
        } else {
            None
        }),
        IRInstruction::Mul { .. } => binary_effect(s, m, h, if n >= 2 {
            arith(2, s[n - 2], s[n - 1])
        } else {
            None
        }),
        IRInstruction::Div { .. } => if n < 2 {
            underflow()
        } else {
            match (s[n - 2], s[n - 1]) {
                (ValueView::U8(a), ValueView::U8(b)) => if b == 0 {
                    Effect::Error { label: "division by zero"@ }
                } else {
                    Effect::Next {
                        stack: s.subrange(0, n - 2).push(ValueView::U8((a / b) as u8)),
                        memory: m,
                        heap_ptr: h,
                    }
                },
                (ValueView::U16(a), ValueView::U16(b)) => if b == 0 {
                    Effect::Error { label: "division by zero"@ }
                } else {
                    Effect::Next {
                        stack: s.subrange(0, n - 2).push(ValueView::U16((a / b) as u16)),
                        memory: m,
                        heap_ptr: h,
                    }
                },
                _ => Effect::Invalid,
            }
        },
        IRInstruction::Eq { .. } => binary_effect(s, m, h, if n >= 2 {
            compare(0, s[n - 2], s[n - 1])
        } else {
            None
        }),
        IRInstruction::Gt { .. } => binary_effect(s, m, h, if n >= 2 {
            compare(1, s[n - 2], s[n - 1])
        } else {
            None
        }),
        IRInstruction::Lt { .. } => binary_effect(s, m, h, if n >= 2 {
            compare(2, s[n - 2], s[n - 1])
        } else {
            None
        }),
    }
}

pub proof fn lemma_values_view_subrange(vs: Seq<IRValue>, a: int, b: int)
    requires
        0 <= a <= b <= vs.len(),
    ensures
        values_view(vs.subrange(a, b)) == values_view(vs).subrange(a, b),
{
    lemma_values_view(vs);
    lemma_values_view_ext(vs.subrange(a, b), values_view(vs).subrange(a, b));
}

pub proof fn lemma_values_view_add(a: Seq<IRValue>, b: Seq<IRValue>)
    ensures
        values_view(a + b) == values_view(a) + values_view(b),
{
    lemma_values_view(a);
    lemma_values_view(b);
    lemma_values_view_ext(a + b, values_view(a) + values_view(b));
}

pub proof fn lemma_values_view_push(a: Seq<IRValue>, v: IRValue)
    ensures
        values_view(a.push(v)) == values_view(a).push(value_view(v)),
{
    assert(a.push(v).drop_last() =~= a);
}

/// Where the machine is in a word: the block and the next instruction.
#[derive(Debug, Clone, Copy, PartialEq, Eq, Structural)]
pub struct Frame {
    pub word: usize,
    pub block: usize,
    pub next: usize,
}

/// What an instruction asks of the machine that runs it.
#[derive(Debug)]
pub enum Outcome {
    Next,
    Call(WordId),
    Output(u8),
    Input,
    Error(CompileError),
}

/// What a step asks of the caller.
#[derive(Debug)]
pub enum Step {
    /// Nothing; step again.
    Continue,
    /// Write the byte out, then step again.
    Output(u8),
    /// Read a byte and hand it to `provide_input`, then step again.
    NeedInput,
    /// The program has ended.
    Done,
    /// The program stopped with an error.
    Failed(CompileError),
}

/// The size of the machine's memory.
pub open spec fn memory_size() -> nat {
    65536
}

/// A runtime error with a label.
pub fn runtime_error(label: &str) -> (r: CompileError)
    ensures
        r matches CompileError::RuntimeError { label: l } && l@ == label@,
{
    CompileError::RuntimeError { label: String::from_str(label) }
}

/// The state of the machine: the value stack, the memory, where the heap
/// ends, and the words being run, innermost last.
#[derive(Debug)]
pub struct IRInterpreter {
    pub stack: Vec<IRValue>,
    pub memory: Vec<u8>,
    pub heap_ptr: usize,
    pub frames: Vec<Frame>,
}

impl IRInterpreter {
    pub open spec fn stack_view(&self) -> Seq<ValueView> {
        values_view(self.stack@)
    }

    /// The memory has its size and the heap ends inside it.
    pub open spec fn wf(&self) -> bool {
        &&& self.memory@.len() == memory_size()
        &&& self.heap_ptr <= memory_size()
    }

    /// A machine with an empty stack and zeroed memory, running nothing.
    pub fn new() -> (r: Self)
        ensures
            r.wf(),
            r.stack@.len() == 0,
            r.frames@.len() == 0,
            r.heap_ptr == 0,
            forall|i: int| 0 <= i < memory_size() ==> r.memory@[i] == 0,
    {
        let mut memory: Vec<u8> = Vec::new();
        while memory.len() < 65536
            invariant
                memory@.len() <= 65536,
                forall|i: int| 0 <= i < memory@.len() ==> memory@[i] == 0,
            decreases 65536 - memory@.len(),
        {
            memory.push(0);
        }
        IRInterpreter { stack: Vec::new(), memory, heap_ptr: 0, frames: Vec::new() }
    }

    /// The value stack, bottom first.
    pub fn stack(&self) -> (r: &[IRValue])
        ensures
            r@ == self.stack@,
    {
        self.stack.as_slice()
    }

    fn pop_value(&mut self) -> (r: Option<IRValue>)
        ensures
            old(self).stack@.len() > 0 ==> (r matches Some(v) && value_view(v) == old(self).stack_view().last()
                && final(self).stack_view() == old(self).stack_view().drop_last()),
            old(self).stack@.len() == 0 ==> r is None,
            final(self).stack@.len() == if old(self).stack@.len() > 0 {
                old(self).stack@.len() - 1
            } else {
                0
            },
            final(self).memory == old(self).memory,
            final(self).heap_ptr == old(self).heap_ptr,
            final(self).frames == old(self).frames,
    {
        proof {
            if self.stack@.len() > 0 {
                assert(self.stack@.drop_last().push(self.stack@.last()) =~= self.stack@);
                lemma_values_view_push(self.stack@.drop_last(), self.stack@.last());
            }
        }
        self.stack.pop()
    }

    fn push_value(&mut self, v: IRValue)
        ensures
            final(self).stack_view() == old(self).stack_view().push(value_view(v)),
            final(self).stack@.len() == old(self).stack@.len() + 1,
            final(self).memory == old(self).memory,
            final(self).heap_ptr == old(self).heap_ptr,
            final(self).frames == old(self).frames,
    {
        proof {
            lemma_values_view_push(self.stack@, v);
        }
        self.stack.push(v);
    }
}

/// The machine went from `before` to `after` as the instruction asks, and
/// reported what it asks of the caller.
pub open spec fn outcome_matches(
    before: &IRInterpreter,
    after: &IRInterpreter,
    types: Seq<IRType>,
    instr: IRInstruction,
    r: Outcome,
) -> bool {
    &&& after.wf()
    &&& after.frames == before.frames
    &&& match effect(before.stack_view(), before.memory@, before.heap_ptr as int, types, instr) {
        Effect::Next { stack, memory, heap_ptr } => r is Next && after.stack_view() == stack
            && after.memory@ == memory && after.heap_ptr == heap_ptr,
        Effect::Call { stack, word } => (r matches Outcome::Call(w) && w == word)
            && after.stack_view() == stack && after.memory@ == before.memory@ && after.heap_ptr
            == before.heap_ptr,
        Effect::Output { stack, byte } => (r matches Outcome::Output(b) && b == byte)
            && after.stack_view() == stack && after.memory@ == before.memory@ && after.heap_ptr
            == before.heap_ptr,
        Effect::Input => r is Input && after.stack_view() == before.stack_view() && after.memory@
            == before.memory@ && after.heap_ptr == before.heap_ptr,
        Effect::Error { label } => r matches Outcome::Error(CompileError::RuntimeError { label: l })
            && l@ == label,
        Effect::Invalid => true,
    }
}

impl IRInterpreter {
    fn underflow_error() -> (r: Outcome)
        ensures
            r matches Outcome::Error(CompileError::RuntimeError { label: l }) && l@
                == "stack underflow"@,
    {
        Outcome::Error(runtime_error("stack underflow"))
    }

    /// The arithmetic and comparison instructions.
    fn execute_binary(&mut self, types: &Vec<IRType>, instr: &IRInstruction) -> (r: Outcome)
        requires
            old(self).wf(),
            instr is Add || instr is Sub || instr is Mul || instr is Div || instr is Eq || instr is Gt
                || instr is Lt,
            !(effect(old(self).stack_view(), old(self).memory@, old(self).heap_ptr as int, types@, *instr) is Invalid),
        ensures
            outcome_matches(old(self), final(self), types@, *instr, r),
    {
        proof {
            lemma_values_view(self.stack@);
        }
        if self.stack.len() < 2 {
            return Self::underflow_error();
        }
        let ghost s = self.stack_view();
        let rhs = self.pop_value().unwrap();
        let lhs = self.pop_value().unwrap();
        proof {
            assert(s.drop_last().drop_last() =~= s.subrange(0, s.len() - 2));
        }
        let value = match (instr, lhs, rhs) {
            (IRInstruction::Add { .. }, IRValue::U8(a), IRValue::U8(b)) => IRValue::U8(
                ((a as u16 + b as u16) % 256) as u8,
            ),
            (IRInstruction::Add { .. }, IRValue::U16(a), IRValue::U16(b)) => IRValue::U16(
                ((a as u32 + b as u32) % 65536) as u16,
            ),
            (IRInstruction::Sub { .. }, IRValue::U8(a), IRValue::U8(b)) => IRValue::U8(
                ((a as u16 + 256 - b as u16) % 256) as u8,
            ),
            (IRInstruction::Sub { .. }, IRValue::U16(a), IRValue::U16(b)) => IRValue::U16(
                ((a as u32 + 65536 - b as u32) % 65536) as u16,
            ),
            (IRInstruction::Mul { .. }, IRValue::U8(a), IRValue::U8(b)) => {
                assert(a as u32 * b as u32 <= 255 * 255) by (nonlinear_arith)
                    requires
                        a <= 255,
                        b <= 255,
                ;
                IRValue::U8(((a as u32 * b as u32) % 256) as u8)
            },
            (IRInstruction::Mul { .. }, IRValue::U16(a), IRValue::U16(b)) => {
                assert(a as u64 * b as u64 <= 65535 * 65535) by (nonlinear_arith)
                    requires
                        a <= 65535,
                        b <= 65535,
                ;
                IRValue::U16(((a as u64 * b as u64) % 65536) as u16)
            },
            (IRInstruction::Div { .. }, IRValue::U8(a), IRValue::U8(b)) => {
                if b == 0 {
                    return Outcome::Error(runtime_error("division by zero"));
                }
                IRValue::U8(a / b)
            },
            (IRInstruction::Div { .. }, IRValue::U16(a), IRValue::U16(b)) => {
                if b == 0 {
                    return Outcome::Error(runtime_error("division by zero"));
                }
                IRValue::U16(a / b)
            },
            (IRInstruction::Eq { .. }, IRValue::U8(a), IRValue::U8(b)) => IRValue::Bool(a == b),
            (IRInstruction::Eq { .. }, IRValue::U16(a), IRValue::U16(b)) => IRValue::Bool(a == b),
            (IRInstruction::Eq { .. }, IRValue::Bool(a), IRValue::Bool(b)) => IRValue::Bool(a == b),
            (IRInstruction::Gt { .. }, IRValue::U8(a), IRValue::U8(b)) => IRValue::Bool(a > b),
            (IRInstruction::Gt { .. }, IRValue::U16(a), IRValue::U16(b)) => IRValue::Bool(a > b),
            (IRInstruction::Lt { .. }, IRValue::U8(a), IRValue::U8(b)) => IRValue::Bool(a < b),
            (IRInstruction::Lt { .. }, IRValue::U16(a), IRValue::U16(b)) => IRValue::Bool(a < b),
            _ => {
                return Outcome::Next;
            },
        };
        self.push_value(value);
        Outcome::Next
    }
}

impl IRInterpreter {
    /// The instructions that rearrange the top of the stack.
    fn execute_shuffle(&mut self, types: &Vec<IRType>, instr: &IRInstruction) -> (r: Outcome)
        requires
            old(self).wf(),
            instr is Swap || instr is Over || instr is RotateLeft || instr is RotateRight || instr is Dup
                || instr is Drop,
        ensures
            outcome_matches(old(self), final(self), types@, *instr, r),
    {
        proof {
            lemma_values_view(self.stack@);
        }
        let ghost s = self.stack_view();
        let ghost n = s.len();
        match instr {
            IRInstruction::Swap { .. } => {
                if self.stack.len() < 2 {
                    return Self::underflow_error();
                }
                let upper = self.pop_value().unwrap();
                let lower = self.pop_value().unwrap();
                self.push_value(upper);
                self.push_value(lower);
                assert(self.stack_view() =~= s.subrange(0, n - 2).push(s[n - 1]).push(s[n - 2]));
            },
            IRInstruction::Over { .. } => {
                if self.stack.len() < 2 {
                    return Self::underflow_error();
                }
                let upper = self.pop_value().unwrap();
                let lower = self.pop_value().unwrap();
                let copy = copy_value(&lower);
                self.push_value(lower);
                self.push_value(upper);
                self.push_value(copy);
                assert(self.stack_view() =~= s.push(s[n - 2]));
            },
            IRInstruction::RotateLeft { .. } => {
                if self.stack.len() < 3 {
                    return Self::underflow_error();
                }
                let upper = self.pop_value().unwrap();
                let middle = self.pop_value().unwrap();
                let lower = self.pop_value().unwrap();
                self.push_value(middle);
                self.push_value(upper);
                self.push_value(lower);
                assert(self.stack_view() =~= s.subrange(0, n - 3).push(s[n - 2]).push(s[n - 1]).push(
                    s[n - 3],
                ));
            },
            IRInstruction::RotateRight { .. } => {
                if self.stack.len() < 3 {
                    return Self::underflow_error();
                }
                let upper = self.pop_value().unwrap();
                let middle = self.pop_value().unwrap();
                let lower = self.pop_value().unwrap();
                self.push_value(upper);
                self.push_value(lower);
                self.push_value(middle);
                assert(self.stack_view() =~= s.subrange(0, n - 3).push(s[n - 1]).push(s[n - 3]).push(
                    s[n - 2],
                ));
            },
            IRInstruction::Dup { .. } => {
                if self.stack.len() < 1 {
                    return Self::underflow_error();
                }
                let top = self.pop_value().unwrap();
                let copy = copy_value(&top);
                self.push_value(top);
                self.push_value(copy);
                assert(self.stack_view() =~= s.push(s.last()));
            },
            _ => {
                if self.stack.len() < 1 {
                    return Self::underflow_error();
                }
                let _ = self.pop_value();
            },
        }
        Outcome::Next
    }

    /// Pushing constants and lambdas, and calling words.
    fn execute_push_call(&mut self, types: &Vec<IRType>, instr: &IRInstruction) -> (r: Outcome)
        requires
            old(self).wf(),
            instr is PushConstant || instr is PushLambda || instr is CallDirect || instr is CallIndirect,
            !(effect(old(self).stack_view(), old(self).memory@, old(self).heap_ptr as int, types@, *instr) is Invalid),
        ensures
            outcome_matches(old(self), final(self), types@, *instr, r),
    {
        proof {
            lemma_values_view(self.stack@);
        }
        match instr {
            IRInstruction::PushConstant { value } => {
                let v = match value {
                    IRConstant::Bool(b) => IRValue::Bool(*b),
                    IRConstant::U8(x) => IRValue::U8(*x),
                    IRConstant::U16(x) => IRValue::U16(*x),
                    IRConstant::StaticPtr(a) => IRValue::U16(*a),
                };
                self.push_value(v);
                Outcome::Next
            },
            IRInstruction::PushLambda { word_id } => {
                self.push_value(IRValue::Lambda(*word_id));
                Outcome::Next
            },
            IRInstruction::CallDirect { word_id } => Outcome::Call(*word_id),
            _ => {
                if self.stack.len() < 1 {
                    return Self::underflow_error();
                }
                match self.pop_value().unwrap() {
                    IRValue::Lambda(w) => Outcome::Call(w),
                    _ => Outcome::Next,
                }
            },
        }
    }

    /// Packing, unpacking and reading fields of structs.
    fn execute_struct(&mut self, types: &Vec<IRType>, instr: &IRInstruction) -> (r: Outcome)
        requires
            old(self).wf(),
            instr is Pack || instr is Unpack || instr is GetField,
            !(effect(old(self).stack_view(), old(self).memory@, old(self).heap_ptr as int, types@, *instr) is Invalid),
        ensures
            outcome_matches(old(self), final(self), types@, *instr, r),
    {
        proof {
            lemma_values_view(self.stack@);
        }
        let ghost s = self.stack_view();
        let ghost st = self.stack@;
        match instr {
            IRInstruction::Pack { type_id } => {
                let count = match &types[type_id.0] {
                    IRType::Struct { fields } => fields.len(),
                    _ => 0,
                };
                if self.stack.len() < count {
                    return Self::underflow_error();
                }
                let start = self.stack.len() - count;
                let fields = self.stack.split_off(start);
                proof {
                    lemma_values_view_subrange(st, 0, start as int);
                    lemma_values_view_subrange(st, start as int, st.len() as int);
                }
                self.push_value(IRValue::Struct { type_id: *type_id, fields });
                Outcome::Next
            },
            IRInstruction::Unpack { type_id } => {
                if self.stack.len() < 1 {
                    return Self::underflow_error();
                }
                match self.pop_value().unwrap() {
                    IRValue::Struct { type_id: t, fields } => {
                        if t.0 != type_id.0 {
                            return Outcome::Next;
                        }
                        let mut fields = fields;
                        let ghost before = self.stack@;
                        proof {
                            lemma_values_view_add(before, fields@);
                        }
                        self.stack.append(&mut fields);
                        Outcome::Next
                    },
                    _ => Outcome::Next,
                }
            },
            IRInstruction::GetField { type_id, field_index } => {
                if self.stack.len() < 1 {
                    return Self::underflow_error();
                }
                match self.pop_value().unwrap() {
                    IRValue::Struct { type_id: t, fields } => {
                        proof {
                            lemma_values_view(fields@);
                        }
                        if t.0 != type_id.0 || *field_index >= fields.len() {
                            return Outcome::Next;
                        }
                        let mut fields = fields;
                        let field = fields.remove(*field_index);
                        self.push_value(field);
                        Outcome::Next
                    },
                    _ => Outcome::Next,
                }
            },
            _ => Outcome::Next,
        }
    }
}

impl IRInterpreter {
    /// Reading and writing memory, and converting numbers.
    fn execute_memory(&mut self, types: &Vec<IRType>, instr: &IRInstruction) -> (r: Outcome)
        requires
            old(self).wf(),
            instr is Load || instr is Store || instr is Cast,
            !(effect(old(self).stack_view(), old(self).memory@, old(self).heap_ptr as int, types@, *instr) is Invalid),
        ensures
            outcome_matches(old(self), final(self), types@, *instr, r),
    {
        proof {
            lemma_values_view(self.stack@);
        }
        let ghost s = self.stack_view();
        match instr {
            IRInstruction::Load => {
                if self.stack.len() < 1 {
                    return Self::underflow_error();
                }
                match self.pop_value().unwrap() {
                    IRValue::U16(a) => {
                        if (a as usize) < self.memory.len() {
                            let v = self.memory[a as usize];
                            self.push_value(IRValue::U8(v));
                            Outcome::Next
                        } else {
                            Outcome::Error(runtime_error("memory address out of bounds"))
                        }
                    },
                    _ => Outcome::Next,
                }
            },
            IRInstruction::Store => {
                if self.stack.len() < 2 {
                    return Self::underflow_error();
                }
                let value = self.pop_value().unwrap();
                let address = self.pop_value().unwrap();
                proof {
                    assert(s.drop_last().drop_last() =~= s.subrange(0, s.len() - 2));
                }
                match (address, value) {
                    (IRValue::U16(a), IRValue::U8(v)) => {
                        if (a as usize) < self.memory.len() {
                            self.memory.set(a as usize, v);
                            Outcome::Next
                        } else {
                            Outcome::Error(runtime_error("memory address out of bounds"))
                        }
                    },
                    _ => Outcome::Next,
                }
            },
            IRInstruction::Cast { from, to } => {
                if self.stack.len() < 1 {
                    return Self::underflow_error();
                }
                let value = self.pop_value().unwrap();
                match (from, to, value) {
                    (IRType::U8, IRType::U16, IRValue::U8(v)) => {
                        self.push_value(IRValue::U16(v as u16));
                        Outcome::Next
                    },
                    (IRType::U16, IRType::U8, IRValue::U16(v)) => {
                        self.push_value(IRValue::U8((v % 256) as u8));
                        Outcome::Next
                    },
                    _ => Outcome::Next,
                }
            },
            _ => Outcome::Next,
        }
    }

    /// Words the machine provides: writing and reading a byte, and
    /// allocating memory.
    fn execute_extern(&mut self, types: &Vec<IRType>, instr: &IRInstruction) -> (r: Outcome)
        requires
            old(self).wf(),
            instr is CallExtern || instr is Print,
            !(effect(old(self).stack_view(), old(self).memory@, old(self).heap_ptr as int, types@, *instr) is Invalid),
        ensures
            outcome_matches(old(self), final(self), types@, *instr, r),
    {
        proof {
            lemma_values_view(self.stack@);
        }
        let put = match instr {
            IRInstruction::CallExtern { symbol } => same_text(symbol.as_str(), "put_char"),
            _ => true,
        };
        if put {
            if self.stack.len() < 1 {
                return Self::underflow_error();
            }
            return match self.pop_value().unwrap() {
                IRValue::U8(b) => Outcome::Output(b),
                _ => Outcome::Next,
            };
        }
        let symbol = match instr {
            IRInstruction::CallExtern { symbol } => symbol.as_str(),
            _ => "",
        };
        if same_text(symbol, "read_char") {
            return Outcome::Input;
        }
        if !same_text(symbol, "alloc") {
            return Outcome::Error(runtime_error("cannot execute an external word in interpreter"));
        }
        if self.stack.len() < 1 {
            return Self::underflow_error();
        }
        match self.pop_value().unwrap() {
            IRValue::U16(size) => {
                if self.heap_ptr <= 65535 && self.heap_ptr + (size as usize) <= self.memory.len() {
                    let address = self.heap_ptr as u16;
                    self.heap_ptr = self.heap_ptr + size as usize;
                    self.push_value(IRValue::U16(address));
                    Outcome::Next
                } else {
                    Outcome::Error(runtime_error("out of memory"))
                }
            },
            _ => Outcome::Next,
        }
    }

    /// Runs one instruction.
    pub fn execute_instruction(&mut self, types: &Vec<IRType>, instr: &IRInstruction) -> (r: Outcome)
        requires
            old(self).wf(),
            !(effect(old(self).stack_view(), old(self).memory@, old(self).heap_ptr as int, types@, *instr) is Invalid),
        ensures
            outcome_matches(old(self), final(self), types@, *instr, r),
    {
        match instr {
            IRInstruction::PushConstant { .. } | IRInstruction::PushLambda { .. }
            | IRInstruction::CallDirect { .. } | IRInstruction::CallIndirect => self.execute_push_call(
                types,
                instr,
            ),
            IRInstruction::CallExtern { .. } | IRInstruction::Print => self.execute_extern(types, instr),
            IRInstruction::Pack { .. } | IRInstruction::Unpack { .. } | IRInstruction::GetField {
                ..
            } => self.execute_struct(types, instr),
            IRInstruction::Load | IRInstruction::Store | IRInstruction::Cast { .. } => self.execute_memory(
                types,
                instr,
            ),
            IRInstruction::Swap { .. } | IRInstruction::Over { .. } | IRInstruction::RotateLeft { .. }
            | IRInstruction::RotateRight { .. } | IRInstruction::Dup { .. } | IRInstruction::Drop {
                ..
            } => self.execute_shuffle(types, instr),
            _ => self.execute_binary(types, instr),
        }
    }
}

/// The instruction a frame is at, where it is at one.
pub open spec fn frame_instruction(program: &IRProgram, f: Frame) -> Option<IRInstruction> {
    if f.word < program.words@.len() && f.block < program.words@[f.word as int].value.blocks@.len()
        && f.next < program.words@[f.word as int].value.blocks@[f.block as int].instructions@.len() {
        Some(
            program.words@[f.word as int].value.blocks@[f.block as int].instructions@[f.next as int].value,
        )
    } else {
        None
    }
}

/// The terminator of the block a frame is in, where the block exists.
pub open spec fn frame_terminator(program: &IRProgram, f: Frame) -> Option<IRTerminator> {
    if f.word < program.words@.len() && f.block < program.words@[f.word as int].value.blocks@.len() {
        Some(program.words@[f.word as int].value.blocks@[f.block as int].terminator.value)
    } else {
        None
    }
}

/// The frame moved to the next instruction.
pub open spec fn advanced(f: Frame) -> Frame {
    Frame { word: f.word, block: f.block, next: (f.next + 1) as usize }
}

impl IRInterpreter {
    /// The next step meets only values of the types it expects: the program
    /// is well typed where it runs next.
    pub open spec fn step_valid(&self, program: &IRProgram) -> bool {
        self.frames@.len() > 0 ==> match frame_instruction(program, self.frames@.last()) {
            Some(i) => !(effect(self.stack_view(), self.memory@, self.heap_ptr as int, program.types@, i) is Invalid),
            None => match frame_terminator(program, self.frames@.last()) {
                Some(IRTerminator::BranchIfZero { .. }) => self.stack@.len() > 0 ==> self.stack_view().last() is Bool,
                _ => true,
            },
        }
    }

    /// Whether the next step meets only values of the types it expects.
    pub fn is_step_valid(&self, program: &IRProgram) -> (r: bool)
        requires
            self.wf(),
        ensures
            r == self.step_valid(program),
    {
        if self.frames.len() == 0 {
            return true;
        }
        let f = self.frames[self.frames.len() - 1];
        if f.word >= program.words.len() || f.block >= program.words[f.word].value.blocks.len() {
            return true;
        }
        let block = &program.words[f.word].value.blocks[f.block];
        proof {
            lemma_values_view(self.stack@);
        }
        if f.next < block.instructions.len() {
            self.instruction_fits(&program.types, &block.instructions[f.next].value)
        } else {
            match &block.terminator.value {
                IRTerminator::BranchIfZero { .. } => {
                    if self.stack.len() == 0 {
                        true
                    } else {
                        match &self.stack[self.stack.len() - 1] {
                            IRValue::Bool(_) => true,
                            _ => false,
                        }
                    }
                },
                _ => true,
            }
        }
    }
}

fn is_u8(v: &IRValue) -> (r: bool)
    ensures
        r == (value_view(*v) is U8),
{
    match v {
        IRValue::U8(_) => true,
        _ => false,
    }
}

fn is_u16(v: &IRValue) -> (r: bool)
    ensures
        r == (value_view(*v) is U16),
{
    match v {
        IRValue::U16(_) => true,
        _ => false,
    }
}

impl IRInterpreter {
    /// Whether the instruction meets only values of the types it expects.
    pub fn instruction_fits(&self, types: &Vec<IRType>, instr: &IRInstruction) -> (r: bool)
        ensures
            r == !(effect(self.stack_view(), self.memory@, self.heap_ptr as int, types@, *instr) is Invalid),
    {
        proof {
            lemma_values_view(self.stack@);
        }
        let n = self.stack.len();
        match instr {
            IRInstruction::CallExtern { symbol } => {
                if same_text(symbol.as_str(), "put_char") {
                    n == 0 || is_u8(&self.stack[n - 1])
                } else if same_text(symbol.as_str(), "read_char") {
                    true
                } else if same_text(symbol.as_str(), "alloc") {
                    n == 0 || is_u16(&self.stack[n - 1])
                } else {
                    true
                }
            },
            IRInstruction::Print => n == 0 || is_u8(&self.stack[n - 1]),
            IRInstruction::CallIndirect => n == 0 || match &self.stack[n - 1] {
                IRValue::Lambda(_) => true,
                _ => false,
            },
            IRInstruction::Pack { type_id } => type_id.0 < types.len() && match &types[type_id.0] {
                IRType::Struct { .. } => true,
                _ => false,
            },
            IRInstruction::Unpack { type_id } => n == 0 || match &self.stack[n - 1] {
                IRValue::Struct { type_id: t, .. } => t.0 == type_id.0,
                _ => false,
            },
            IRInstruction::GetField { type_id, field_index } => n == 0 || match &self.stack[n - 1] {
                IRValue::Struct { type_id: t, fields } => {
                    proof {
                        lemma_values_view(fields@);
                    }
                    t.0 == type_id.0 && *field_index < fields.len()
                },
                _ => false,
            },
            IRInstruction::Load => n == 0 || is_u16(&self.stack[n - 1]),
            IRInstruction::Store => n < 2 || (is_u16(&self.stack[n - 2]) && is_u8(&self.stack[n - 1])),
            IRInstruction::Cast { from, to } => n == 0 || match (from, to, &self.stack[n - 1]) {
                (IRType::U8, IRType::U16, IRValue::U8(_)) => true,
                (IRType::U16, IRType::U8, IRValue::U16(_)) => true,
                _ => false,
            },
            IRInstruction::Add { .. } | IRInstruction::Sub { .. } | IRInstruction::Mul { .. }
            | IRInstruction::Div { .. } | IRInstruction::Gt { .. } | IRInstruction::Lt { .. } => n < 2
                || match (&self.stack[n - 2], &self.stack[n - 1]) {
                (IRValue::U8(_), IRValue::U8(_)) => true,
                (IRValue::U16(_), IRValue::U16(_)) => true,
                _ => false,
            },
            IRInstruction::Eq { .. } => n < 2 || match (&self.stack[n - 2], &self.stack[n - 1]) {
                (IRValue::U8(_), IRValue::U8(_)) => true,
                (IRValue::U16(_), IRValue::U16(_)) => true,
                (IRValue::Bool(_), IRValue::Bool(_)) => true,
                _ => false,
            },
            _ => true,
        }
    }
}

/// The first word marked as the entrypoint.
pub open spec fn entrypoint_index(words: Seq<crate::common::Spanned<crate::stages::lower::ir::IRWord>>) -> Option<int>
    decreases words.len(),
{
    if words.len() == 0 {
        None
    } else {
        match entrypoint_index(words.drop_last()) {
            Some(i) => Some(i),
            None => if words.last().value.entrypoint {
                Some(words.len() - 1)
            } else {
                None
            },
        }
    }
}

impl IRInterpreter {
    /// Prepares a run of the program: an empty stack, memory that holds the
    /// static data and zeros after it, the heap after the static data, and
    /// the entrypoint about to run. Without an entrypoint the run cannot
    /// start.
    pub fn start(&mut self, program: &IRProgram) -> (r: Result<(), CompileError>)
        requires
            old(self).wf(),
            program.static_data@.len() <= memory_size(),
        ensures
            final(self).wf(),
            r is Ok <==> entrypoint_index(program.words@) is Some,
            r matches Err(e) ==> (e matches CompileError::RuntimeError { label } && label@
                == "word not found"@),
            r is Ok ==> final(self).stack@.len() == 0 && final(self).heap_ptr
                == program.static_data@.len() && final(self).frames@ == seq![
                Frame { word: entrypoint_index(program.words@).unwrap() as usize, block: 0, next: 0 },
            ] && final(self).memory@.subrange(0, program.static_data@.len() as int)
                == program.static_data@ && forall|i: int|
                program.static_data@.len() <= i < memory_size() ==> final(self).memory@[i] == 0,
    {
        let mut w: usize = 0;
        let mut found: Option<usize> = None;
        while w < program.words.len() && found.is_none()
            invariant
                w <= program.words@.len(),
                found is None ==> entrypoint_index(program.words@.subrange(0, w as int)) is None,
                found matches Some(i) ==> entrypoint_index(program.words@) == Some(i as int),
            decreases program.words@.len() - w,
        {
            let ghost sub = program.words@.subrange(0, w + 1);
            assert(sub.drop_last() =~= program.words@.subrange(0, w as int));
            if program.words[w].value.entrypoint {
                proof {
                    lemma_entrypoint_prefix(program.words@, w as int + 1);
                }
                found = Some(w);
            }
            w += 1;
        }
        let entry = match found {
            Some(i) => i,
            None => {
                assert(program.words@.subrange(0, program.words@.len() as int) =~= program.words@);
                return Err(runtime_error("word not found"));
            },
        };
        self.stack = Vec::new();
        let mut i: usize = 0;
        while i < self.memory.len()
            invariant
                self.memory@.len() == memory_size(),
                self.stack@.len() == 0,
                i <= self.memory@.len(),
                program.static_data@.len() <= memory_size(),
                forall|j: int| 0 <= j < i ==> self.memory@[j] == if j < program.static_data@.len() {
                    program.static_data@[j]
                } else {
                    0u8
                },
            decreases self.memory@.len() - i,
        {
            let v = if i < program.static_data.len() {
                program.static_data[i]
            } else {
                0u8
            };
            self.memory.set(i, v);
            i += 1;
        }
        assert(self.memory@.subrange(0, program.static_data@.len() as int) =~= program.static_data@);
        self.heap_ptr = program.static_data.len();
        self.frames = Vec::new();
        self.frames.push(Frame { word: entry, block: 0, next: 0 });
        assert(self.frames@ =~= seq![Frame { word: entry, block: 0, next: 0 }]);
        Ok(())
    }

    /// Pushes a byte that was read in.
    pub fn provide_input(&mut self, byte: u8)
        ensures
            final(self).stack_view() == old(self).stack_view().push(ValueView::U8(byte)),
            final(self).memory == old(self).memory,
            final(self).heap_ptr == old(self).heap_ptr,
            final(self).frames == old(self).frames,
    {
        self.push_value(IRValue::U8(byte));
    }

    /// Runs the next instruction of the innermost word, or the terminator of
    /// its block.
    pub fn step(&mut self, program: &IRProgram) -> (r: Step)
        requires
            old(self).wf(),
            old(self).step_valid(program),
        ensures
            final(self).wf(),
            old(self).frames@.len() == 0 ==> r is Done && *final(self) == *old(self),
            old(self).frames@.len() > 0 ==> step_matches(program, old(self), final(self), r),
    {
        if self.frames.len() == 0 {
            return Step::Done;
        }
        let top = self.frames.len() - 1;
        let f = self.frames[top];
        if f.word >= program.words.len() {
            return Step::Failed(runtime_error("word not found"));
        }
        let word = &program.words[f.word].value;
        if f.block >= word.blocks.len() {
            return Step::Failed(runtime_error("block not found"));
        }
        let block = &word.blocks[f.block];
        proof {
            lemma_values_view(self.stack@);
        }
        if f.next < block.instructions.len() {
            let outcome = self.execute_instruction(&program.types, &block.instructions[f.next].value);
            self.frames.set(top, Frame { word: f.word, block: f.block, next: f.next + 1 });
            match outcome {
                Outcome::Next => Step::Continue,
                Outcome::Call(w) => {
                    self.frames.push(Frame { word: w.0, block: 0, next: 0 });
                    Step::Continue
                },
                Outcome::Output(b) => Step::Output(b),
                Outcome::Input => Step::NeedInput,
                Outcome::Error(e) => Step::Failed(e),
            }
        } else {
            match &block.terminator.value {
                IRTerminator::End => {
                    let _ = self.frames.pop();
                    if self.frames.len() == 0 {
                        Step::Done
                    } else {
                        Step::Continue
                    }
                },
                IRTerminator::Branch { branch } => {
                    self.frames.set(top, Frame { word: f.word, block: branch.0, next: 0 });
                    Step::Continue
                },
                IRTerminator::BranchIfZero { then_branch, else_branch } => {
                    if self.stack.len() == 0 {
                        return Step::Failed(runtime_error("stack underflow"));
                    }
                    let b = match self.pop_value().unwrap() {
                        IRValue::Bool(c) => c,
                        _ => false,
                    };
                    let target = if b {
                        then_branch.0
                    } else {
                        else_branch.0
                    };
                    self.frames.set(top, Frame { word: f.word, block: target, next: 0 });
                    Step::Continue
                },
            }
        }
    }
}

/// What a step does where a word is running: its instruction acts as
/// `effect` says and the frame moves on (a call enters the word called), or
/// its terminator ends the word or moves to another block.
pub open spec fn step_matches(program: &IRProgram, before: &IRInterpreter, after: &IRInterpreter, r: Step) -> bool {
    let f = before.frames@.last();
    let fs = before.frames@;
    let top = fs.len() - 1;
    if f.word >= program.words@.len() {
        r matches Step::Failed(CompileError::RuntimeError { label }) && label@ == "word not found"@
    } else if f.block >= program.words@[f.word as int].value.blocks@.len() {
        r matches Step::Failed(CompileError::RuntimeError { label }) && label@ == "block not found"@
    } else {
        match frame_instruction(program, f) {
            Some(i) => match effect(before.stack_view(), before.memory@, before.heap_ptr as int, program.types@, i) {
                Effect::Next { stack, memory, heap_ptr } => r is Continue && after.stack_view() == stack
                    && after.memory@ == memory && after.heap_ptr == heap_ptr && after.frames@
                    == fs.update(top, advanced(f)),
                Effect::Call { stack, word } => r is Continue && after.stack_view() == stack
                    && after.memory@ == before.memory@ && after.heap_ptr == before.heap_ptr
                    && after.frames@ == fs.update(top, advanced(f)).push(
                    Frame { word: word.0, block: 0, next: 0 },
                ),
                Effect::Output { stack, byte } => (r matches Step::Output(b) && b == byte)
                    && after.stack_view() == stack && after.memory@ == before.memory@
                    && after.heap_ptr == before.heap_ptr && after.frames@ == fs.update(top, advanced(f)),
                Effect::Input => r is NeedInput && after.stack_view() == before.stack_view()
                    && after.memory@ == before.memory@ && after.heap_ptr == before.heap_ptr
                    && after.frames@ == fs.update(top, advanced(f)),
                Effect::Error { label } => r matches Step::Failed(CompileError::RuntimeError { label: l })
                    && l@ == label,
                Effect::Invalid => true,
            },
            None => match frame_terminator(program, f) {
                Some(IRTerminator::End) => after.frames@ == fs.drop_last() && after.stack_view()
                    == before.stack_view() && after.memory@ == before.memory@ && (if fs.len() == 1 {
                    r is Done
                } else {
                    r is Continue
                }),
                Some(IRTerminator::Branch { branch }) => r is Continue && after.frames@ == fs.update(
                    top,
                    Frame { word: f.word, block: branch.0, next: 0 },
                ) && after.stack_view() == before.stack_view() && after.memory@ == before.memory@,
                Some(IRTerminator::BranchIfZero { then_branch, else_branch }) => if before.stack@.len()
                    == 0 {
                    r matches Step::Failed(CompileError::RuntimeError { label }) && label@ == "stack underflow"@
                } else {
                    r is Continue && after.stack_view() == before.stack_view().drop_last()
                        && after.memory@ == before.memory@ && (before.stack_view().last() matches ValueView::Bool(c)
                        && after.frames@ == fs.update(
                        top,
                        Frame { word: f.word, block: if c {
                            then_branch.0
                        } else {
                            else_branch.0
                        }, next: 0 },
                    ))
                },
                None => true,
            },
        }
    }
}

proof fn lemma_entrypoint_prefix(words: Seq<crate::common::Spanned<crate::stages::lower::ir::IRWord>>, k: int)
    requires
        0 < k <= words.len(),
        entrypoint_index(words.subrange(0, k - 1)) is None,
        words[k - 1].value.entrypoint,
    ensures
        entrypoint_index(words) == Some(k - 1),
    decreases words.len(),
{
    if k == words.len() {
        assert(words.drop_last() =~= words.subrange(0, k - 1));
    } else {
        assert(words.drop_last().subrange(0, k - 1) =~= words.subrange(0, k - 1));
        lemma_entrypoint_prefix(words.drop_last(), k);
    }
}

/// The machine goes on with `v` in place of the two values on top of the
/// stack `s` had under them, memory and heap unchanged.
pub open spec fn leaves(e: Effect, s: Seq<ValueView>, m: Seq<u8>, h: int, v: ValueView) -> bool {
    e == (Effect::Next { stack: s.push(v), memory: m, heap_ptr: h })
}

/// Comparing two bytes, the lower value `a` with the top value `b`: `<`
/// leaves true exactly when `a` is less than `b`, `>` exactly when it is
/// greater, `=` exactly when they are equal; so of the three, exactly one
/// holds, and `<` and `>` are the same comparison with the values swapped.
pub proof fn law_compare_bytes(s: Seq<ValueView>, m: Seq<u8>, h: int, types: Seq<IRType>, ty: IRType, a: u8, b: u8)
    ensures
        leaves(effect(s.push(ValueView::U8(a)).push(ValueView::U8(b)), m, h, types, IRInstruction::Lt { ty }), s, m, h, ValueView::Bool(a < b)),
        leaves(effect(s.push(ValueView::U8(a)).push(ValueView::U8(b)), m, h, types, IRInstruction::Gt { ty }), s, m, h, ValueView::Bool(a > b)),
        leaves(effect(s.push(ValueView::U8(a)).push(ValueView::U8(b)), m, h, types, IRInstruction::Eq { ty }), s, m, h, ValueView::Bool(a == b)),
        effect(s.push(ValueView::U8(a)).push(ValueView::U8(b)), m, h, types, IRInstruction::Lt { ty })
            == effect(s.push(ValueView::U8(b)).push(ValueView::U8(a)), m, h, types, IRInstruction::Gt { ty }),
        a == b ==> leaves(effect(s.push(ValueView::U8(a)).push(ValueView::U8(b)), m, h, types, IRInstruction::Lt { ty }), s, m, h, ValueView::Bool(false)),
{
    let st = s.push(ValueView::U8(a)).push(ValueView::U8(b));
    assert(st.subrange(0, st.len() - 2) =~= s);
    let su = s.push(ValueView::U8(b)).push(ValueView::U8(a));
    assert(su.subrange(0, su.len() - 2) =~= s);
}

/// Comparing two 16-bit values, as for bytes.
pub proof fn law_compare_words(s: Seq<ValueView>, m: Seq<u8>, h: int, types: Seq<IRType>, ty: IRType, a: u16, b: u16)
    ensures
        leaves(effect(s.push(ValueView::U16(a)).push(ValueView::U16(b)), m, h, types, IRInstruction::Lt { ty }), s, m, h, ValueView::Bool(a < b)),
        leaves(effect(s.push(ValueView::U16(a)).push(ValueView::U16(b)), m, h, types, IRInstruction::Gt { ty }), s, m, h, ValueView::Bool(a > b)),
        leaves(effect(s.push(ValueView::U16(a)).push(ValueView::U16(b)), m, h, types, IRInstruction::Eq { ty }), s, m, h, ValueView::Bool(a == b)),
        effect(s.push(ValueView::U16(a)).push(ValueView::U16(b)), m, h, types, IRInstruction::Lt { ty })
            == effect(s.push(ValueView::U16(b)).push(ValueView::U16(a)), m, h, types, IRInstruction::Gt { ty }),
{
    let st = s.push(ValueView::U16(a)).push(ValueView::U16(b));
    assert(st.subrange(0, st.len() - 2) =~= s);
    let su = s.push(ValueView::U16(b)).push(ValueView::U16(a));
    assert(su.subrange(0, su.len() - 2) =~= s);
}

/// Byte arithmetic wraps modulo 256: the sum and the product are those of
/// the two values modulo 256, and the difference `d` is the byte that,
/// added to the top value, gives the lower one; the quotient `q` of a
/// nonzero divisor is the whole number of times it goes into the lower
/// value, and a zero divisor stops the program.
pub proof fn law_arith_bytes(s: Seq<ValueView>, m: Seq<u8>, h: int, types: Seq<IRType>, ty: IRType, a: u8, b: u8)
    ensures
        leaves(effect(s.push(ValueView::U8(a)).push(ValueView::U8(b)), m, h, types, IRInstruction::Add { ty }), s, m, h, ValueView::U8(((a + b) % 256) as u8)),
        leaves(effect(s.push(ValueView::U8(a)).push(ValueView::U8(b)), m, h, types, IRInstruction::Mul { ty }), s, m, h, ValueView::U8(((a * b) % 256) as u8)),
        exists|d: u8| (d + b) % 256 == a && #[trigger] leaves(effect(s.push(ValueView::U8(a)).push(ValueView::U8(b)), m, h, types, IRInstruction::Sub { ty }), s, m, h, ValueView::U8(d)),
        b != 0 ==> exists|q: u8| q * b <= a < q * b + b && #[trigger] leaves(effect(s.push(ValueView::U8(a)).push(ValueView::U8(b)), m, h, types, IRInstruction::Div { ty }), s, m, h, ValueView::U8(q)),
        b == 0 ==> effect(s.push(ValueView::U8(a)).push(ValueView::U8(b)), m, h, types, IRInstruction::Div { ty })
            == (Effect::Error { label: "division by zero"@ }),
{
    let st = s.push(ValueView::U8(a)).push(ValueView::U8(b));
    assert(st.subrange(0, st.len() - 2) =~= s);
    let d = ((a - b + 256) % 256) as u8;
    assert((d + b) % 256 == a);
    assert(leaves(effect(st, m, h, types, IRInstruction::Sub { ty }), s, m, h, ValueView::U8(d)));
    if b != 0 {
        let q = (a / b) as u8;
        assert(q * b <= a < q * b + b) by (nonlinear_arith)
            requires
                b != 0,
                q == a / b,
        ;
        assert(leaves(effect(st, m, h, types, IRInstruction::Div { ty }), s, m, h, ValueView::U8(q)));
    }
}

/// 16-bit arithmetic wraps modulo 65536, as for bytes.
pub proof fn law_arith_words(s: Seq<ValueView>, m: Seq<u8>, h: int, types: Seq<IRType>, ty: IRType, a: u16, b: u16)
    ensures
        leaves(effect(s.push(ValueView::U16(a)).push(ValueView::U16(b)), m, h, types, IRInstruction::Add { ty }), s, m, h, ValueView::U16(((a + b) % 65536) as u16)),
        leaves(effect(s.push(ValueView::U16(a)).push(ValueView::U16(b)), m, h, types, IRInstruction::Mul { ty }), s, m, h, ValueView::U16(((a * b) % 65536) as u16)),
        exists|d: u16| (d + b) % 65536 == a && #[trigger] leaves(effect(s.push(ValueView::U16(a)).push(ValueView::U16(b)), m, h, types, IRInstruction::Sub { ty }), s, m, h, ValueView::U16(d)),
        b != 0 ==> exists|q: u16| q * b <= a < q * b + b && #[trigger] leaves(effect(s.push(ValueView::U16(a)).push(ValueView::U16(b)), m, h, types, IRInstruction::Div { ty }), s, m, h, ValueView::U16(q)),
{
    let st = s.push(ValueView::U16(a)).push(ValueView::U16(b));
    assert(st.subrange(0, st.len() - 2) =~= s);
    let d = ((a - b + 65536) % 65536) as u16;
    assert((d + b) % 65536 == a);
    assert(leaves(effect(st, m, h, types, IRInstruction::Sub { ty }), s, m, h, ValueView::U16(d)));
    if b != 0 {
        let q = (a / b) as u16;
        assert(q * b <= a < q * b + b) by (nonlinear_arith)
            requires
                b != 0,
                q == a / b,
        ;
        assert(leaves(effect(st, m, h, types, IRInstruction::Div { ty }), s, m, h, ValueView::U16(q)));
    }
}

/// The machine goes on with stack `t`, memory and heap unchanged.
pub open spec fn goes_on(e: Effect, t: Seq<ValueView>, m: Seq<u8>, h: int) -> bool {
    e == (Effect::Next { stack: t, memory: m, heap_ptr: h })
}

/// The stack words rearrange the values on top and nothing else, whatever
/// their types: `swap` exchanges the two on top, so twice it changes
/// nothing; `over` copies the second to the top; `rot` brings the third to
/// the top and `-rot` the top to the third, so one undoes the other; `dup`
/// copies the top and `drop` removes it.
pub proof fn law_stack_words_rearrange(
    s: Seq<ValueView>,
    m: Seq<u8>,
    h: int,
    types: Seq<IRType>,
    x: ValueView,
    y: ValueView,
    z: ValueView,
    i: IRInstruction,
)
    ensures
        i is Swap ==> goes_on(effect(s.push(x).push(y), m, h, types, i), s.push(y).push(x), m, h),
        i is Swap ==> goes_on(effect(s.push(y).push(x), m, h, types, i), s.push(x).push(y), m, h),
        i is Over ==> goes_on(effect(s.push(x).push(y), m, h, types, i), s.push(x).push(y).push(x), m, h),
        i is RotateLeft ==> goes_on(effect(s.push(x).push(y).push(z), m, h, types, i), s.push(y).push(z).push(x), m, h),
        i is RotateRight ==> goes_on(effect(s.push(y).push(z).push(x), m, h, types, i), s.push(x).push(y).push(z), m, h),
        i is Dup ==> goes_on(effect(s.push(x), m, h, types, i), s.push(x).push(x), m, h),
        i is Drop ==> goes_on(effect(s.push(x), m, h, types, i), s, m, h),
{
    let s2 = s.push(x).push(y);
    let s2r = s.push(y).push(x);
    let s3 = s.push(x).push(y).push(z);
    let s3r = s.push(y).push(z).push(x);
    assert(s2.subrange(0, s2.len() - 2) =~= s);
    assert(s2r.subrange(0, s2r.len() - 2) =~= s);
    assert(s3.subrange(0, s3.len() - 3) =~= s);
    assert(s3r.subrange(0, s3r.len() - 3) =~= s);
    assert(s.push(x).drop_last() =~= s);
    assert(s.push(x).last() == x);
}

/// Memory reads give back what was written: storing byte `v` at address
/// `a` and then loading from `a` pushes `v`, and a load from another
/// address `b` still reads what was there before. An address past the end
/// of memory is refused in both directions.
pub proof fn law_load_reads_what_store_wrote(
    s: Seq<ValueView>,
    m: Seq<u8>,
    h: int,
    types: Seq<IRType>,
    a: u16,
    b: u16,
    v: u8,
)
    ensures
        a < m.len() ==> goes_on(
            effect(s.push(ValueView::U16(a)).push(ValueView::U8(v)), m, h, types, IRInstruction::Store),
            s,
            m.update(a as int, v),
            h,
        ),
        a < m.len() ==> goes_on(
            effect(s.push(ValueView::U16(a)), m.update(a as int, v), h, types, IRInstruction::Load),
            s.push(ValueView::U8(v)),
            m.update(a as int, v),
            h,
        ),
        a < m.len() && b < m.len() && a != b ==> goes_on(
            effect(s.push(ValueView::U16(b)), m.update(a as int, v), h, types, IRInstruction::Load),
            s.push(ValueView::U8(m[b as int])),
            m.update(a as int, v),
            h,
        ),
        a >= m.len() ==> effect(s.push(ValueView::U16(a)).push(ValueView::U8(v)), m, h, types, IRInstruction::Store)
            == (Effect::Error { label: "memory address out of bounds"@ }),
        a >= m.len() ==> effect(s.push(ValueView::U16(a)), m, h, types, IRInstruction::Load)
            == (Effect::Error { label: "memory address out of bounds"@ }),
{
    let st = s.push(ValueView::U16(a)).push(ValueView::U8(v));
    assert(st.subrange(0, st.len() - 2) =~= s);
    assert(s.push(ValueView::U16(a)).drop_last() =~= s);
    assert(s.push(ValueView::U16(b)).drop_last() =~= s);
}

/// Widening a byte to 16 bits keeps its value, and narrowing keeps the
/// value modulo 256, so a byte widened and narrowed again is unchanged.
pub proof fn law_casts_keep_the_value(s: Seq<ValueView>, m: Seq<u8>, h: int, types: Seq<IRType>, v: u8, w: u16)
    ensures
        goes_on(
            effect(s.push(ValueView::U8(v)), m, h, types, IRInstruction::Cast { from: IRType::U8, to: IRType::U16 }),
            s.push(ValueView::U16(v as u16)),
            m,
            h,
        ),
        goes_on(
            effect(s.push(ValueView::U16(w)), m, h, types, IRInstruction::Cast { from: IRType::U16, to: IRType::U8 }),
            s.push(ValueView::U8((w % 256) as u8)),
            m,
            h,
        ),
        (v as u16) as int == v as int,
        w < 256 ==> (w % 256) as u8 == w as int,
{
    assert(s.push(ValueView::U8(v)).drop_last() =~= s);
    assert(s.push(ValueView::U16(w)).drop_last() =~= s);
}

/// Booleans compare for equality only: `=` on two of them leaves true
/// exactly when they are the same.
pub proof fn law_compare_booleans(s: Seq<ValueView>, m: Seq<u8>, h: int, types: Seq<IRType>, ty: IRType, a: bool, b: bool)
    ensures
        leaves(effect(s.push(ValueView::Bool(a)).push(ValueView::Bool(b)), m, h, types, IRInstruction::Eq { ty }), s, m, h, ValueView::Bool(a == b)),
{
    let st = s.push(ValueView::Bool(a)).push(ValueView::Bool(b));
    assert(st.subrange(0, st.len() - 2) =~= s);
}

} // verus!
