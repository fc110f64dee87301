//! The stack machine that runs compiled programs.
//!
//! A program is a list of functions, each a list of instructions. The machine
//! holds a value stack, a call stack of return addresses, and the place of
//! the instruction to run next. One step runs that instruction; the contracts
//! say what each instruction does to the view of the state.

use crate::values::{
    apply_binary, binary_post, value_views, BinaryOp, Closure, ClosureFunc, ClosureView,
    FloatUnit, Value, ValueError, ValueView,
};
use std::rc::Rc;
use vstd::prelude::*;

verus! {

/// One instruction.
#[derive(Debug, Copy, Clone, PartialEq, Eq, Structural)]
pub enum OpCode {
    /// Push the constant with this index.
    Constant(usize),
    /// Run the builtin with this index on the value stack.
    CallBuiltin(usize),
    /// Call the function with this index.
    CallFunction(usize),
    Add,
    Sub,
    Mult,
    Mod,
    Div,
    Or,
    And,
    Xor,
    Lt,
    Gt,
    Le,
    Ge,
    Eq,
    NE,
    /// Pop a boolean; go to the first address if it is true, else to the second.
    If(usize, usize),
    Concat,
    /// Go back to the caller.
    Return,
    /// Stop the machine.
    Exit,
    /// Go to this address of the running function.
    Jump(usize),
    /// Push a copy of the value that lies this many places below the top.
    Local(usize),
    /// Keep the top value and drop this many values below it.
    Slide(usize),
    /// `MakeClosure(function, declared, captured)`: pop `captured` values and
    /// push a closure over `function` that holds them and takes `declared`
    /// more.
    MakeClosure(usize, usize, usize),
    /// Pop a closure and, below it, this many arguments; push the longer
    /// closure, or run its function where it has become saturated.
    Apply(usize),
    /// `Pack(tag, fields)`: pop `fields` values and push the record that
    /// holds them under the tag: an array of the tag and the values.
    Pack(usize, usize),
    /// Pop an array and push its item with this index.
    Field(usize),
    /// Pop a record and push whether this is its tag.
    HasTag(usize),
}

/// Why a builtin gave up.
#[derive(Debug, Copy, Clone, PartialEq, Eq)]
pub enum BuiltinError {
    /// It found fewer values on the stack than it takes.
    StackUnderflow,
    /// It found a value of a variant that it does not take.
    TypeMismatch,
    /// Anything else.
    Failed,
}

/// Why the machine stopped before an `Exit`.
#[derive(Debug, Copy, Clone, PartialEq, Eq)]
pub enum VmError {
    /// The running function's index is outside the program.
    InvalidFunction,
    /// The program counter is outside the running function.
    InvalidProgramCounter,
    /// A constant's index is outside the constant table.
    InvalidConstant,
    /// A builtin's index is outside the builtin table.
    InvalidBuiltin,
    /// An instruction needs more values than the stack holds.
    StackUnderflow,
    /// A `Return` with no caller to go back to.
    CallStackUnderflow,
    /// An operand of a variant that the instruction does not take.
    TypeMismatch,
    /// An integer division or remainder by zero.
    DivisionByZero,
    /// A closure with more arguments than its function takes.
    ArityMismatch,
    /// An array has no item with the index that was asked for.
    InvalidField,
    /// A builtin reported this.
    Builtin(BuiltinError),
    /// The allowed number of steps ran out.
    OutOfSteps,
}

/// A native operation. It has the value stack to itself for the length of
/// the call and may pop and push as it likes; nothing is promised of what it
/// leaves there.
pub trait Builtin {
    fn call(&mut self, stack: &mut Vec<Value>) -> Result<(), BuiltinError>;
}

/// The state of a running machine.
pub struct VmState {
    stack: Vec<Value>,
    call_stack: Vec<(usize, usize)>,
    function: usize,
    pc: usize,
}

/// The mathematical content of a [`VmState`].
pub struct VmStateView {
    /// The value stack, bottom first.
    pub stack: Seq<ValueView>,
    /// The return addresses, oldest first: function index and program counter.
    pub call_stack: Seq<(usize, usize)>,
    /// The index of the running function.
    pub function: usize,
    /// The place of the next instruction in it.
    pub pc: usize,
}

impl View for VmState {
    type V = VmStateView;

    closed spec fn view(&self) -> VmStateView {
        VmStateView {
            stack: value_views(self.stack@),
            call_stack: self.call_stack@,
            function: self.function,
            pc: self.pc,
        }
    }
}

impl VmStateView {
    /// The same state with another value stack.
    pub open spec fn with_stack(self, stack: Seq<ValueView>) -> VmStateView {
        VmStateView { stack, call_stack: self.call_stack, function: self.function, pc: self.pc }
    }

    /// The same state at another place of the running function.
    pub open spec fn at(self, pc: usize) -> VmStateView {
        VmStateView { stack: self.stack, call_stack: self.call_stack, function: self.function, pc }
    }

    /// The same state at the following instruction.
    pub open spec fn advance(self) -> VmStateView {
        self.at((self.pc + 1) as usize)
    }

    /// The state after a call of `function` from this one: the caller's next
    /// instruction is remembered, and the callee starts at its beginning.
    pub open spec fn enter(self, function: usize) -> VmStateView {
        VmStateView {
            stack: self.stack,
            call_stack: self.call_stack.push((self.function, (self.pc + 1) as usize)),
            function,
            pc: 0,
        }
    }
}

/// The instruction sequences of a program.
pub open spec fn program_view(program: Seq<Vec<OpCode>>) -> Seq<Seq<OpCode>> {
    Seq::new(program.len(), |i: int| program[i]@)
}

/// The instruction at `(function, pc)`, or why there is none.
pub open spec fn fetch(program: Seq<Seq<OpCode>>, function: usize, pc: usize) -> Result<
    OpCode,
    VmError,
> {
    if function >= program.len() {
        Err(VmError::InvalidFunction)
    } else if pc >= program[function as int].len() {
        Err(VmError::InvalidProgramCounter)
    } else {
        Ok(program[function as int][pc as int])
    }
}

/// The operation that an arithmetic, comparison or concatenation instruction
/// performs; `None` for the other instructions.
pub open spec fn binary_of(instr: OpCode) -> Option<BinaryOp> {
    match instr {
        OpCode::Add => Some(BinaryOp::Add),
        OpCode::Sub => Some(BinaryOp::Sub),
        OpCode::Mult => Some(BinaryOp::Mult),
        OpCode::Mod => Some(BinaryOp::Mod),
        OpCode::Div => Some(BinaryOp::Div),
        OpCode::Or => Some(BinaryOp::Or),
        OpCode::And => Some(BinaryOp::And),
        OpCode::Xor => Some(BinaryOp::Xor),
        OpCode::Lt => Some(BinaryOp::Lt),
        OpCode::Gt => Some(BinaryOp::Gt),
        OpCode::Le => Some(BinaryOp::Le),
        OpCode::Ge => Some(BinaryOp::Ge),
        OpCode::Eq => Some(BinaryOp::Eq),
        OpCode::NE => Some(BinaryOp::NE),
        OpCode::Concat => Some(BinaryOp::Concat),
        _ => None,
    }
}

/// The machine's error for an error of a value operation.
pub open spec fn value_error(e: ValueError) -> VmError {
    match e {
        ValueError::TypeMismatch => VmError::TypeMismatch,
        ValueError::DivisionByZero => VmError::DivisionByZero,
    }
}

/// The closure that `MakeClosure(function, declared, captured)` builds from
/// the captured values.
pub open spec fn closure_over(function: usize, declared: usize, held: Seq<ValueView>) -> ValueView {
    ValueView::Closure(
        ClosureView {
            total_args: (held.len() + declared) as nat,
            current_args: held,
            function: ClosureFunc::Normal(function, declared),
        },
    )
}

/// The record with the tag `tag` and the fields `fields`: an array that
/// holds the tag, as an integer, and then the fields.
pub open spec fn record(tag: usize, fields: Seq<ValueView>) -> ValueView {
    ValueView::Array(seq![ValueView::Number(tag as u64)] + fields)
}

/// The state and the result after an instruction whose effect depends on
/// nothing but the state and the constants: every instruction but a builtin
/// call, an application and the two-operand operations. The result is
/// `Ok(true)` where the machine halts, and an error leaves the state as it was.
pub open spec fn plain_step(instr: OpCode, constants: Seq<ValueView>, s: VmStateView) -> (
    VmStateView,
    Result<bool, VmError>,
) {
    let depth = s.stack.len() as int;
    match instr {
        OpCode::Exit => (s, Ok(true)),
        OpCode::Constant(i) => if i < constants.len() {
            (s.with_stack(s.stack.push(constants[i as int])).advance(), Ok(false))
        } else {
            (s, Err(VmError::InvalidConstant))
        },
        OpCode::CallFunction(i) => (s.enter(i), Ok(false)),
        OpCode::Return => if s.call_stack.len() == 0 {
            (s, Err(VmError::CallStackUnderflow))
        } else {
            (
                VmStateView {
                    stack: s.stack,
                    call_stack: s.call_stack.drop_last(),
                    function: s.call_stack.last().0,
                    pc: s.call_stack.last().1,
                },
                Ok(false),
            )
        },
        OpCode::If(t, f) => if depth == 0 {
            (s, Err(VmError::StackUnderflow))
        } else {
            match s.stack.last() {
                ValueView::Boolean(b) => (
                    s.with_stack(s.stack.drop_last()).at(if b { t } else { f }),
                    Ok(false),
                ),
                _ => (s, Err(VmError::TypeMismatch)),
            }
        },
        OpCode::Jump(target) => (s.at(target), Ok(false)),
        OpCode::Local(k) => if k < depth {
            (s.with_stack(s.stack.push(s.stack[depth - 1 - k])).advance(), Ok(false))
        } else {
            (s, Err(VmError::StackUnderflow))
        },
        OpCode::Slide(n) => if n < depth {
            (
                s.with_stack(s.stack.take(depth - 1 - n).push(s.stack.last())).advance(),
                Ok(false),
            )
        } else {
            (s, Err(VmError::StackUnderflow))
        },
        OpCode::MakeClosure(function, declared, captured) => if captured > depth {
            (s, Err(VmError::StackUnderflow))
        } else if captured + declared > u16::MAX {
            (s, Err(VmError::ArityMismatch))
        } else {
            (
                s.with_stack(
                    s.stack.take(depth - captured).push(
                        closure_over(function, declared, s.stack.skip(depth - captured)),
                    ),
                ).advance(),
                Ok(false),
            )
        },
        OpCode::Pack(tag, fields) => if fields > depth {
            (s, Err(VmError::StackUnderflow))
        } else {
            (
                s.with_stack(
                    s.stack.take(depth - fields).push(record(tag, s.stack.skip(depth - fields))),
                ).advance(),
                Ok(false),
            )
        },
        OpCode::Field(index) => if depth == 0 {
            (s, Err(VmError::StackUnderflow))
        } else {
            match s.stack.last() {
                ValueView::Array(items) => if index < items.len() {
                    (s.with_stack(s.stack.drop_last().push(items[index as int])).advance(), Ok(false))
                } else {
                    (s, Err(VmError::InvalidField))
                },
                _ => (s, Err(VmError::TypeMismatch)),
            }
        },
        OpCode::HasTag(tag) => if depth == 0 {
            (s, Err(VmError::StackUnderflow))
        } else {
            match s.stack.last() {
                ValueView::Array(items) => if items.len() > 0 && items[0] is Number {
                    (
                        s.with_stack(
                            s.stack.drop_last().push(
                                ValueView::Boolean(items[0]->Number_0 == tag),
                            ),
                        ).advance(),
                        Ok(false),
                    )
                } else {
                    (s, Err(VmError::TypeMismatch))
                },
                _ => (s, Err(VmError::TypeMismatch)),
            }
        },
        _ => (s, Ok(false)),
    }
}

/// What holds after a two-operand instruction. The right operand is on top
/// of the stack and the left one below it; both are replaced by the result.
/// An error of the operation leaves the stack without the operands.
pub open spec fn binary_instr_post(
    op: BinaryOp,
    pre: VmStateView,
    post: VmStateView,
    r: Result<bool, VmError>,
) -> bool {
    let depth = pre.stack.len() as int;
    if depth < 2 {
        r == Err::<bool, VmError>(VmError::StackUnderflow) && post == pre
    } else {
        let base = pre.stack.take(depth - 2);
        let lhs = pre.stack[depth - 2];
        let rhs = pre.stack[depth - 1];
        match r {
            Ok(halt) => {
                &&& !halt
                &&& post.stack.len() == depth - 1
                &&& binary_post(op, lhs, rhs, Ok(post.stack.last()))
                &&& post == pre.with_stack(base.push(post.stack.last())).advance()
            },
            Err(e) => {
                &&& post == pre.with_stack(base)
                &&& exists|cause: ValueError|
                    e == value_error(cause) && #[trigger] binary_post(op, lhs, rhs, Err(cause))
            },
        }
    }
}

/// What holds after `CallBuiltin(index)` with `builtins` builtins in the
/// table. The builtin may leave anything on the value stack; nothing else
/// changes but the program counter, which moves on where the builtin
/// succeeded.
pub open spec fn builtin_post(
    index: usize,
    builtins: nat,
    pre: VmStateView,
    post: VmStateView,
    r: Result<bool, VmError>,
) -> bool {
    if index >= builtins {
        r == Err::<bool, VmError>(VmError::InvalidBuiltin) && post == pre
    } else {
        match r {
            Ok(halt) => !halt && post == pre.with_stack(post.stack).advance(),
            Err(e) => e is Builtin && post == pre.with_stack(post.stack),
        }
    }
}

/// What holds after `Apply(count)`. The closure is on top of the stack and
/// its new arguments below it, the first of them deepest. A closure that is
/// still short of arguments is pushed back, longer. Where it has become
/// saturated, all its arguments are laid on the stack, oldest deepest, and
/// its function runs: a program function is called, a builtin is run on the
/// spot, on that stack.
pub open spec fn apply_post(
    count: usize,
    builtins: nat,
    pre: VmStateView,
    post: VmStateView,
    r: Result<bool, VmError>,
) -> bool {
    let depth = pre.stack.len() as int;
    if count >= depth {
        r == Err::<bool, VmError>(VmError::StackUnderflow) && post == pre
    } else {
        match pre.stack.last() {
            ValueView::Closure(c) => {
                let base = pre.stack.take(depth - 1 - count);
                let args = pre.stack.subrange(depth - 1 - count, depth - 1);
                if c.current_args.len() + count > c.total_args {
                    r == Err::<bool, VmError>(VmError::ArityMismatch) && post == pre
                } else if c.current_args.len() + count < c.total_args {
                    r == Ok::<bool, VmError>(false) && post == pre.with_stack(
                        base.push(ValueView::Closure(c.supply_all(args))),
                    ).advance()
                } else {
                    let laid = base + c.current_args + args;
                    match c.function {
                        ClosureFunc::Normal(function, _) => r == Ok::<bool, VmError>(false)
                            && post == pre.with_stack(laid).enter(function),
                        ClosureFunc::Builtin(index) => builtin_post(index, builtins, pre, post, r),
                    }
                }
            },
            _ => r == Err::<bool, VmError>(VmError::TypeMismatch) && post == pre,
        }
    }
}

/// What holds after the instruction `instr` is run in the state `pre`.
pub open spec fn instr_post(
    instr: OpCode,
    constants: Seq<ValueView>,
    builtins: nat,
    pre: VmStateView,
    post: VmStateView,
    r: Result<bool, VmError>,
) -> bool {
    match instr {
        OpCode::CallBuiltin(index) => builtin_post(index, builtins, pre, post, r),
        OpCode::Apply(count) => apply_post(count, builtins, pre, post, r),
        _ => match binary_of(instr) {
            Some(op) => binary_instr_post(op, pre, post, r),
            None => (post, r) == plain_step(instr, constants, pre),
        },
    }
}

/// What holds after one step of the machine from the state `pre`: the
/// instruction at its place is run, and where there is none the step fails
/// and the state stays as it was.
pub open spec fn step_post(
    program: Seq<Seq<OpCode>>,
    constants: Seq<ValueView>,
    builtins: nat,
    pre: VmStateView,
    post: VmStateView,
    r: Result<bool, VmError>,
) -> bool {
    match fetch(program, pre.function, pre.pc) {
        Err(e) => r == Err::<bool, VmError>(e) && post == pre,
        Ok(instr) => instr_post(instr, constants, builtins, pre, post, r),
    }
}

impl VmError {
    /// The machine's error for an error of a value operation.
    pub fn from_value_error(e: ValueError) -> (r: VmError)
        ensures
            r == value_error(e),
    {
        match e {
            ValueError::TypeMismatch => VmError::TypeMismatch,
            ValueError::DivisionByZero => VmError::DivisionByZero,
        }
    }
}

impl VmState {
    /// A machine about to run the first instruction of `main`, with both
    /// stacks empty.
    pub fn new(main: usize) -> (r: VmState)
        ensures
            r@ == (VmStateView {
                stack: Seq::<ValueView>::empty(),
                call_stack: Seq::<(usize, usize)>::empty(),
                function: main,
                pc: 0,
            }),
    {
        let state = VmState { stack: Vec::new(), call_stack: Vec::new(), function: main, pc: 0 };
        assert(state@.stack =~= Seq::<ValueView>::empty());
        state
    }

    /// The index of the running function.
    pub fn function(&self) -> (r: usize)
        ensures
            r == self@.function,
    {
        self.function
    }

    /// The place of the next instruction in the running function.
    pub fn pc(&self) -> (r: usize)
        ensures
            r == self@.pc,
    {
        self.pc
    }

    /// The value stack, bottom first.
    pub fn stack(&self) -> (r: &Vec<Value>)
        ensures
            value_views(r@) == self@.stack,
    {
        &self.stack
    }

    /// The return addresses, oldest first.
    pub fn call_stack(&self) -> (r: &Vec<(usize, usize)>)
        ensures
            r@ == self@.call_stack,
    {
        &self.call_stack
    }

    /// The instruction to run next.
    pub fn get_instr(&self, program: &[Vec<OpCode>]) -> (r: Result<OpCode, VmError>)
        ensures
            r == fetch(program_view(program@), self@.function, self@.pc),
    {
        if self.function >= program.len() {
            return Err(VmError::InvalidFunction);
        }
        let code = &program[self.function];
        if self.pc >= code.len() {
            return Err(VmError::InvalidProgramCounter);
        }
        Ok(code[self.pc])
    }

    /// Pushes `id` on the value stack.
    pub fn push_value(&mut self, id: Value)
        ensures
            final(self)@ == old(self)@.with_stack(old(self)@.stack.push(id@)),
    {
        self.stack.push(id);
        proof {
            assert(value_views(self.stack@) =~= value_views(old(self).stack@).push(id@));
        }
    }

    /// Pops the top of the value stack; on an empty stack nothing changes.
    pub fn pop_value(&mut self) -> (r: Result<Value, VmError>)
        ensures
            old(self)@.stack.len() == 0 ==> r == Err::<Value, VmError>(VmError::StackUnderflow)
                && final(self)@ == old(self)@,
            old(self)@.stack.len() > 0 ==> (r matches Ok(v) && v@ == old(self)@.stack.last()
                && final(self)@ == old(self)@.with_stack(old(self)@.stack.drop_last())),
    {
        match self.stack.pop() {
            Some(v) => {
                proof {
                    assert(value_views(self.stack@) =~= value_views(old(self).stack@).drop_last());
                }
                Ok(v)
            },
            None => Err(VmError::StackUnderflow),
        }
    }

    /// Keeps the lowest `depth` values of the stack and hands back the rest,
    /// in their order.
    fn split_stack(&mut self, depth: usize) -> (r: Vec<Value>)
        requires
            depth <= old(self)@.stack.len(),
        ensures
            final(self)@ == old(self)@.with_stack(old(self)@.stack.take(depth as int)),
            value_views(r@) == old(self)@.stack.skip(depth as int),
    {
        let upper = self.stack.split_off(depth);
        proof {
            assert(value_views(self.stack@) =~= value_views(old(self).stack@).take(depth as int));
            assert(value_views(upper@) =~= value_views(old(self).stack@).skip(depth as int));
        }
        upper
    }

    /// Lays copies of `values` on the stack, the first deepest.
    fn push_all(&mut self, values: &Vec<Value>)
        ensures
            final(self)@ == old(self)@.with_stack(old(self)@.stack + value_views(values@)),
    {
        let mut i: usize = 0;
        while i < values.len()
            invariant
                i <= values@.len(),
                self@ == old(self)@.with_stack(
                    old(self)@.stack + value_views(values@).take(i as int),
                ),
            decreases values@.len() - i,
        {
            let ghost before = self@.stack;
            self.push_value(values[i].clone());
            proof {
                assert(before.push(values@[i as int]@) =~= old(self)@.stack + value_views(
                    values@,
                ).take(i + 1));
            }
            i += 1;
        }
        proof {
            assert(value_views(values@).take(i as int) =~= value_views(values@));
        }
    }

    fn exec_binary<F: FloatUnit>(&mut self, floats: &F, op: BinaryOp) -> (r: Result<bool, VmError>)
        requires
            old(self)@.pc < usize::MAX,
        ensures
            binary_instr_post(op, old(self)@, final(self)@, r),
    {
        if self.stack.len() < 2 {
            return Err(VmError::StackUnderflow);
        }
        let ghost depth = self@.stack.len() as int;
        let ghost base = self@.stack.take(depth - 2);
        let rhs = self.stack.pop().unwrap();
        let lhs = self.stack.pop().unwrap();
        proof {
            assert(value_views(self.stack@) =~= base);
        }
        match apply_binary(floats, op, lhs, rhs) {
            Ok(v) => {
                self.push_value(v);
                self.pc = self.pc + 1;
                Ok(false)
            },
            Err(e) => {
                proof {
                    assert(binary_post(op, lhs@, rhs@, Err(e)));
                }
                Err(VmError::from_value_error(e))
            },
        }
    }

    fn exec_if(&mut self, if_true: usize, if_false: usize) -> (r: Result<bool, VmError>)
        ensures
            (final(self)@, r) == plain_step(OpCode::If(if_true, if_false), Seq::empty(), old(self)@),
    {
        let depth = self.stack.len();
        if depth == 0 {
            return Err(VmError::StackUnderflow);
        }
        match self.stack[depth - 1].expect_bool() {
            Ok(b) => {
                self.stack.pop();
                proof {
                    assert(value_views(self.stack@) =~= old(self)@.stack.drop_last());
                }
                self.pc = if b {
                    if_true
                } else {
                    if_false
                };
                Ok(false)
            },
            Err(_) => Err(VmError::TypeMismatch),
        }
    }

    fn exec_local(&mut self, offset: usize) -> (r: Result<bool, VmError>)
        requires
            old(self)@.pc < usize::MAX,
        ensures
            (final(self)@, r) == plain_step(OpCode::Local(offset), Seq::empty(), old(self)@),
    {
        let depth = self.stack.len();
        if offset >= depth {
            return Err(VmError::StackUnderflow);
        }
        let copy = self.stack[depth - 1 - offset].clone();
        self.push_value(copy);
        self.pc = self.pc + 1;
        Ok(false)
    }

    fn exec_slide(&mut self, count: usize) -> (r: Result<bool, VmError>)
        requires
            old(self)@.pc < usize::MAX,
        ensures
            (final(self)@, r) == plain_step(OpCode::Slide(count), Seq::empty(), old(self)@),
    {
        let depth = self.stack.len();
        if count >= depth {
            return Err(VmError::StackUnderflow);
        }
        let top = self.stack.pop().unwrap();
        self.stack.truncate(depth - 1 - count);
        proof {
            assert(value_views(self.stack@) =~= old(self)@.stack.take(depth - 1 - count));
        }
        self.push_value(top);
        self.pc = self.pc + 1;
        Ok(false)
    }

    fn exec_make_closure(&mut self, function: usize, declared: usize, captured: usize) -> (r: Result<
        bool,
        VmError,
    >)
        requires
            old(self)@.pc < usize::MAX,
        ensures
            (final(self)@, r) == plain_step(
                OpCode::MakeClosure(function, declared, captured),
                Seq::empty(),
                old(self)@,
            ),
    {
        let depth = self.stack.len();
        if captured > depth {
            return Err(VmError::StackUnderflow);
        }
        if captured > 0xffff || declared > 0xffff - captured {
            return Err(VmError::ArityMismatch);
        }
        let total = (captured + declared) as u16;
        let held = self.split_stack(depth - captured);
        let empty = Closure::new(ClosureFunc::Normal(function, declared), total, Vec::new()).unwrap();
        let closure = empty.extend(&held).unwrap();
        proof {
            crate::values::lemma_supply_all_appends(empty@, value_views(held@));
            assert(empty@.current_args + value_views(held@) =~= value_views(held@));
        }
        self.push_value(Value::Closure(Rc::new(closure)));
        self.pc = self.pc + 1;
        Ok(false)
    }
}

impl VmState {
    fn exec_pack(&mut self, tag: usize, fields: usize) -> (r: Result<bool, VmError>)
        requires
            old(self)@.pc < usize::MAX,
        ensures
            (final(self)@, r) == plain_step(OpCode::Pack(tag, fields), Seq::empty(), old(self)@),
    {
        let depth = self.stack.len();
        if fields > depth {
            return Err(VmError::StackUnderflow);
        }
        let mut held = self.split_stack(depth - fields);
        let ghost held_views = value_views(held@);
        let mut items: Vec<Value> = Vec::new();
        items.push(Value::Number(tag as u64));
        items.append(&mut held);
        let packed = Rc::new(items);
        proof {
            crate::values::lemma_array_view(packed);
            assert(packed@.map_values(|v: Value| v@) =~= seq![ValueView::Number(tag as u64)]
                + held_views);
        }
        self.push_value(Value::Array(packed));
        self.pc = self.pc + 1;
        Ok(false)
    }

    fn exec_field(&mut self, index: usize) -> (r: Result<bool, VmError>)
        requires
            old(self)@.pc < usize::MAX,
        ensures
            (final(self)@, r) == plain_step(OpCode::Field(index), Seq::empty(), old(self)@),
    {
        let depth = self.stack.len();
        if depth == 0 {
            return Err(VmError::StackUnderflow);
        }
        let found = match &self.stack[depth - 1] {
            Value::Array(items) => {
                let list: &Vec<Value> = items;
                proof {
                    crate::values::lemma_array_view(*items);
                }
                if index < list.len() {
                    Some(list[index].clone())
                } else {
                    None
                }
            },
            _ => {
                return Err(VmError::TypeMismatch);
            },
        };
        match found {
            Some(item) => {
                self.stack.pop();
                proof {
                    assert(value_views(self.stack@) =~= old(self)@.stack.drop_last());
                }
                self.push_value(item);
                self.pc = self.pc + 1;
                Ok(false)
            },
            None => Err(VmError::InvalidField),
        }
    }

    fn exec_has_tag(&mut self, tag: usize) -> (r: Result<bool, VmError>)
        requires
            old(self)@.pc < usize::MAX,
        ensures
            (final(self)@, r) == plain_step(OpCode::HasTag(tag), Seq::empty(), old(self)@),
    {
        let depth = self.stack.len();
        if depth == 0 {
            return Err(VmError::StackUnderflow);
        }
        let found = match &self.stack[depth - 1] {
            Value::Array(items) => {
                let list: &Vec<Value> = items;
                proof {
                    crate::values::lemma_array_view(*items);
                }
                if list.len() > 0 {
                    match &list[0] {
                        Value::Number(held) => Some(*held == tag as u64),
                        _ => None,
                    }
                } else {
                    None
                }
            },
            _ => None,
        };
        match found {
            Some(same) => {
                self.stack.pop();
                proof {
                    assert(value_views(self.stack@) =~= old(self)@.stack.drop_last());
                }
                self.push_value(Value::Boolean(same));
                self.pc = self.pc + 1;
                Ok(false)
            },
            None => Err(VmError::TypeMismatch),
        }
    }

    fn exec_builtin<B: Builtin>(&mut self, builtins: &mut [B], index: usize) -> (r: Result<
        bool,
        VmError,
    >)
        requires
            old(self)@.pc < usize::MAX,
        ensures
            builtin_post(index, old(builtins)@.len(), old(self)@, final(self)@, r),
            final(builtins)@.len() == old(builtins)@.len(),
    {
        if index >= builtins.len() {
            return Err(VmError::InvalidBuiltin);
        }
        match builtins[index].call(&mut self.stack) {
            Ok(()) => {
                self.pc = self.pc + 1;
                Ok(false)
            },
            Err(e) => Err(VmError::Builtin(e)),
        }
    }

    fn exec_call(&mut self, function: usize)
        requires
            old(self)@.pc < usize::MAX,
        ensures
            final(self)@ == old(self)@.enter(function),
    {
        self.call_stack.push((self.function, self.pc + 1));
        self.function = function;
        self.pc = 0;
    }

    fn exec_return(&mut self) -> (r: Result<bool, VmError>)
        ensures
            (final(self)@, r) == plain_step(OpCode::Return, Seq::empty(), old(self)@),
    {
        match self.call_stack.pop() {
            Some((function, pc)) => {
                self.function = function;
                self.pc = pc;
                Ok(false)
            },
            None => Err(VmError::CallStackUnderflow),
        }
    }

    fn exec_apply<B: Builtin>(&mut self, builtins: &mut [B], count: usize) -> (r: Result<
        bool,
        VmError,
    >)
        requires
            old(self)@.pc < usize::MAX,
        ensures
            apply_post(count, old(builtins)@.len(), old(self)@, final(self)@, r),
            final(builtins)@.len() == old(builtins)@.len(),
    {
        let depth = self.stack.len();
        if count >= depth {
            return Err(VmError::StackUnderflow);
        }
        let (held, total, function) = match &self.stack[depth - 1] {
            Value::Closure(c) => (c.current_args().len(), c.total_args() as usize, c.function()),
            _ => {
                return Err(VmError::TypeMismatch);
            },
        };
        if count > total - held {
            return Err(VmError::ArityMismatch);
        }
        let saturated = held + count == total;
        if saturated {
            if let ClosureFunc::Builtin(index) = function {
                if index >= builtins.len() {
                    return Err(VmError::InvalidBuiltin);
                }
            }
        }
        let ghost pre = self@;
        let ghost base = pre.stack.take(depth - 1 - count);
        let ghost args_view = pre.stack.subrange(depth - 1 - count, depth - 1);
        let top = self.stack.pop().unwrap();
        proof {
            assert(value_views(self.stack@) =~= pre.stack.drop_last());
        }
        let args = self.split_stack(depth - 1 - count);
        proof {
            assert(pre.stack.drop_last().take(depth - 1 - count) =~= base);
            assert(pre.stack.drop_last().skip(depth - 1 - count) =~= args_view);
        }
        match top {
            Value::Closure(c) => {
                if !saturated {
                    let longer = c.extend(&args).unwrap();
                    self.push_value(Value::Closure(Rc::new(longer)));
                    self.pc = self.pc + 1;
                    Ok(false)
                } else {
                    let first = c.arguments();
                    self.push_all(&first);
                    self.push_all(&args);
                    match function {
                        ClosureFunc::Normal(callee, _) => {
                            self.exec_call(callee);
                            Ok(false)
                        },
                        ClosureFunc::Builtin(index) => self.exec_builtin(builtins, index),
                    }
                }
            },
            _ => Err(VmError::TypeMismatch),
        }
    }
}

/// Runs the instruction at the machine's place. `Ok(true)` says that the
/// machine has halted, `Ok(false)` that it can go on.
pub fn execute_instr<B: Builtin, F: FloatUnit>(
    program: &[Vec<OpCode>],
    constant_table: &[Value],
    builtins: &mut [B],
    floats: &F,
    vm_state: &mut VmState,
) -> (r: Result<bool, VmError>)
    ensures
        step_post(
            program_view(program@),
            value_views(constant_table@),
            old(builtins)@.len(),
            old(vm_state)@,
            final(vm_state)@,
            r,
        ),
        final(builtins)@.len() == old(builtins)@.len(),
{
    let instr = match vm_state.get_instr(program) {
        Ok(instr) => instr,
        Err(e) => {
            return Err(e);
        },
    };
    proof {
        let code = program@[vm_state.function as int];
        assert(program_view(program@)[vm_state.function as int] == code@);
        assert(code@.len() == code.len());
    }
    match instr {
        OpCode::Exit => Ok(true),
        OpCode::Constant(id) => {
            if id < constant_table.len() {
                vm_state.push_value(constant_table[id].clone());
                vm_state.pc = vm_state.pc + 1;
                Ok(false)
            } else {
                Err(VmError::InvalidConstant)
            }
        },
        OpCode::CallBuiltin(id) => vm_state.exec_builtin(builtins, id),
        OpCode::CallFunction(id) => {
            vm_state.exec_call(id);
            Ok(false)
        },
        OpCode::Return => vm_state.exec_return(),
        OpCode::Add => vm_state.exec_binary(floats, BinaryOp::Add),
        OpCode::Sub => vm_state.exec_binary(floats, BinaryOp::Sub),
        OpCode::Mult => vm_state.exec_binary(floats, BinaryOp::Mult),
        OpCode::Mod => vm_state.exec_binary(floats, BinaryOp::Mod),
        OpCode::Div => vm_state.exec_binary(floats, BinaryOp::Div),
        OpCode::Or => vm_state.exec_binary(floats, BinaryOp::Or),
        OpCode::And => vm_state.exec_binary(floats, BinaryOp::And),
        OpCode::Xor => vm_state.exec_binary(floats, BinaryOp::Xor),
        OpCode::Concat => vm_state.exec_binary(floats, BinaryOp::Concat),
        OpCode::Lt => vm_state.exec_binary(floats, BinaryOp::Lt),
        OpCode::Gt => vm_state.exec_binary(floats, BinaryOp::Gt),
        OpCode::Le => vm_state.exec_binary(floats, BinaryOp::Le),
        OpCode::Ge => vm_state.exec_binary(floats, BinaryOp::Ge),
        OpCode::Eq => vm_state.exec_binary(floats, BinaryOp::Eq),
        OpCode::NE => vm_state.exec_binary(floats, BinaryOp::NE),
        OpCode::If(t, f) => vm_state.exec_if(t, f),
        OpCode::Jump(target) => {
            vm_state.pc = target;
            Ok(false)
        },
        OpCode::Local(offset) => vm_state.exec_local(offset),
        OpCode::Slide(count) => vm_state.exec_slide(count),
        OpCode::MakeClosure(function, declared, captured) => vm_state.exec_make_closure(
            function,
            declared,
            captured,
        ),
        OpCode::Apply(count) => vm_state.exec_apply(builtins, count),
        OpCode::Pack(tag, fields) => vm_state.exec_pack(tag, fields),
        OpCode::Field(index) => vm_state.exec_field(index),
        OpCode::HasTag(tag) => vm_state.exec_has_tag(tag),
    }
}

/// True when `steps` steps, none of which halts or fails, lead from `from`
/// to `to`.
pub open spec fn reaches(
    program: Seq<Seq<OpCode>>,
    constants: Seq<ValueView>,
    builtins: nat,
    from: VmStateView,
    to: VmStateView,
    steps: nat,
) -> bool
    decreases steps,
{
    if steps == 0 {
        from == to
    } else {
        exists|mid: VmStateView|
            reaches(program, constants, builtins, from, mid, (steps - 1) as nat)
                && #[trigger] step_post(program, constants, builtins, mid, to, Ok(false))
    }
}

/// True when fewer than `limit` steps lead from `from` to a state whose own
/// step ends in `last` with the result `r`.
pub open spec fn stops_with(
    program: Seq<Seq<OpCode>>,
    constants: Seq<ValueView>,
    builtins: nat,
    from: VmStateView,
    last: VmStateView,
    limit: nat,
    r: Result<bool, VmError>,
) -> bool {
    exists|steps: nat, before: VmStateView|
        steps < limit && #[trigger] reaches(program, constants, builtins, from, before, steps)
            && step_post(program, constants, builtins, before, last, r)
}

/// What holds after a run of at most `max_steps` steps from `start` that
/// ended in `end`: it stopped at an `Exit`, or at the first step that failed,
/// with that step's error, or after `max_steps` steps that neither halted nor
/// failed.
pub open spec fn run_post(
    program: Seq<Seq<OpCode>>,
    constants: Seq<ValueView>,
    builtins: nat,
    start: VmStateView,
    end: VmStateView,
    max_steps: nat,
    r: Result<(), VmError>,
) -> bool {
    match r {
        Ok(()) => stops_with(program, constants, builtins, start, end, max_steps, Ok(true)),
        Err(VmError::OutOfSteps) => reaches(program, constants, builtins, start, end, max_steps),
        Err(e) => stops_with(program, constants, builtins, start, end, max_steps, Err(e)),
    }
}

/// Runs the machine from the state it is in until it halts, a step fails, or
/// `max_steps` steps have been made.
pub fn execute_helper<B: Builtin, F: FloatUnit>(
    program: &[Vec<OpCode>],
    constant_table: &[Value],
    builtins: &mut [B],
    floats: &F,
    vm_state: &mut VmState,
    max_steps: usize,
) -> (r: Result<(), VmError>)
    ensures
        run_post(
            program_view(program@),
            value_views(constant_table@),
            old(builtins)@.len(),
            old(vm_state)@,
            final(vm_state)@,
            max_steps as nat,
            r,
        ),
        final(builtins)@.len() == old(builtins)@.len(),
{
    let ghost code = program_view(program@);
    let ghost constants = value_views(constant_table@);
    let ghost count = builtins@.len();
    let ghost start = vm_state@;
    let mut steps: usize = 0;
    while steps < max_steps
        invariant
            steps <= max_steps,
            code == program_view(program@),
            constants == value_views(constant_table@),
            count == builtins@.len(),
            count == old(builtins)@.len(),
            start == old(vm_state)@,
            reaches(code, constants, count, start, vm_state@, steps as nat),
        decreases max_steps - steps,
    {
        let ghost before = vm_state@;
        match execute_instr(program, constant_table, builtins, floats, vm_state) {
            Ok(true) => {
                proof {
                    assert(reaches(code, constants, count, start, before, steps as nat));
                    assert(stops_with(
                        code,
                        constants,
                        count,
                        start,
                        vm_state@,
                        max_steps as nat,
                        Ok(true),
                    ));
                }
                return Ok(());
            },
            Ok(false) => {
                proof {
                    assert(reaches(code, constants, count, start, before, steps as nat));
                    lemma_reaches_one_more(
                        code,
                        constants,
                        count,
                        start,
                        before,
                        vm_state@,
                        steps as nat,
                    );
                }
            },
            Err(e) => {
                proof {
                    lemma_step_never_runs_out(code, constants, count, before, vm_state@, Err(e));
                    assert(reaches(code, constants, count, start, before, steps as nat));
                    assert(stops_with(
                        code,
                        constants,
                        count,
                        start,
                        vm_state@,
                        max_steps as nat,
                        Err(e),
                    ));
                }
                return Err(e);
            },
        }
        steps = steps + 1;
    }
    Err(VmError::OutOfSteps)
}

/// Runs the program from the first instruction of `main`, with empty
/// stacks, for at most `max_steps` steps. The state in which the machine
/// halted at an `Exit` is handed back.
pub fn execute<B: Builtin, F: FloatUnit>(
    program: &[Vec<OpCode>],
    constant_table: &[Value],
    builtins: &mut [B],
    floats: &F,
    main: usize,
    max_steps: usize,
) -> (r: Result<VmState, VmError>)
    ensures
        final(builtins)@.len() == old(builtins)@.len(),
        match r {
            Ok(end) => run_post(
                program_view(program@),
                value_views(constant_table@),
                old(builtins)@.len(),
                initial_state(main),
                end@,
                max_steps as nat,
                Ok(()),
            ),
            Err(e) => exists|end: VmStateView| #[trigger]
                run_post(
                    program_view(program@),
                    value_views(constant_table@),
                    old(builtins)@.len(),
                    initial_state(main),
                    end,
                    max_steps as nat,
                    Err(e),
                ),
        },
{
    let mut vm_state = VmState::new(main);
    let outcome = execute_helper(
        program,
        constant_table,
        builtins,
        floats,
        &mut vm_state,
        max_steps,
    );
    match outcome {
        Ok(()) => Ok(vm_state),
        Err(e) => {
            proof {
                assert(run_post(
                    program_view(program@),
                    value_views(constant_table@),
                    old(builtins)@.len(),
                    initial_state(main),
                    vm_state@,
                    max_steps as nat,
                    Err(e),
                ));
            }
            Err(e)
        },
    }
}

/// The state in which a run of `main` starts.
pub open spec fn initial_state(main: usize) -> VmStateView {
    VmStateView {
        stack: Seq::<ValueView>::empty(),
        call_stack: Seq::<(usize, usize)>::empty(),
        function: main,
        pc: 0,
    }
}

/// A run of `steps` steps followed by one more step that neither halts nor
/// fails is a run of `steps + 1` steps.
pub proof fn lemma_reaches_one_more(
    program: Seq<Seq<OpCode>>,
    constants: Seq<ValueView>,
    builtins: nat,
    from: VmStateView,
    mid: VmStateView,
    to: VmStateView,
    steps: nat,
)
    requires
        reaches(program, constants, builtins, from, mid, steps),
        step_post(program, constants, builtins, mid, to, Ok(false)),
    ensures
        reaches(program, constants, builtins, from, to, (steps + 1) as nat),
{
    let next = (steps + 1) as nat;
    assert((next - 1) as nat == steps);
    assert(reaches(program, constants, builtins, from, mid, (next - 1) as nat));
}

/// No step fails for want of steps: that error is the run's own.
pub proof fn lemma_step_never_runs_out(
    program: Seq<Seq<OpCode>>,
    constants: Seq<ValueView>,
    builtins: nat,
    pre: VmStateView,
    post: VmStateView,
    r: Result<bool, VmError>,
)
    requires
        step_post(program, constants, builtins, pre, post, r),
    ensures
        r != Err::<bool, VmError>(VmError::OutOfSteps),
{
}

/// True when the step from `pre` has one outcome only: the instruction there
/// is no builtin call and no application, and no operation on two floats.
pub open spec fn settled(program: Seq<Seq<OpCode>>, pre: VmStateView) -> bool {
    match fetch(program, pre.function, pre.pc) {
        Err(_) => true,
        Ok(OpCode::CallBuiltin(_)) => false,
        Ok(OpCode::Apply(_)) => false,
        Ok(instr) => binary_of(instr) is Some ==> {
            let depth = pre.stack.len() as int;
            depth >= 2 ==> !(pre.stack[depth - 2] is Float && pre.stack[depth - 1] is Float)
        },
    }
}

/// Apart from builtins, applications and floating-point operations the
/// machine is deterministic: two steps from one state end in one state with
/// one result.
pub proof fn lemma_step_deterministic(
    program: Seq<Seq<OpCode>>,
    constants: Seq<ValueView>,
    builtins: nat,
    pre: VmStateView,
    post1: VmStateView,
    r1: Result<bool, VmError>,
    post2: VmStateView,
    r2: Result<bool, VmError>,
)
    requires
        settled(program, pre),
        step_post(program, constants, builtins, pre, post1, r1),
        step_post(program, constants, builtins, pre, post2, r2),
    ensures
        post1 == post2,
        r1 == r2,
{
}

/// A call and the return that answers it are symmetric. `CallFunction`
/// enters the callee at its first instruction; a `Return` that is run with
/// the call stack as that call left it lands in the caller, one instruction
/// after the call, with the call stack as it was before the call and the
/// value stack as the callee left it. (A program counter below the largest
/// `usize` is what every function held in memory gives.)
pub proof fn lemma_call_return(
    program: Seq<Seq<OpCode>>,
    constants: Seq<ValueView>,
    builtins: nat,
    caller: VmStateView,
    callee: usize,
    entered: VmStateView,
    r1: Result<bool, VmError>,
    returning: VmStateView,
    back: VmStateView,
    r2: Result<bool, VmError>,
)
    requires
        caller.pc < usize::MAX,
        fetch(program, caller.function, caller.pc) == Ok::<OpCode, VmError>(
            OpCode::CallFunction(callee),
        ),
        step_post(program, constants, builtins, caller, entered, r1),
        fetch(program, returning.function, returning.pc) == Ok::<OpCode, VmError>(OpCode::Return),
        returning.call_stack == entered.call_stack,
        step_post(program, constants, builtins, returning, back, r2),
    ensures
        r1 == Ok::<bool, VmError>(false),
        entered.function == callee,
        entered.pc == 0,
        entered.stack == caller.stack,
        r2 == Ok::<bool, VmError>(false),
        back.function == caller.function,
        back.pc == caller.pc + 1,
        back.call_stack == caller.call_stack,
        back.stack == returning.stack,
{
    assert(entered.call_stack.drop_last() =~= caller.call_stack);
}

/// `If(t, f)` goes to `t` on `true` and to `f` on `false`, popping the
/// boolean; on any other value it fails with a type mismatch and changes
/// nothing; on an empty stack it fails with an underflow.
pub proof fn lemma_if_branches(
    program: Seq<Seq<OpCode>>,
    constants: Seq<ValueView>,
    builtins: nat,
    pre: VmStateView,
    if_true: usize,
    if_false: usize,
    post: VmStateView,
    r: Result<bool, VmError>,
)
    requires
        fetch(program, pre.function, pre.pc) == Ok::<OpCode, VmError>(
            OpCode::If(if_true, if_false),
        ),
        step_post(program, constants, builtins, pre, post, r),
    ensures
        pre.stack.len() == 0 ==> r == Err::<bool, VmError>(VmError::StackUnderflow) && post == pre,
        pre.stack.len() > 0 && pre.stack.last() == ValueView::Boolean(true) ==> r == Ok::<
            bool,
            VmError,
        >(false) && post == pre.with_stack(pre.stack.drop_last()).at(if_true),
        pre.stack.len() > 0 && pre.stack.last() == ValueView::Boolean(false) ==> r == Ok::<
            bool,
            VmError,
        >(false) && post == pre.with_stack(pre.stack.drop_last()).at(if_false),
        pre.stack.len() > 0 && !(pre.stack.last() is Boolean) ==> r == Err::<bool, VmError>(
            VmError::TypeMismatch,
        ) && post == pre,
{
}

/// An instruction that makes a closure from `captured` values for a
/// function with `declared` parameters of its own leaves a closure that
/// holds exactly the captured values and takes `captured + declared`
/// arguments in all.
pub proof fn lemma_make_closure(
    program: Seq<Seq<OpCode>>,
    constants: Seq<ValueView>,
    builtins: nat,
    pre: VmStateView,
    function: usize,
    declared: usize,
    captured: usize,
    post: VmStateView,
    r: Result<bool, VmError>,
)
    requires
        fetch(program, pre.function, pre.pc) == Ok::<OpCode, VmError>(
            OpCode::MakeClosure(function, declared, captured),
        ),
        step_post(program, constants, builtins, pre, post, r),
        r is Ok,
    ensures
        captured <= pre.stack.len(),
        post.stack.len() == pre.stack.len() - captured + 1,
        post.stack.last() matches ValueView::Closure(c) && c.current_args.len() == captured
            && c.total_args == captured + declared && c.well_formed() && c.function
            == ClosureFunc::Normal(function, declared) && c.current_args == pre.stack.skip(
            pre.stack.len() - captured,
        ),
{
}

/// Applying a closure to one more argument lengthens it by that argument
/// while it stays short of its arity, and runs its function as soon as the
/// argument makes it saturated: a program function is entered at its first
/// instruction with all the arguments on the stack, the oldest deepest, and
/// the caller's next instruction on the call stack. (A program counter
/// below the largest `usize` is what every function held in memory gives.)
pub proof fn lemma_apply_one(
    program: Seq<Seq<OpCode>>,
    constants: Seq<ValueView>,
    builtins: nat,
    pre: VmStateView,
    post: VmStateView,
    r: Result<bool, VmError>,
)
    requires
        pre.pc < usize::MAX,
        fetch(program, pre.function, pre.pc) == Ok::<OpCode, VmError>(OpCode::Apply(1)),
        step_post(program, constants, builtins, pre, post, r),
        pre.stack.len() >= 2,
        pre.stack.last() matches ValueView::Closure(c) && c.well_formed() && !c.saturated(),
    ensures
        ({
            let c = pre.stack.last()->Closure_0;
            let arg = pre.stack[pre.stack.len() - 2];
            let base = pre.stack.take(pre.stack.len() - 2);
            &&& c.current_args.len() + 1 < c.total_args ==> r == Ok::<bool, VmError>(false)
                && post.stack == base.push(ValueView::Closure(c.supply(arg))) && c.supply(
                arg,
            ).current_args.len() == c.current_args.len() + 1 && post.pc == pre.pc + 1
            &&& c.current_args.len() + 1 == c.total_args ==> (c.function matches ClosureFunc::Normal(
                function,
                _,
            ) ==> r == Ok::<bool, VmError>(false) && post.stack == base + c.current_args.push(arg)
                && post.function == function && post.pc == 0 && post.call_stack
                == pre.call_stack.push((pre.function, (pre.pc + 1) as usize)))
        }),
{
    let c = pre.stack.last()->Closure_0;
    let depth = pre.stack.len() as int;
    let arg = pre.stack[depth - 2];
    let args = pre.stack.subrange(depth - 2, depth - 1);
    assert(args =~= seq![arg]);
    assert(args.subrange(1, 1) =~= Seq::<ValueView>::empty());
    assert(c.supply(arg).supply_all(Seq::<ValueView>::empty()) == c.supply(arg));
    assert(c.supply_all(args) == c.supply(arg));
    assert(pre.stack.take(depth - 2) + c.current_args + args =~= pre.stack.take(depth - 2)
        + c.current_args.push(arg));
}

/// The sizes that the references of an instruction are held against.
pub struct Limits {
    /// How many constants there are.
    pub constants: nat,
    /// How many builtins there are.
    pub builtins: nat,
    /// How many functions there are.
    pub functions: nat,
    /// The largest address that a jump may name.
    pub code: nat,
}

/// Whether an instruction names only what is there: a constant, a builtin
/// or a function with an index below the limit, an address up to the limit.
pub open spec fn refers_within(op: OpCode, limits: Limits) -> bool {
    match op {
        OpCode::Constant(i) => i < limits.constants,
        OpCode::CallBuiltin(i) => i < limits.builtins,
        OpCode::CallFunction(i) => i < limits.functions,
        OpCode::MakeClosure(function, _, _) => function < limits.functions,
        OpCode::If(t, f) => t <= limits.code && f <= limits.code,
        OpCode::Jump(target) => target <= limits.code,
        _ => true,
    }
}

/// Whether every instruction of the code names only what is there.
pub open spec fn code_within(code: Seq<OpCode>, limits: Limits) -> bool {
    forall|i: int| 0 <= i < code.len() ==> refers_within(#[trigger] code[i], limits)
}

/// The same limits with another largest address.
pub open spec fn with_code_limit(limits: Limits, code: nat) -> Limits {
    Limits {
        constants: limits.constants,
        builtins: limits.builtins,
        functions: limits.functions,
        code,
    }
}

/// Whether the code is a finished function: it ends with a `Return` or an
/// `Exit`, and every instruction names only what is there, a jump only an
/// address inside the function.
pub open spec fn closed(code: Seq<OpCode>, limits: Limits) -> bool {
    &&& code.len() > 0
    &&& (code.last() == OpCode::Return || code.last() == OpCode::Exit)
    &&& code_within(code, with_code_limit(limits, (code.len() - 1) as nat))
}

/// No limit of `a` is above that of `b`.
pub open spec fn no_larger(a: Limits, b: Limits) -> bool {
    a.constants <= b.constants && a.builtins <= b.builtins && a.functions <= b.functions && a.code
        <= b.code
}

/// Code that stays within limits stays within larger ones.
pub proof fn lemma_within_grows(code: Seq<OpCode>, a: Limits, b: Limits)
    requires
        code_within(code, a),
        no_larger(a, b),
    ensures
        code_within(code, b),
{
    assert forall|i: int| 0 <= i < code.len() implies refers_within(#[trigger] code[i], b) by {
        assert(refers_within(code[i], a));
    }
}

/// A finished function stays one when constants or functions are added.
pub proof fn lemma_closed_grows(code: Seq<OpCode>, a: Limits, b: Limits)
    requires
        closed(code, a),
        a.constants <= b.constants,
        a.builtins <= b.builtins,
        a.functions <= b.functions,
    ensures
        closed(code, b),
{
    lemma_within_grows(
        code,
        with_code_limit(a, (code.len() - 1) as nat),
        with_code_limit(b, (code.len() - 1) as nat),
    );
}

/// Whether every function of a program is a finished function that names
/// only constants, builtins and functions that are there.
pub open spec fn program_closed(program: Seq<Seq<OpCode>>, constants: nat, builtins: nat) -> bool {
    forall|f: int|
        0 <= f < program.len() ==> closed(
            #[trigger] program[f],
            Limits { constants, builtins, functions: program.len(), code: 0 },
        )
}


/// Whether a state lies in the program: the next instruction is there, and
/// so is the instruction at every return address.
pub open spec fn state_in_program(program: Seq<Seq<OpCode>>, s: VmStateView) -> bool {
    &&& s.function < program.len()
    &&& s.pc < program[s.function as int].len()
    &&& forall|k: int|
        0 <= k < s.call_stack.len() ==> (#[trigger] s.call_stack[k]).0 < program.len()
            && s.call_stack[k].1 < program[s.call_stack[k].0 as int].len()
}

/// A finished program keeps the machine inside it. From a state that lies
/// in the program the next instruction can always be fetched, it never
/// names a constant or a builtin that is missing, and a step that goes on
/// ends in a state that lies in the program again. Where a saturated closure
/// is run, its function is taken to be one of the program: closures that the
/// program makes itself are.
pub proof fn lemma_step_stays_in_program(
    program: Seq<Seq<OpCode>>,
    constants: Seq<ValueView>,
    builtins: nat,
    pre: VmStateView,
    post: VmStateView,
    r: Result<bool, VmError>,
)
    requires
        program_closed(program, constants.len(), builtins),
        state_in_program(program, pre),
        step_post(program, constants, builtins, pre, post, r),
        pre.stack.len() > 0 ==> (pre.stack.last() matches ValueView::Closure(c) ==> (
        c.function matches ClosureFunc::Normal(function, _) ==> function < program.len())),
    ensures
        fetch(program, pre.function, pre.pc) is Ok,
        r != Err::<bool, VmError>(VmError::InvalidFunction),
        r != Err::<bool, VmError>(VmError::InvalidProgramCounter),
        r != Err::<bool, VmError>(VmError::InvalidConstant),
        fetch(program, pre.function, pre.pc)->Ok_0 is CallBuiltin ==> r != Err::<bool, VmError>(
            VmError::InvalidBuiltin,
        ),
        r == Ok::<bool, VmError>(false) ==> state_in_program(program, post),
{
    let code = program[pre.function as int];
    let instr = code[pre.pc as int];
    let limits = Limits { constants: constants.len(), builtins, functions: program.len(), code: 0 };
    assert(closed(code, limits));
    assert(refers_within(instr, with_code_limit(limits, (code.len() - 1) as nat)));
    if r == Ok::<bool, VmError>(false) {
        if instr != OpCode::Return && instr != OpCode::Exit {
            assert(pre.pc + 1 < code.len());
        }
        assert forall|k: int| 0 <= k < post.call_stack.len() implies (
        #[trigger] post.call_stack[k]).0 < program.len() && post.call_stack[k].1
            < program[post.call_stack[k].0 as int].len() by {
            if k < pre.call_stack.len() {
                assert(pre.call_stack[k].0 < program.len());
            }
        }
        if post.function != pre.function || post.pc == 0 {
            if post.function < program.len() {
                assert(closed(program[post.function as int], limits));
            }
        }
        if instr == OpCode::Return {
            let frame = pre.call_stack.last();
            assert(frame == pre.call_stack[pre.call_stack.len() - 1]);
        }
    }
}

} // verus!
