use mylanguage::bytecodevm::{execute, Builtin, BuiltinError, OpCode, VmError};
use mylanguage::values::{BinaryOp, FloatUnit, Value};
use std::rc::Rc;

/// A builtin that pops one value and keeps it.
struct Recorder<'a> {
    output: &'a mut Vec<Value>,
}

impl<'a> Builtin for Recorder<'a> {
    fn call(&mut self, stack: &mut Vec<Value>) -> Result<(), BuiltinError> {
        match stack.pop() {
            Some(v) => {
                self.output.push(v);
                Ok(())
            }
            None => Err(BuiltinError::StackUnderflow),
        }
    }
}

/// The host's floating-point unit.
struct Ieee;

impl FloatUnit for Ieee {
    fn arith(&self, op: BinaryOp, a: u64, b: u64) -> u64 {
        let (x, y) = (f64::from_bits(a), f64::from_bits(b));
        let r = match op {
            BinaryOp::Add => x + y,
            BinaryOp::Sub => x - y,
            BinaryOp::Mult => x * y,
            _ => x / y,
        };
        r.to_bits()
    }

    fn compare(&self, op: BinaryOp, a: u64, b: u64) -> bool {
        let (x, y) = (f64::from_bits(a), f64::from_bits(b));
        match op {
            BinaryOp::Lt => x < y,
            BinaryOp::Gt => x > y,
            BinaryOp::Le => x <= y,
            BinaryOp::Ge => x >= y,
            BinaryOp::Eq => x == y,
            _ => x != y,
        }
    }

    fn decimal(&self, negative: bool, whole: i64, fraction: &Vec<u32>) -> u64 {
        let mut place: f64 = 1.0;
        let mut acc: f64 = 0.0;
        for d in fraction {
            place /= 10.0;
            acc += place * (*d as f64);
        }
        let sign: f64 = if negative { -1.0 } else { 1.0 };
        (sign * whole as f64 + acc).to_bits()
    }
}

#[test]
fn print_test() {
    let mut output: Vec<Value> = Vec::new();
    {
        let print_builtin = Recorder { output: &mut output };

        let mut builtins = [print_builtin];

        let end = execute(
            &[vec![
                OpCode::Constant(0),
                OpCode::CallBuiltin(0),
                OpCode::Exit,
            ]],
            &[Value::Str(Rc::new("hello world".to_string()))],
            &mut builtins,
            &Ieee,
            0,
            1000,
        );
        assert!(end.is_ok());
    }

    assert_eq!(output, vec![Value::Str(Rc::new("hello world".to_string()))]);
}

#[test]
fn call_test() {
    let mut output: Vec<Value> = Vec::new();
    {
        let print_builtin = Recorder { output: &mut output };

        let mut builtins = [print_builtin];

        let end = execute(
            &[
                vec![
                    OpCode::CallFunction(1),
                    OpCode::CallBuiltin(0),
                    OpCode::Exit,
                ],
                vec![OpCode::Constant(0), OpCode::Return],
            ],
            &[Value::Str(Rc::new("hello world".to_string()))],
            &mut builtins,
            &Ieee,
            0,
            1000,
        );
        let end = end.unwrap();
        assert_eq!(end.function(), 0);
        assert_eq!(end.pc(), 2);
        assert!(end.call_stack().is_empty());
    }

    assert_eq!(output, vec![Value::Str(Rc::new("hello world".to_string()))]);
}

#[test]
fn run_out_of_steps() {
    let mut builtins: [Recorder; 0] = [];
    let r = execute(&[vec![OpCode::Jump(0)]], &[], &mut builtins, &Ieee, 0, 50);
    assert_eq!(r.err(), Some(VmError::OutOfSteps));
}

fn text(s: &str) -> Value {
    Value::Str(Rc::new(s.to_string()))
}

/// Runs one function without builtins and hands back the value stack.
fn run(code: Vec<OpCode>, constants: Vec<Value>) -> Result<Vec<Value>, VmError> {
    let mut builtins: [Recorder; 0] = [];
    let end = execute(&[code], &constants, &mut builtins, &Ieee, 0, 10_000)?;
    Ok(end.stack().clone())
}

#[test]
fn operands_are_taken_left_then_right() {
    let constants = vec![Value::Number(10), Value::Number(3)];
    let program = |op: OpCode| vec![OpCode::Constant(0), OpCode::Constant(1), op, OpCode::Exit];
    assert_eq!(run(program(OpCode::Sub), constants.clone()), Ok(vec![Value::Number(7)]));
    assert_eq!(run(program(OpCode::Div), constants.clone()), Ok(vec![Value::Number(3)]));
    assert_eq!(run(program(OpCode::Mod), constants.clone()), Ok(vec![Value::Number(1)]));
    assert_eq!(run(program(OpCode::Lt), constants.clone()), Ok(vec![Value::Boolean(false)]));
    assert_eq!(run(program(OpCode::Gt), constants.clone()), Ok(vec![Value::Boolean(true)]));
    assert_eq!(run(program(OpCode::Le), constants.clone()), Ok(vec![Value::Boolean(false)]));
    assert_eq!(run(program(OpCode::Ge), constants.clone()), Ok(vec![Value::Boolean(true)]));
    assert_eq!(run(program(OpCode::Add), constants.clone()), Ok(vec![Value::Number(13)]));
    assert_eq!(run(program(OpCode::Mult), constants.clone()), Ok(vec![Value::Number(30)]));
    assert_eq!(run(program(OpCode::Eq), constants.clone()), Ok(vec![Value::Boolean(false)]));
    assert_eq!(run(program(OpCode::NE), constants.clone()), Ok(vec![Value::Boolean(true)]));
    assert_eq!(run(program(OpCode::Or), constants.clone()), Ok(vec![Value::Number(11)]));
    assert_eq!(run(program(OpCode::And), constants.clone()), Ok(vec![Value::Number(2)]));
    assert_eq!(run(program(OpCode::Xor), constants), Ok(vec![Value::Number(9)]));
}

#[test]
fn concat_keeps_the_order_of_its_operands() {
    let r = run(
        vec![OpCode::Constant(0), OpCode::Constant(1), OpCode::Concat, OpCode::Exit],
        vec![text("ab"), text("cd")],
    );
    assert_eq!(r, Ok(vec![text("abcd")]));
}

#[test]
fn float_subtraction_on_the_machine() {
    let r = run(
        vec![OpCode::Constant(0), OpCode::Constant(1), OpCode::Sub, OpCode::Exit],
        vec![Value::Float(5.5f64.to_bits()), Value::Float(2.0f64.to_bits())],
    );
    assert_eq!(r, Ok(vec![Value::Float(3.5f64.to_bits())]));
}

#[test]
fn type_mismatch_is_fatal() {
    let r = run(
        vec![OpCode::Constant(0), OpCode::Constant(1), OpCode::Add, OpCode::Exit],
        vec![Value::Number(1), text("x")],
    );
    assert_eq!(r, Err(VmError::TypeMismatch));
}

#[test]
fn division_by_zero_is_fatal() {
    let r = run(
        vec![OpCode::Constant(0), OpCode::Constant(1), OpCode::Div, OpCode::Exit],
        vec![Value::Number(1), Value::Number(0)],
    );
    assert_eq!(r, Err(VmError::DivisionByZero));
}

#[test]
fn if_jumps_on_a_boolean() {
    let code = vec![
        OpCode::Constant(0),
        OpCode::If(2, 4),
        OpCode::Constant(1),
        OpCode::Exit,
        OpCode::Constant(2),
        OpCode::Exit,
    ];
    let on = |test: Value| run(code.clone(), vec![test, text("yes"), text("no")]);
    assert_eq!(on(Value::Boolean(true)), Ok(vec![text("yes")]));
    assert_eq!(on(Value::Boolean(false)), Ok(vec![text("no")]));
    assert_eq!(on(Value::Number(0)), Err(VmError::TypeMismatch));
    assert_eq!(on(Value::Number(1)), Err(VmError::TypeMismatch));
    assert_eq!(on(text("")), Err(VmError::TypeMismatch));
}

#[test]
fn underflows_are_fatal() {
    assert_eq!(run(vec![OpCode::Add], vec![]), Err(VmError::StackUnderflow));
    assert_eq!(
        run(vec![OpCode::Constant(0), OpCode::Add], vec![Value::Number(1)]),
        Err(VmError::StackUnderflow)
    );
    assert_eq!(run(vec![OpCode::If(0, 0)], vec![]), Err(VmError::StackUnderflow));
    assert_eq!(run(vec![OpCode::Return], vec![]), Err(VmError::CallStackUnderflow));
    assert_eq!(run(vec![OpCode::Local(0)], vec![]), Err(VmError::StackUnderflow));
    assert_eq!(run(vec![OpCode::Slide(0)], vec![]), Err(VmError::StackUnderflow));
    assert_eq!(run(vec![OpCode::Apply(0)], vec![]), Err(VmError::StackUnderflow));
    assert_eq!(run(vec![OpCode::MakeClosure(0, 0, 1)], vec![]), Err(VmError::StackUnderflow));
}

#[test]
fn bad_references_are_fatal() {
    assert_eq!(run(vec![], vec![]), Err(VmError::InvalidProgramCounter));
    assert_eq!(run(vec![OpCode::Jump(7)], vec![]), Err(VmError::InvalidProgramCounter));
    assert_eq!(run(vec![OpCode::CallFunction(3)], vec![]), Err(VmError::InvalidFunction));
    assert_eq!(run(vec![OpCode::Constant(0)], vec![]), Err(VmError::InvalidConstant));
    assert_eq!(run(vec![OpCode::CallBuiltin(0)], vec![]), Err(VmError::InvalidBuiltin));
    let mut builtins: [Recorder; 0] = [];
    let r = execute(&[], &[], &mut builtins, &Ieee, 0, 10);
    assert_eq!(r.err(), Some(VmError::InvalidFunction));
}

#[test]
fn a_builtin_that_fails_is_fatal() {
    let mut output: Vec<Value> = Vec::new();
    let mut builtins = [Recorder { output: &mut output }];
    let r = execute(&[vec![OpCode::CallBuiltin(0), OpCode::Exit]], &[], &mut builtins, &Ieee, 0, 10);
    assert_eq!(r.err(), Some(VmError::Builtin(BuiltinError::StackUnderflow)));
}

#[test]
fn local_and_slide() {
    let r = run(
        vec![
            OpCode::Constant(0),
            OpCode::Constant(1),
            OpCode::Constant(2),
            OpCode::Local(2),
            OpCode::Slide(2),
            OpCode::Exit,
        ],
        vec![Value::Number(1), Value::Number(2), Value::Number(3)],
    );
    assert_eq!(r, Ok(vec![Value::Number(1), Value::Number(1)]));
}

#[test]
fn a_closure_is_made_from_the_captured_values() {
    let r = run(
        vec![
            OpCode::Constant(0),
            OpCode::Constant(1),
            OpCode::MakeClosure(5, 2, 1),
            OpCode::Exit,
        ],
        vec![Value::Number(1), Value::Number(2)],
    )
    .unwrap();
    assert_eq!(r.len(), 2);
    assert_eq!(r[0], Value::Number(1));
    match &r[1] {
        Value::Closure(c) => {
            assert_eq!(c.total_args(), 3);
            assert_eq!(c.current_args().len(), 1);
            assert_eq!(c.arguments(), vec![Value::Number(2)]);
            assert_eq!(c.function(), mylanguage::values::ClosureFunc::Normal(5, 2));
        }
        other => panic!("no closure: {:?}", other),
    }
}

#[test]
fn arguments_supplied_one_at_a_time_saturate_the_closure() {
    // Function 1 subtracts its third argument from its first and drops the
    // second.
    let callee = vec![
        OpCode::Local(2),
        OpCode::Local(1),
        OpCode::Sub,
        OpCode::Slide(3),
        OpCode::Return,
    ];
    let constants = vec![Value::Number(100), Value::Number(20), Value::Number(3)];
    let mut builtins: [Recorder; 0] = [];
    let lengths = |steps: usize| {
        let main = vec![
            OpCode::Constant(0),
            OpCode::MakeClosure(1, 2, 1),
            OpCode::Constant(1),
            OpCode::Local(1),
            OpCode::Apply(1),
            OpCode::Slide(1),
            OpCode::Constant(2),
            OpCode::Local(1),
            OpCode::Apply(1),
            OpCode::Slide(1),
            OpCode::Exit,
        ];
        let mut builtins: [Recorder; 0] = [];
        let mut state = mylanguage::bytecodevm::VmState::new(0);
        let r = mylanguage::bytecodevm::execute_helper(
            &[main, callee.clone()],
            &constants,
            &mut builtins,
            &Ieee,
            &mut state,
            steps,
        );
        (r, state.stack().clone())
    };
    let (_, after_make) = lengths(2);
    match &after_make[0] {
        Value::Closure(c) => {
            assert_eq!(c.current_args().len(), 1);
            assert_eq!(c.total_args(), 3);
        }
        other => panic!("no closure: {:?}", other),
    }
    let (_, after_first) = lengths(6);
    match &after_first[0] {
        Value::Closure(c) => {
            assert_eq!(c.current_args().len(), 2);
            assert_eq!(c.total_args(), 3);
        }
        other => panic!("no closure: {:?}", other),
    }
    let (r, end) = lengths(1000);
    assert_eq!(r, Ok(()));
    assert_eq!(end, vec![Value::Number(97)]);
    let _ = &mut builtins;
}

#[test]
fn too_many_arguments_are_refused() {
    let r = run(
        vec![
            OpCode::Constant(0),
            OpCode::Constant(0),
            OpCode::MakeClosure(0, 1, 0),
            OpCode::Apply(2),
            OpCode::Exit,
        ],
        vec![Value::Number(1)],
    );
    assert_eq!(r, Err(VmError::ArityMismatch));
    let r = run(
        vec![OpCode::Constant(0), OpCode::Constant(0), OpCode::Apply(1), OpCode::Exit],
        vec![Value::Number(1)],
    );
    assert_eq!(r, Err(VmError::TypeMismatch));
}

#[test]
fn a_saturated_builtin_closure_runs_the_builtin() {
    let mut output: Vec<Value> = Vec::new();
    {
        let mut builtins = [Recorder { output: &mut output }];
        let held = mylanguage::values::Closure::new(
            mylanguage::values::ClosureFunc::Builtin(0),
            1,
            vec![],
        )
        .unwrap();
        let end = execute(
            &[vec![OpCode::Constant(0), OpCode::Constant(1), OpCode::Apply(1), OpCode::Exit]],
            &[text("hi"), Value::Closure(Rc::new(held))],
            &mut builtins,
            &Ieee,
            0,
            100,
        )
        .unwrap();
        assert!(end.stack().is_empty());
        assert_eq!(end.pc(), 3);
    }
    assert_eq!(output, vec![text("hi")]);
}

/// A builtin that gives up in the way it is told to.
struct Refuse {
    how: BuiltinError,
}

impl Builtin for Refuse {
    fn call(&mut self, _stack: &mut Vec<Value>) -> Result<(), BuiltinError> {
        Err(self.how)
    }
}

#[test]
fn a_builtin_s_reason_is_kept() {
    for how in [BuiltinError::StackUnderflow, BuiltinError::TypeMismatch, BuiltinError::Failed] {
        let mut builtins = [Refuse { how }];
        let mut state = mylanguage::bytecodevm::VmState::new(0);
        let r = mylanguage::bytecodevm::execute_instr(
            &[vec![OpCode::CallBuiltin(0)]],
            &[],
            &mut builtins,
            &Ieee,
            &mut state,
        );
        assert_eq!(r, Err(VmError::Builtin(how)));
        assert_eq!(state.pc(), 0);
        assert_eq!(state.function(), 0);
    }
}

#[test]
fn one_step_at_a_time() {
    let program = [vec![OpCode::Constant(0), OpCode::CallFunction(1)], vec![OpCode::Return]];
    let constants = [Value::Number(5)];
    let mut builtins: [Recorder; 0] = [];
    let mut state = mylanguage::bytecodevm::VmState::new(0);
    assert_eq!(state.get_instr(&program), Ok(OpCode::Constant(0)));
    let step = |state: &mut mylanguage::bytecodevm::VmState, builtins: &mut [Recorder]| {
        mylanguage::bytecodevm::execute_instr(&program, &constants, builtins, &Ieee, state)
    };
    assert_eq!(step(&mut state, &mut builtins), Ok(false));
    assert_eq!((state.function(), state.pc()), (0, 1));
    assert_eq!(state.stack(), &vec![Value::Number(5)]);
    assert_eq!(step(&mut state, &mut builtins), Ok(false));
    assert_eq!((state.function(), state.pc()), (1, 0));
    assert_eq!(state.call_stack(), &vec![(0, 2)]);
    assert_eq!(step(&mut state, &mut builtins), Ok(false));
    assert_eq!((state.function(), state.pc()), (0, 2));
    assert!(state.call_stack().is_empty());
    assert_eq!(state.get_instr(&program), Err(VmError::InvalidProgramCounter));
    assert_eq!(step(&mut state, &mut builtins), Err(VmError::InvalidProgramCounter));
    assert_eq!(state.pop_value(), Ok(Value::Number(5)));
    assert_eq!(state.pop_value(), Err(VmError::StackUnderflow));
    state.push_value(Value::Boolean(true));
    assert_eq!(state.stack(), &vec![Value::Boolean(true)]);
}

#[test]
fn records_are_packed_and_taken_apart() {
    let constants = vec![Value::Number(10), text("x")];
    let packed = run(
        vec![OpCode::Constant(0), OpCode::Constant(1), OpCode::Pack(3, 2), OpCode::Exit],
        constants.clone(),
    );
    assert_eq!(
        packed,
        Ok(vec![Value::Array(Rc::new(vec![Value::Number(3), Value::Number(10), text("x")]))])
    );
    assert_eq!(
        run(vec![OpCode::Pack(0, 0), OpCode::Exit], vec![]),
        Ok(vec![Value::Array(Rc::new(vec![Value::Number(0)]))])
    );
    let with = |last: OpCode| {
        run(
            vec![OpCode::Constant(0), OpCode::Constant(1), OpCode::Pack(3, 2), last, OpCode::Exit],
            constants.clone(),
        )
    };
    assert_eq!(with(OpCode::Field(0)), Ok(vec![Value::Number(3)]));
    assert_eq!(with(OpCode::Field(1)), Ok(vec![Value::Number(10)]));
    assert_eq!(with(OpCode::Field(2)), Ok(vec![text("x")]));
    assert_eq!(with(OpCode::Field(3)), Err(VmError::InvalidField));
    assert_eq!(with(OpCode::HasTag(3)), Ok(vec![Value::Boolean(true)]));
    assert_eq!(with(OpCode::HasTag(2)), Ok(vec![Value::Boolean(false)]));
    assert_eq!(run(vec![OpCode::Pack(0, 1)], vec![]), Err(VmError::StackUnderflow));
    assert_eq!(run(vec![OpCode::Field(0)], vec![]), Err(VmError::StackUnderflow));
    assert_eq!(run(vec![OpCode::HasTag(0)], vec![]), Err(VmError::StackUnderflow));
    assert_eq!(
        run(vec![OpCode::Constant(0), OpCode::Field(0)], constants.clone()),
        Err(VmError::TypeMismatch)
    );
    assert_eq!(
        run(vec![OpCode::Constant(0), OpCode::HasTag(0)], constants),
        Err(VmError::TypeMismatch)
    );
    let untagged = vec![Value::Array(Rc::new(vec![text("t")])), Value::Array(Rc::new(vec![]))];
    assert_eq!(
        run(vec![OpCode::Constant(0), OpCode::HasTag(0)], untagged.clone()),
        Err(VmError::TypeMismatch)
    );
    assert_eq!(
        run(vec![OpCode::Constant(1), OpCode::HasTag(0)], untagged),
        Err(VmError::TypeMismatch)
    );
}
