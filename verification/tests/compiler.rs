use mylanguage::builtins::{generate_builtin_map, BuiltinMaps, BuiltinValue};
use mylanguage::bytecodevm::{execute, Builtin, BuiltinError, OpCode, VmError};
use mylanguage::compiler::{compile, CompileError};
use mylanguage::parser::{CaseExprs, Decleration, DeclerationVal, EnumVariant, Expr, Statement};
use mylanguage::values::{BinaryOp, FloatUnit, Value};
use std::cell::RefCell;
use std::rc::Rc;

/// A builtin of one argument that keeps a copy of it and hands it back.
struct Keep {
    kept: Rc<RefCell<Vec<Value>>>,
}

impl Builtin for Keep {
    fn call(&mut self, stack: &mut Vec<Value>) -> Result<(), BuiltinError> {
        match stack.last() {
            Some(v) => {
                self.kept.borrow_mut().push(v.clone());
                Ok(())
            }
            None => Err(BuiltinError::StackUnderflow),
        }
    }
}

struct Floats;

impl FloatUnit for Floats {
    fn arith(&self, op: BinaryOp, a: u64, b: u64) -> u64 {
        let (x, y) = (f64::from_bits(a), f64::from_bits(b));
        let r = match op {
            BinaryOp::Add => x + y,
            BinaryOp::Sub => x - y,
            BinaryOp::Mult => x * y,
            _ => x / y,
        };
        r.to_bits()
    }

    fn compare(&self, op: BinaryOp, a: u64, b: u64) -> bool {
        let (x, y) = (f64::from_bits(a), f64::from_bits(b));
        match op {
            BinaryOp::Lt => x < y,
            BinaryOp::Gt => x > y,
            BinaryOp::Le => x <= y,
            BinaryOp::Ge => x >= y,
            BinaryOp::Eq => x == y,
            _ => x != y,
        }
    }

    fn decimal(&self, negative: bool, whole: i64, fraction: &Vec<u32>) -> u64 {
        let mut place: f64 = 1.0;
        let mut acc: f64 = 0.0;
        for d in fraction {
            place /= 10.0;
            acc += place * (*d as f64);
        }
        let sign: f64 = if negative { -1.0 } else { 1.0 };
        (sign * whole as f64 + acc).to_bits()
    }
}

fn var(name: &str) -> Expr {
    Expr::Variable(name.to_string())
}

fn num(n: i64) -> Expr {
    Expr::Number(n)
}

fn call(callee: Expr, args: Vec<Expr>) -> Expr {
    Expr::Function(Rc::new(callee), args.into_iter().map(Rc::new).collect())
}

fn op(token: &str, left: Expr, right: Expr) -> Expr {
    call(var(token), vec![left, right])
}

fn block(statements: Vec<Statement>) -> Expr {
    Expr::GroupExpr(statements.into_iter().map(Rc::new).collect())
}

fn bind(name: &str, value: Expr) -> Statement {
    Statement::Assign(name.to_string(), value)
}

fn lambda(params: &[&str], body: Expr) -> Expr {
    Expr::Lambda(params.iter().map(|p| p.to_string()).collect(), Rc::new(body))
}

fn function(name: &str, params: &[&str], body: Expr) -> Decleration {
    Decleration {
        public: false,
        value: DeclerationVal::Function(
            name.to_string(),
            params.iter().map(|p| p.to_string()).collect(),
            body,
        ),
    }
}

fn value(name: &str, body: Expr) -> Decleration {
    Decleration { public: true, value: DeclerationVal::Value(name.to_string(), body) }
}

/// A registry with the builtin `dbg`, which keeps what it is given, and the
/// constant `seven`.
fn registry(kept: &Rc<RefCell<Vec<Value>>>) -> BuiltinMaps<Keep> {
    generate_builtin_map(vec![
        ("dbg".to_string(), BuiltinValue::Builtin(Keep { kept: kept.clone() })),
        ("seven".to_string(), BuiltinValue::Constant(Value::Number(7))),
    ])
    .unwrap()
}

/// Compiles and runs a program, and hands back what `dbg` was given.
fn run(decls: Vec<Decleration>) -> Result<Vec<Value>, VmError> {
    let kept = Rc::new(RefCell::new(Vec::new()));
    let maps = registry(&kept);
    let (program, constants, main) = compile(&maps, decls).unwrap();
    let (mut builtins, _) = maps.into_tables();
    execute(&program, &constants, &mut builtins, &Floats, main, 100_000)?;
    let seen = kept.borrow().clone();
    Ok(seen)
}

fn compile_only(decls: Vec<Decleration>) -> Result<(Vec<Vec<OpCode>>, Vec<Value>, usize), CompileError> {
    let kept = Rc::new(RefCell::new(Vec::new()));
    compile(&registry(&kept), decls)
}

#[test]
fn a_call_compiles_to_its_arguments_and_a_call() {
    let decls = vec![
        function("add1", &["x"], block(vec![Statement::Return(op("+", var("x"), num(1)))])),
        value("main", block(vec![Statement::Return(call(var("dbg"), vec![call(var("add1"), vec![num(41)])]))])),
    ];
    let (program, constants, main) = compile_only(decls).unwrap();
    assert_eq!(main, 1);
    assert_eq!(constants, vec![Value::Number(7), Value::Number(1), Value::Number(41)]);
    assert_eq!(
        program,
        vec![
            vec![OpCode::Local(0), OpCode::Constant(1), OpCode::Add, OpCode::Slide(1), OpCode::Return],
            vec![OpCode::Constant(2), OpCode::CallFunction(0), OpCode::CallBuiltin(0), OpCode::Exit],
        ]
    );
}

#[test]
fn a_compiled_call_runs() {
    let decls = vec![
        function("add1", &["x"], block(vec![Statement::Return(op("+", var("x"), num(1)))])),
        value("main", block(vec![Statement::Return(call(var("dbg"), vec![call(var("add1"), vec![num(41)])]))])),
    ];
    assert_eq!(run(decls), Ok(vec![Value::Number(42)]));
}

#[test]
fn source_order_of_operands_is_kept() {
    let decls = vec![
        function("sub", &["a", "b"], block(vec![Statement::Return(op("-", var("a"), var("b")))])),
        value(
            "main",
            block(vec![
                Statement::Return(call(var("dbg"), vec![call(var("sub"), vec![num(10), num(3)])])),
                Statement::Return(call(var("dbg"), vec![op("/", num(20), num(6))])),
                Statement::Return(call(var("dbg"), vec![op("<", num(1), num(2))])),
                Statement::Return(call(var("dbg"), vec![op("++", Expr::StrLiteral("ab".to_string()), Expr::StrLiteral("cd".to_string()))])),
            ]),
        ),
    ];
    assert_eq!(
        run(decls),
        Ok(vec![
            Value::Number(7),
            Value::Number(3),
            Value::Boolean(true),
            Value::Str(Rc::new("abcd".to_string()))
        ])
    );
}

#[test]
fn literals_share_a_slot_of_the_pool() {
    let decls = vec![value(
        "main",
        block(vec![
            bind("a", num(5)),
            bind("b", num(5)),
            bind("c", Expr::StrLiteral("x".to_string())),
            bind("d", Expr::StrLiteral("x".to_string())),
            bind("e", num(7)),
            Statement::Return(var("seven")),
        ]),
    )];
    let (program, constants, _) = compile_only(decls).unwrap();
    assert_eq!(
        constants,
        vec![Value::Number(7), Value::Number(5), Value::Str(Rc::new("x".to_string()))]
    );
    assert_eq!(
        program[0],
        vec![
            OpCode::Constant(1),
            OpCode::Constant(1),
            OpCode::Constant(2),
            OpCode::Constant(2),
            OpCode::Constant(0),
            OpCode::Constant(0),
            OpCode::Slide(5),
            OpCode::Exit
        ]
    );
}

#[test]
fn literal_values() {
    let decls = vec![value(
        "main",
        block(vec![
            Statement::Return(call(var("dbg"), vec![num(-1)])),
            Statement::Return(call(var("dbg"), vec![Expr::Char('a')])),
            Statement::Return(call(var("dbg"), vec![Expr::Float(1.5f64.to_bits())])),
            Statement::Return(call(
                var("dbg"),
                vec![Expr::Array(vec![Rc::new(num(1)), Rc::new(Expr::Array(vec![]))])],
            )),
        ]),
    )];
    assert_eq!(
        run(decls),
        Ok(vec![
            Value::Number(u64::MAX),
            Value::Number(97),
            Value::Float(1.5f64.to_bits()),
            Value::Array(Rc::new(vec![Value::Number(1), Value::Array(Rc::new(vec![]))])),
        ])
    );
}

#[test]
fn a_local_shadows_a_global() {
    let decls = vec![
        value("x", block(vec![Statement::Return(num(1))])),
        value(
            "main",
            block(vec![
                Statement::Return(call(var("dbg"), vec![var("x")])),
                bind("x", num(2)),
                Statement::Return(call(var("dbg"), vec![var("x")])),
                bind("x", num(3)),
                Statement::Return(call(var("dbg"), vec![var("x")])),
            ]),
        ),
    ];
    assert_eq!(run(decls), Ok(vec![Value::Number(1), Value::Number(2), Value::Number(3)]));
}

#[test]
fn a_parameter_shadows_a_global_and_a_builtin() {
    let decls = vec![
        value("x", block(vec![Statement::Return(num(1))])),
        function("f", &["x", "seven"], block(vec![Statement::Return(op("-", var("x"), var("seven")))])),
        value("main", block(vec![Statement::Return(call(var("dbg"), vec![call(var("f"), vec![num(50), num(8)])]))])),
    ];
    assert_eq!(run(decls), Ok(vec![Value::Number(42)]));
}

#[test]
fn a_block_drops_its_bindings() {
    let decls = vec![value(
        "main",
        block(vec![
            bind("a", num(1)),
            bind("b", block(vec![bind("c", num(10)), bind("d", num(20)), Statement::Return(op("+", var("c"), var("d")))])),
            Statement::Return(call(var("dbg"), vec![op("+", var("a"), var("b"))])),
        ]),
    )];
    assert_eq!(run(decls), Ok(vec![Value::Number(31)]));
}

#[test]
fn a_lambda_captures_one_local() {
    let decls = vec![value(
        "main",
        block(vec![
            bind("unused", num(0)),
            bind("x", num(10)),
            bind("f", lambda(&["y"], op("-", var("x"), var("y")))),
            Statement::Return(call(var("dbg"), vec![var("f")])),
            Statement::Return(call(var("dbg"), vec![call(var("f"), vec![num(3)])])),
        ]),
    )];
    let (program, _, main) = compile_only(decls.clone()).unwrap();
    assert_eq!(main, 0);
    assert_eq!(program.len(), 2);
    assert_eq!(
        program[1],
        vec![OpCode::Local(1), OpCode::Local(1), OpCode::Sub, OpCode::Slide(2), OpCode::Return]
    );
    assert_eq!(&program[0][2..4], &[OpCode::Local(0), OpCode::MakeClosure(1, 1, 1)]);
    let seen = run(decls).unwrap();
    assert_eq!(seen.len(), 2);
    match &seen[0] {
        Value::Closure(c) => {
            assert_eq!(c.current_args().len(), 1);
            assert_eq!(c.total_args(), 2);
            assert_eq!(c.arguments(), vec![Value::Number(10)]);
        }
        other => panic!("no closure: {:?}", other),
    }
    assert_eq!(seen[1], Value::Number(7));
}

#[test]
fn a_lambda_without_captures_is_a_closure_too() {
    let decls = vec![value(
        "main",
        block(vec![
            bind("f", lambda(&[], num(5))),
            Statement::Return(call(var("dbg"), vec![var("f")])),
        ]),
    )];
    let seen = run(decls).unwrap();
    match &seen[0] {
        Value::Closure(c) => {
            assert_eq!(c.current_args().len(), 0);
            assert_eq!(c.total_args(), 0);
        }
        other => panic!("no closure: {:?}", other),
    }
}

#[test]
fn a_lambda_does_not_capture_what_it_binds() {
    let decls = vec![value(
        "main",
        block(vec![
            bind("x", num(1)),
            bind("y", num(2)),
            bind("f", lambda(&["x"], block(vec![bind("y", var("x")), Statement::Return(var("y"))]))),
            Statement::Return(call(var("dbg"), vec![call(var("f"), vec![num(9)])])),
        ]),
    )];
    let (program, _, _) = compile_only(decls.clone()).unwrap();
    assert_eq!(program[0][2], OpCode::MakeClosure(1, 1, 0));
    assert_eq!(run(decls), Ok(vec![Value::Number(9)]));
}

#[test]
fn arguments_are_supplied_one_at_a_time() {
    let decls = vec![
        function(
            "sub3",
            &["a", "b", "c"],
            block(vec![Statement::Return(op("-", op("-", var("a"), var("b")), var("c")))]),
        ),
        value(
            "main",
            block(vec![
                bind("f", call(var("sub3"), vec![num(100)])),
                bind("g", call(var("f"), vec![num(20)])),
                Statement::Return(call(var("dbg"), vec![var("f")])),
                Statement::Return(call(var("dbg"), vec![var("g")])),
                Statement::Return(call(var("dbg"), vec![call(var("g"), vec![num(3)])])),
            ]),
        ),
    ];
    let seen = run(decls).unwrap();
    let held = |v: &Value| match v {
        Value::Closure(c) => (c.current_args().len(), c.total_args()),
        other => panic!("no closure: {:?}", other),
    };
    assert_eq!(held(&seen[0]), (1, 3));
    assert_eq!(held(&seen[1]), (2, 3));
    assert_eq!(seen[2], Value::Number(77));
}

#[test]
fn a_conditional_runs_one_arm() {
    let pick = |a: i64, b: i64| {
        vec![value(
            "main",
            block(vec![Statement::Return(call(
                var("dbg"),
                vec![call(var("if"), vec![op("<", num(a), num(b)), num(1), num(2)])],
            ))]),
        )]
    };
    assert_eq!(run(pick(1, 2)), Ok(vec![Value::Number(1)]));
    assert_eq!(run(pick(2, 1)), Ok(vec![Value::Number(2)]));
    let (program, _, _) = compile_only(pick(1, 2)).unwrap();
    assert_eq!(
        program[0],
        vec![
            OpCode::Constant(1),
            OpCode::Constant(2),
            OpCode::Lt,
            OpCode::If(4, 6),
            OpCode::Constant(1),
            OpCode::Jump(7),
            OpCode::Constant(2),
            OpCode::CallBuiltin(0),
            OpCode::Exit
        ]
    );
}

#[test]
fn a_conditional_on_a_number_fails_at_run_time() {
    let decls = vec![value(
        "main",
        block(vec![Statement::Return(call(var("if"), vec![num(1), num(1), num(2)]))]),
    )];
    assert_eq!(run(decls), Err(VmError::TypeMismatch));
}

#[test]
fn recursion_runs() {
    // fun sum(n) { if (n < 1) 0 (n + sum(n - 1)); }
    let body = call(
        var("if"),
        vec![
            op("<", var("n"), num(1)),
            num(0),
            op("+", var("n"), call(var("sum"), vec![op("-", var("n"), num(1))])),
        ],
    );
    let decls = vec![
        function("sum", &["n"], block(vec![Statement::Return(body)])),
        value("main", block(vec![Statement::Return(call(var("dbg"), vec![call(var("sum"), vec![num(10)])]))])),
    ];
    assert_eq!(run(decls), Ok(vec![Value::Number(55)]));
}

#[test]
fn an_unresolved_name_is_reported_before_anything_runs() {
    let decls = vec![
        value("main", block(vec![Statement::Return(call(var("dbg"), vec![num(1)]))])),
        function(
            "late",
            &["x"],
            block(vec![Statement::Return(lambda(&["y"], op("+", var("x"), var("nowhere"))))]),
        ),
    ];
    assert_eq!(
        compile_only(decls).err(),
        Some(CompileError::UnresolvedName("nowhere".to_string()))
    );
}

#[test]
fn a_binding_is_not_in_sight_before_it_is_made() {
    let decls = vec![value(
        "main",
        block(vec![Statement::Return(var("x")), bind("x", num(1))]),
    )];
    assert_eq!(compile_only(decls).err(), Some(CompileError::UnresolvedName("x".to_string())));
}

#[test]
fn a_program_needs_main() {
    assert_eq!(compile_only(vec![]).err(), Some(CompileError::MissingEntryPoint));
    let decls = vec![function("f", &["x"], block(vec![Statement::Return(var("x"))]))];
    assert_eq!(compile_only(decls).err(), Some(CompileError::MissingEntryPoint));
    let decls = vec![function("main", &["x"], block(vec![Statement::Return(var("x"))]))];
    assert_eq!(compile_only(decls).err(), Some(CompileError::ArityMismatch("main".to_string())));
}

#[test]
fn two_declarations_of_one_name_collide() {
    let decls = vec![
        value("main", block(vec![Statement::Return(num(1))])),
        value("a", block(vec![Statement::Return(num(1))])),
        function("a", &["x"], block(vec![Statement::Return(num(1))])),
    ];
    assert_eq!(compile_only(decls).err(), Some(CompileError::NameCollision("a".to_string())));
}

#[test]
fn too_many_arguments_are_a_static_error() {
    let decls = vec![
        function("f", &["x"], block(vec![Statement::Return(var("x"))])),
        value("main", block(vec![Statement::Return(call(var("f"), vec![num(1), num(2)]))])),
    ];
    assert_eq!(compile_only(decls).err(), Some(CompileError::ArityMismatch("f".to_string())));
    let decls = vec![value("main", block(vec![Statement::Return(call(var("+"), vec![num(1)]))]))];
    assert_eq!(compile_only(decls).err(), Some(CompileError::ArityMismatch("+".to_string())));
    let decls = vec![value("main", block(vec![Statement::Return(call(var("if"), vec![num(1)]))]))];
    assert_eq!(compile_only(decls).err(), Some(CompileError::ArityMismatch("if".to_string())));
}

#[test]
fn other_refusals() {
    let decls = vec![value("main", block(vec![]))];
    assert_eq!(compile_only(decls).err(), Some(CompileError::EmptyBlock));
    let decls = vec![value(
        "main",
        block(vec![bind("x", num(1)), Statement::Return(Expr::Array(vec![Rc::new(var("x"))]))]),
    )];
    assert_eq!(compile_only(decls).err(), Some(CompileError::NonConstantArray));
    let decls = vec![value("main", block(vec![Statement::Return(Expr::Case(vec![]))]))];
    assert_eq!(compile_only(decls).err(), Some(CompileError::EmptyCase));
}

#[test]
fn imports_and_types_give_no_function() {
    let decls = vec![
        Decleration { public: false, value: DeclerationVal::Import(vec!["a".to_string(), "b".to_string()]) },
        Decleration {
            public: false,
            value: DeclerationVal::Adt(
                "Opt".to_string(),
                vec![EnumVariant { name: "Some".to_string(), params: vec!["x".to_string()] }],
            ),
        },
        value("main", block(vec![Statement::Return(num(1))])),
    ];
    let (program, _, main) = compile_only(decls).unwrap();
    assert_eq!(main, 0);
    assert_eq!(program, vec![vec![OpCode::Constant(1), OpCode::Exit]]);
}

#[test]
fn a_compiled_program_names_only_what_is_there() {
    let decls = vec![
        function("f", &["x"], block(vec![Statement::Return(lambda(&["y"], call(var("if"), vec![op("<", var("x"), var("y")), var("seven"), call(var("dbg"), vec![var("y")])])))])),
        value("main", block(vec![Statement::Return(call(call(var("f"), vec![num(1)]), vec![num(2)]))])),
    ];
    let (program, constants, main) = compile_only(decls).unwrap();
    assert!(main < program.len());
    for code in &program {
        assert!(matches!(code.last(), Some(OpCode::Return) | Some(OpCode::Exit)));
        for instr in code {
            match *instr {
                OpCode::Constant(i) => assert!(i < constants.len()),
                OpCode::CallBuiltin(i) => assert!(i < 1),
                OpCode::CallFunction(i) => assert!(i < program.len()),
                OpCode::MakeClosure(i, _, _) => assert!(i < program.len()),
                OpCode::If(t, f) => assert!(t < code.len() && f < code.len()),
                OpCode::Jump(t) => assert!(t < code.len()),
                _ => {}
            }
        }
    }
}

fn option_type() -> Decleration {
    Decleration {
        public: false,
        value: DeclerationVal::Adt(
            "Opt".to_string(),
            vec![
                EnumVariant { name: "None".to_string(), params: vec![] },
                EnumVariant { name: "Some".to_string(), params: vec!["x".to_string()] },
                EnumVariant {
                    name: "Pair".to_string(),
                    params: vec!["l".to_string(), "r".to_string()],
                },
            ],
        ),
    }
}

fn split(constructor: &str, fields: &[&str]) -> CaseExprs {
    CaseExprs::CaseSplit(constructor.to_string(), fields.iter().map(|f| f.to_string()).collect())
}

fn bound(name: &str) -> CaseExprs {
    CaseExprs::Variable(name.to_string())
}

fn arm(patterns: Vec<CaseExprs>, body: Expr) -> (String, Vec<CaseExprs>, Rc<Expr>) {
    ("f".to_string(), patterns, Rc::new(body))
}

#[test]
fn constructors_build_tagged_records() {
    let decls = vec![
        option_type(),
        value(
            "main",
            block(vec![
                Statement::Return(call(var("dbg"), vec![var("None")])),
                Statement::Return(call(var("dbg"), vec![call(var("Some"), vec![num(5)])])),
                Statement::Return(call(
                    var("dbg"),
                    vec![call(var("Pair"), vec![num(1), call(var("Some"), vec![num(2)])])],
                )),
            ]),
        ),
    ];
    let record = |items: Vec<Value>| Value::Array(Rc::new(items));
    assert_eq!(
        run(decls),
        Ok(vec![
            record(vec![Value::Number(0)]),
            record(vec![Value::Number(1), Value::Number(5)]),
            record(vec![
                Value::Number(2),
                Value::Number(1),
                record(vec![Value::Number(1), Value::Number(2)])
            ]),
        ])
    );
}

#[test]
fn a_constructor_takes_all_its_fields() {
    let decls = vec![
        option_type(),
        value("main", block(vec![Statement::Return(call(var("Pair"), vec![num(1)]))])),
    ];
    assert_eq!(compile_only(decls).err(), Some(CompileError::ArityMismatch("Pair".to_string())));
    let decls = vec![option_type(), value("main", block(vec![Statement::Return(var("Some"))]))];
    assert_eq!(compile_only(decls).err(), Some(CompileError::ArityMismatch("Some".to_string())));
}

#[test]
fn constructors_share_the_names_of_the_program() {
    let decls = vec![option_type(), value("Some", block(vec![Statement::Return(num(1))]))];
    assert_eq!(compile_only(decls).err(), Some(CompileError::NameCollision("Some".to_string())));
    let decls = vec![value("None", block(vec![Statement::Return(num(1))])), option_type()];
    assert_eq!(compile_only(decls).err(), Some(CompileError::NameCollision("None".to_string())));
    let twice = Decleration {
        public: false,
        value: DeclerationVal::Adt(
            "T".to_string(),
            vec![
                EnumVariant { name: "A".to_string(), params: vec![] },
                EnumVariant { name: "A".to_string(), params: vec![] },
            ],
        ),
    };
    assert_eq!(compile_only(vec![twice]).err(), Some(CompileError::NameCollision("A".to_string())));
}

#[test]
fn a_function_by_cases_takes_the_first_arm_that_fits() {
    // f (Some x) d = x ; f (Pair l r) d = l - r ; f o d = d
    let cases = Expr::Case(vec![
        arm(vec![split("Some", &["x"]), bound("d")], var("x")),
        arm(vec![split("Pair", &["l", "r"]), bound("d")], op("-", var("l"), var("r"))),
        arm(vec![bound("o"), bound("d")], var("d")),
    ]);
    let decls = vec![
        option_type(),
        value(
            "main",
            block(vec![
                bind("f", cases),
                Statement::Return(call(var("dbg"), vec![call(var("f"), vec![call(var("Some"), vec![num(5)]), num(9)])])),
                Statement::Return(call(var("dbg"), vec![call(var("f"), vec![var("None"), num(9)])])),
                Statement::Return(call(
                    var("dbg"),
                    vec![call(var("f"), vec![call(var("Pair"), vec![num(10), num(3)]), num(9)])],
                )),
            ]),
        ),
    ];
    assert_eq!(run(decls), Ok(vec![Value::Number(5), Value::Number(9), Value::Number(7)]));
}

#[test]
fn a_function_by_cases_is_laid_out_arm_by_arm() {
    let cases = Expr::Case(vec![
        arm(vec![split("Some", &["x"])], var("x")),
        arm(vec![bound("o")], num(0)),
    ]);
    let decls = vec![option_type(), value("main", block(vec![Statement::Return(cases)]))];
    let (program, constants, main) = compile_only(decls).unwrap();
    assert_eq!(main, 0);
    assert_eq!(constants, vec![Value::Number(7), Value::Number(0)]);
    assert_eq!(program[0], vec![OpCode::MakeClosure(1, 1, 0), OpCode::Exit]);
    assert_eq!(
        program[1],
        vec![
            OpCode::Local(0),
            OpCode::HasTag(1),
            OpCode::If(3, 8),
            OpCode::Local(0),
            OpCode::Field(1),
            OpCode::Local(0),
            OpCode::Slide(1),
            OpCode::Jump(9),
            OpCode::Constant(1),
            OpCode::Slide(1),
            OpCode::Return,
        ]
    );
}

#[test]
fn a_function_by_cases_captures_locals() {
    let cases = Expr::Case(vec![
        arm(vec![split("Some", &["x"])], op("+", var("x"), var("base"))),
        arm(vec![bound("base")], var("base")),
    ]);
    let decls = vec![
        option_type(),
        value(
            "main",
            block(vec![
                bind("base", num(100)),
                bind("f", cases),
                Statement::Return(call(var("dbg"), vec![var("f")])),
                Statement::Return(call(var("dbg"), vec![call(var("f"), vec![call(var("Some"), vec![num(1)])])])),
                Statement::Return(call(var("dbg"), vec![call(var("f"), vec![var("None")])])),
            ]),
        ),
    ];
    let seen = run(decls).unwrap();
    match &seen[0] {
        Value::Closure(c) => {
            assert_eq!(c.current_args().len(), 1);
            assert_eq!(c.total_args(), 2);
        }
        other => panic!("no closure: {:?}", other),
    }
    assert_eq!(seen[1], Value::Number(101));
    // The last arm is not tested, and its name for the argument hides the
    // captured local.
    assert_eq!(seen[2], Value::Array(Rc::new(vec![Value::Number(0)])));
}

#[test]
fn a_constructor_pattern_wants_a_record() {
    let cases = Expr::Case(vec![
        arm(vec![split("Some", &["x"])], var("x")),
        arm(vec![bound("o")], var("o")),
    ]);
    let decls = vec![
        option_type(),
        value("main", block(vec![Statement::Return(call(cases, vec![num(3)]))])),
    ];
    assert_eq!(run(decls), Err(VmError::TypeMismatch));
}

#[test]
fn faults_of_a_function_by_cases() {
    let main_with = |cases: Expr| {
        vec![option_type(), value("main", block(vec![Statement::Return(cases)]))]
    };
    let uneven = Expr::Case(vec![
        arm(vec![bound("a")], num(1)),
        arm(vec![bound("a"), bound("b")], num(2)),
    ]);
    assert_eq!(
        compile_only(main_with(uneven)).err(),
        Some(CompileError::ArityMismatch("f".to_string()))
    );
    let unknown = Expr::Case(vec![arm(vec![split("Nope", &[])], num(1)), arm(vec![bound("a")], num(2))]);
    assert_eq!(
        compile_only(main_with(unknown)).err(),
        Some(CompileError::UnresolvedName("Nope".to_string()))
    );
    let short = Expr::Case(vec![arm(vec![split("Pair", &["l"])], num(1))]);
    assert_eq!(
        compile_only(main_with(short)).err(),
        Some(CompileError::ArityMismatch("Pair".to_string()))
    );
    let unbound = Expr::Case(vec![arm(vec![split("Some", &["x"])], var("y"))]);
    assert_eq!(
        compile_only(main_with(unbound)).err(),
        Some(CompileError::UnresolvedName("y".to_string()))
    );
}
