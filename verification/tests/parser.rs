use mylanguage::builtins::{generate_builtin_map, BuiltinValue};
use mylanguage::bytecodevm::{execute, Builtin, BuiltinError};
use mylanguage::compiler::compile;
use mylanguage::grammar::{classify, Glyph};
use mylanguage::parser::{
    chars_of, glyphs_of, parse_file, parser, DeclerationVal, Expr, ParseError, Statement,
};
use mylanguage::values::{BinaryOp, FloatUnit, Value};
use std::cell::RefCell;
use std::rc::Rc;

struct Host;

impl FloatUnit for Host {
    fn arith(&self, op: BinaryOp, a: u64, b: u64) -> u64 {
        let (x, y) = (f64::from_bits(a), f64::from_bits(b));
        let r = match op {
            BinaryOp::Add => x + y,
            BinaryOp::Sub => x - y,
            BinaryOp::Mult => x * y,
            _ => x / y,
        };
        r.to_bits()
    }

    fn compare(&self, op: BinaryOp, a: u64, b: u64) -> bool {
        let (x, y) = (f64::from_bits(a), f64::from_bits(b));
        match op {
            BinaryOp::Lt => x < y,
            BinaryOp::Gt => x > y,
            BinaryOp::Le => x <= y,
            BinaryOp::Ge => x >= y,
            BinaryOp::Eq => x == y,
            _ => x != y,
        }
    }

    fn decimal(&self, negative: bool, whole: i64, fraction: &Vec<u32>) -> u64 {
        let mut place: f64 = 1.0;
        let mut acc: f64 = 0.0;
        for d in fraction {
            place /= 10.0;
            acc += place * (*d as f64);
        }
        let sign: f64 = if negative { -1.0 } else { 1.0 };
        (sign * whole as f64 + acc).to_bits()
    }
}

/// A builtin of one argument that keeps a copy of it and hands it back.
struct Keep {
    kept: Rc<RefCell<Vec<Value>>>,
}

impl Builtin for Keep {
    fn call(&mut self, stack: &mut Vec<Value>) -> Result<(), BuiltinError> {
        match stack.last() {
            Some(v) => {
                self.kept.borrow_mut().push(v.clone());
                Ok(())
            }
            None => Err(BuiltinError::StackUnderflow),
        }
    }
}

/// The body of the only declaration of `text`, which is a value.
fn body_of(text: &str) -> Vec<Statement> {
    let file = parser(&Host, text).unwrap();
    assert_eq!(file.len(), 1);
    match &file[0].value {
        DeclerationVal::Value(_, Expr::GroupExpr(statements)) => {
            statements.iter().map(|s| (**s).clone()).collect()
        }
        other => panic!("no value: {:?}", other),
    }
}

/// The expression of the only statement of the value `let v = { .. ; }`.
fn expr_of(source: &str) -> String {
    let statements = body_of(&format!("let v = {{ {}; }}", source));
    assert_eq!(statements.len(), 1);
    match &statements[0] {
        Statement::Return(e) => show(e),
        Statement::Assign(name, e) => format!("{} := {}", name, show(e)),
    }
}

/// An expression in a fixed notation.
fn show(e: &Expr) -> String {
    match e {
        Expr::Function(callee, args) => {
            let shown: Vec<String> = args.iter().map(|a| show(a)).collect();
            format!("({} {})", show(callee), shown.join(" "))
        }
        Expr::GroupExpr(_) => "{..}".to_string(),
        Expr::Lambda(params, body) => format!("(\\{} -> {})", params.join(" "), show(body)),
        Expr::Case(_) => "case".to_string(),
        Expr::Number(n) => format!("{}", n),
        Expr::Float(bits) => format!("{:?}f", f64::from_bits(*bits)),
        Expr::StrLiteral(text) => format!("{:?}", text),
        Expr::Char(c) => format!("{:?}", c),
        Expr::Array(items) => {
            let shown: Vec<String> = items.iter().map(|a| show(a)).collect();
            format!("[{}]", shown.join(","))
        }
        Expr::Variable(name) => name.clone(),
    }
}

#[test]
fn chars_of_a_text() {
    assert_eq!(chars_of(""), Vec::<char>::new());
    assert_eq!(chars_of("aé→"), vec!['a', 'é', '→']);
}

#[test]
fn an_empty_file() {
    assert!(parser(&Host, "").unwrap().is_empty());
    assert!(parser(&Host, "  \n\t ").unwrap().is_empty());
}

#[test]
fn the_three_declarations() {
    let file = parser(
        &Host,
        "use std.io.file;\npub fun add1(x, y) { x + 1; }\nlet main = { add1 41 0; }\n",
    )
    .unwrap();
    assert_eq!(file.len(), 3);
    assert!(!file[0].public);
    assert!(file[1].public);
    assert!(!file[2].public);
    match &file[0].value {
        DeclerationVal::Import(path) => assert_eq!(path, &vec!["std", "io", "file"]),
        other => panic!("no import: {:?}", other),
    }
    match &file[1].value {
        DeclerationVal::Function(name, params, Expr::GroupExpr(statements)) => {
            assert_eq!(name, "add1");
            assert_eq!(params, &vec!["x", "y"]);
            assert_eq!(statements.len(), 1);
        }
        other => panic!("no function: {:?}", other),
    }
    match &file[2].value {
        DeclerationVal::Value(name, Expr::GroupExpr(_)) => assert_eq!(name, "main"),
        other => panic!("no value: {:?}", other),
    }
}

#[test]
fn terms() {
    assert_eq!(expr_of("x1"), "x1");
    assert_eq!(expr_of("42"), "42");
    assert_eq!(expr_of("-42"), "-42");
    assert_eq!(expr_of("9223372036854775807"), "9223372036854775807");
    assert_eq!(expr_of("\"a b;\""), "\"a b;\"");
    assert_eq!(expr_of("\"\""), "\"\"");
    assert_eq!(expr_of("'x'"), "'x'");
    assert_eq!(expr_of("[]"), "[]");
    assert_eq!(expr_of("[1, x , \"s\"]"), "[1,x,\"s\"]");
    assert_eq!(expr_of("[[1], []]"), "[[1],[]]");
    assert_eq!(expr_of("( ( x ) )"), "x");
}

#[test]
fn floats_go_to_the_float_unit() {
    assert_eq!(expr_of("1.5"), "1.5f");
    assert_eq!(expr_of("0.25"), "0.25f");
    assert_eq!(expr_of("10.0"), "10.0f");
    // The sign applies to the digits before the point only.
    assert_eq!(expr_of("-12.5"), "-11.5f");
    // A point without digits after it is no part of the number.
    assert!(parser(&Host, "let v = { 1.; }").is_err());
}

#[test]
fn applications_and_operators() {
    assert_eq!(expr_of("f x y"), "(f x y)");
    assert_eq!(expr_of("f (g x) [1]"), "(f (g x) [1])");
    assert_eq!(expr_of("a + b"), "(+ a b)");
    assert_eq!(expr_of("a - b - c"), "(- a (- b c))");
    assert_eq!(expr_of("f x <= g y"), "(<= (f x) (g y))");
    assert_eq!(expr_of("a ++ b"), "(++ a b)");
    assert_eq!(expr_of("a +\n b"), "(+ a b)");
    // A minus sign before digits is part of the number.
    assert_eq!(expr_of("a -1"), "(a -1)");
    assert_eq!(expr_of("a - 1"), "(- a 1)");
}

#[test]
fn lambdas() {
    assert_eq!(expr_of("\\x -> x"), "(\\x -> x)");
    assert_eq!(expr_of("\\x y -> x + y"), "(\\x y -> (+ x y))");
    assert_eq!(expr_of("\\x -> \\y -> f x y"), "(\\x -> (\\y -> (f x y)))");
    assert_eq!(expr_of("(\\x -> x) 1"), "((\\x -> x) 1)");
}

#[test]
fn statements() {
    let statements = body_of("let v = { let a = 1; let b = a + 1; b; }");
    assert_eq!(statements.len(), 3);
    assert!(matches!(&statements[0], Statement::Assign(name, Expr::Number(1)) if name == "a"));
    assert!(matches!(&statements[1], Statement::Assign(name, Expr::Function(_, _)) if name == "b"));
    assert!(matches!(&statements[2], Statement::Return(Expr::Variable(name)) if name == "b"));
    // What begins with `let` is a binding or nothing.
    assert!(parser(&Host, "let v = { letter; }").is_err());
    assert_eq!(expr_of("let x=1"), "x := 1");
}

#[test]
fn faults_give_the_place_where_reading_stopped() {
    assert_eq!(parser(&Host, "x").err(), Some(ParseError { position: 0 }));
    let e = parser(&Host, "  let a = { 1; } let b = { ; }").err().unwrap();
    assert_eq!(e.position, 17);
    assert!(parser(&Host, "let a = { }").is_err());
    assert!(parser(&Host, "let a = { 1 }").is_err());
    assert!(parser(&Host, "fun f() { 1; }").is_err());
    assert!(parser(&Host, "fun (x) { 1; }").is_err());
    assert!(parser(&Host, "use a.;").is_err());
    assert!(parser(&Host, "let a = { 9223372036854775808; }").is_err());
    assert!(parser(&Host, "let a = { \"open; }").is_err());
    assert!(parser(&Host, "let a = { ''; }").is_err());
    assert!(parser(&Host, "let a = { (1; }").is_err());
    assert!(parser(&Host, "let a = { [1,]; }").is_err());
}

#[test]
fn a_program_runs_from_its_text() {
    let source = "
        fun sub(a, b) { a - b; }
        fun pick(n) { if (n < 1) \"small\" \"large\"; }
        let main = {
            let f = \\x -> sub x 1;
            dbg (sub 10 3);
            dbg (f 10);
            dbg (pick 0 ++ pick 5);
            dbg (1.5 + 0.25);
        }
    ";
    let kept = Rc::new(RefCell::new(Vec::new()));
    let maps = generate_builtin_map(vec![(
        "dbg".to_string(),
        BuiltinValue::Builtin(Keep { kept: kept.clone() }),
    )])
    .unwrap();
    let file = parser(&Host, source).unwrap();
    let (program, constants, main) = compile(&maps, file).unwrap();
    let (mut builtins, _) = maps.into_tables();
    execute(&program, &constants, &mut builtins, &Host, main, 100_000).unwrap();
    assert_eq!(
        *kept.borrow(),
        vec![
            Value::Number(7),
            Value::Number(9),
            Value::Str(Rc::new("smalllarge".to_string())),
            Value::Float(1.75f64.to_bits()),
        ]
    );
}

#[test]
fn characters_are_classified_by_unicode() {
    assert_eq!(classify('a'), Glyph { c: 'a', blank: false, letter: true, word: true });
    assert_eq!(classify('7'), Glyph { c: '7', blank: false, letter: false, word: true });
    assert_eq!(classify(' '), Glyph { c: ' ', blank: true, letter: false, word: false });
    assert_eq!(classify('\u{2003}'), Glyph { c: '\u{2003}', blank: true, letter: false, word: false });
    assert_eq!(classify('é'), Glyph { c: 'é', blank: false, letter: true, word: true });
    assert_eq!(classify('+'), Glyph { c: '+', blank: false, letter: false, word: false });
    assert_eq!(glyphs_of("a "), vec![classify('a'), classify(' ')]);
    assert!(glyphs_of("").is_empty());
}

#[test]
fn names_and_blanks_follow_unicode() {
    assert_eq!(expr_of("été\u{2003}+\u{a0}x٣"), "(+ été x٣)");
    // A name begins with a letter.
    assert!(parser(&Host, "let 1a = { 1; }").is_err());
}

#[test]
fn the_grammar_goes_by_the_glyphs() {
    // With `#` taken for a letter and `_` for a blank, `let_#={#;}` is a file.
    let glyph = |c: char| Glyph {
        c,
        blank: c == '_',
        letter: c == '#' || c.is_alphabetic(),
        word: c == '#' || c.is_alphanumeric(),
    };
    let text: Vec<Glyph> = "let_#={#;}".chars().map(glyph).collect();
    let file = parse_file(&Host, &text).unwrap();
    assert_eq!(file.len(), 1);
    match &file[0].value {
        DeclerationVal::Value(name, _) => assert_eq!(name, "#"),
        other => panic!("no value: {:?}", other),
    }
    let plain: Vec<Glyph> = "let_#={#;}".chars().map(classify).collect();
    assert_eq!(parse_file(&Host, &plain).err(), Some(ParseError { position: 0 }));
}
