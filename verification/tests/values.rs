use mylanguage::values::{
    add_rc_strings, add_rc_vecs, add_values, and_values, apply_binary, concat_values, div_values,
    eq_values, ge_values, gt_values, le_values, lt_values, modulo_values, mult_values, ne_values,
    or_values, sub_values, xor_values, BinaryOp, Closure, ClosureFunc, FloatUnit, Value, ValueError,
};
use std::rc::Rc;

struct HostFloats;

impl FloatUnit for HostFloats {
    fn arith(&self, op: BinaryOp, a: u64, b: u64) -> u64 {
        let (x, y) = (f64::from_bits(a), f64::from_bits(b));
        let r = match op {
            BinaryOp::Add => x + y,
            BinaryOp::Sub => x - y,
            BinaryOp::Mult => x * y,
            _ => x / y,
        };
        r.to_bits()
    }

    fn compare(&self, op: BinaryOp, a: u64, b: u64) -> bool {
        let (x, y) = (f64::from_bits(a), f64::from_bits(b));
        match op {
            BinaryOp::Lt => x < y,
            BinaryOp::Gt => x > y,
            BinaryOp::Le => x <= y,
            BinaryOp::Ge => x >= y,
            BinaryOp::Eq => x == y,
            _ => x != y,
        }
    }

    fn decimal(&self, negative: bool, whole: i64, fraction: &Vec<u32>) -> u64 {
        let mut place: f64 = 1.0;
        let mut acc: f64 = 0.0;
        for d in fraction {
            place /= 10.0;
            acc += place * (*d as f64);
        }
        let sign: f64 = if negative { -1.0 } else { 1.0 };
        (sign * whole as f64 + acc).to_bits()
    }
}

fn text(s: &str) -> Value {
    Value::Str(Rc::new(s.to_string()))
}

fn float(x: f64) -> Value {
    Value::Float(x.to_bits())
}

#[test]
fn add_and_mult_of_numbers() {
    assert_eq!(add_values(&HostFloats, Value::Number(2), Value::Number(3)), Ok(Value::Number(5)));
    assert_eq!(mult_values(&HostFloats, Value::Number(6), Value::Number(7)), Ok(Value::Number(42)));
}

#[test]
fn number_arithmetic_wraps_around() {
    assert_eq!(
        add_values(&HostFloats, Value::Number(u64::MAX), Value::Number(1)),
        Ok(Value::Number(0))
    );
    assert_eq!(
        add_values(&HostFloats, Value::Number(u64::MAX), Value::Number(u64::MAX)),
        Ok(Value::Number(u64::MAX - 1))
    );
    assert_eq!(
        mult_values(&HostFloats, Value::Number(1 << 63), Value::Number(2)),
        Ok(Value::Number(0))
    );
    assert_eq!(
        mult_values(&HostFloats, Value::Number(u64::MAX), Value::Number(u64::MAX)),
        Ok(Value::Number(1))
    );
    assert_eq!(
        sub_values(&HostFloats, Value::Number(0), Value::Number(1)),
        Ok(Value::Number(u64::MAX))
    );
}

#[test]
fn sub_undoes_add() {
    for (a, b) in [(0u64, 0u64), (5, 7), (u64::MAX, 9), (1 << 63, 1 << 63)] {
        let sum = add_values(&HostFloats, Value::Number(a), Value::Number(b)).unwrap();
        assert_eq!(sub_values(&HostFloats, sum, Value::Number(b)), Ok(Value::Number(a)));
    }
}

#[test]
fn division_and_remainder() {
    assert_eq!(div_values(&HostFloats, Value::Number(17), Value::Number(5)), Ok(Value::Number(3)));
    assert_eq!(
        modulo_values(&HostFloats, Value::Number(17), Value::Number(5)),
        Ok(Value::Number(2))
    );
    assert_eq!(
        div_values(&HostFloats, Value::Number(1), Value::Number(0)),
        Err(ValueError::DivisionByZero)
    );
    assert_eq!(
        modulo_values(&HostFloats, Value::Number(1), Value::Number(0)),
        Err(ValueError::DivisionByZero)
    );
}

#[test]
fn bitwise_operations() {
    assert_eq!(
        or_values(&HostFloats, Value::Number(0b1100), Value::Number(0b1010)),
        Ok(Value::Number(0b1110))
    );
    assert_eq!(
        and_values(&HostFloats, Value::Number(0b1100), Value::Number(0b1010)),
        Ok(Value::Number(0b1000))
    );
    assert_eq!(
        xor_values(&HostFloats, Value::Number(0b1100), Value::Number(0b1010)),
        Ok(Value::Number(0b0110))
    );
    assert_eq!(
        or_values(&HostFloats, float(1.0), float(2.0)),
        Err(ValueError::TypeMismatch)
    );
    assert_eq!(
        modulo_values(&HostFloats, float(1.0), float(2.0)),
        Err(ValueError::TypeMismatch)
    );
}

#[test]
fn comparisons_of_numbers() {
    let n = Value::Number;
    assert_eq!(lt_values(&HostFloats, n(1), n(2)), Ok(Value::Boolean(true)));
    assert_eq!(lt_values(&HostFloats, n(2), n(1)), Ok(Value::Boolean(false)));
    assert_eq!(gt_values(&HostFloats, n(2), n(1)), Ok(Value::Boolean(true)));
    assert_eq!(le_values(&HostFloats, n(2), n(2)), Ok(Value::Boolean(true)));
    assert_eq!(ge_values(&HostFloats, n(1), n(2)), Ok(Value::Boolean(false)));
    assert_eq!(eq_values(&HostFloats, n(3), n(3)), Ok(Value::Boolean(true)));
    assert_eq!(ne_values(&HostFloats, n(3), n(3)), Ok(Value::Boolean(false)));
}

#[test]
fn float_operations_go_to_the_float_unit() {
    assert_eq!(add_values(&HostFloats, float(1.5), float(2.25)), Ok(float(3.75)));
    assert_eq!(sub_values(&HostFloats, float(1.5), float(2.25)), Ok(float(-0.75)));
    assert_eq!(mult_values(&HostFloats, float(1.5), float(2.0)), Ok(float(3.0)));
    assert_eq!(div_values(&HostFloats, float(1.0), float(4.0)), Ok(float(0.25)));
    assert_eq!(lt_values(&HostFloats, float(1.0), float(4.0)), Ok(Value::Boolean(true)));
    assert_eq!(eq_values(&HostFloats, float(0.0), float(-0.0)), Ok(Value::Boolean(true)));
    assert_eq!(ne_values(&HostFloats, float(1.0), float(1.0)), Ok(Value::Boolean(false)));
}

#[test]
fn mismatched_operands_never_coerce() {
    assert_eq!(
        add_values(&HostFloats, Value::Number(1), text("x")),
        Err(ValueError::TypeMismatch)
    );
    assert_eq!(
        add_values(&HostFloats, Value::Number(1), float(1.0)),
        Err(ValueError::TypeMismatch)
    );
    assert_eq!(
        add_values(&HostFloats, float(1.0), Value::Number(1)),
        Err(ValueError::TypeMismatch)
    );
    assert_eq!(
        lt_values(&HostFloats, text("a"), text("b")),
        Err(ValueError::TypeMismatch)
    );
    assert_eq!(
        eq_values(&HostFloats, Value::Boolean(true), Value::Boolean(true)),
        Err(ValueError::TypeMismatch)
    );
    assert_eq!(
        concat_values(&HostFloats, Value::Number(1), Value::Number(2)),
        Err(ValueError::TypeMismatch)
    );
    assert_eq!(
        concat_values(&HostFloats, text("a"), Value::Array(Rc::new(vec![]))),
        Err(ValueError::TypeMismatch)
    );
    assert_eq!(
        div_values(&HostFloats, text("a"), Value::Number(0)),
        Err(ValueError::TypeMismatch)
    );
}

#[test]
fn every_operation_refuses_mixed_variants() {
    let ops = [
        BinaryOp::Add,
        BinaryOp::Sub,
        BinaryOp::Mult,
        BinaryOp::Div,
        BinaryOp::Mod,
        BinaryOp::Or,
        BinaryOp::And,
        BinaryOp::Xor,
        BinaryOp::Lt,
        BinaryOp::Gt,
        BinaryOp::Le,
        BinaryOp::Ge,
        BinaryOp::Eq,
        BinaryOp::NE,
        BinaryOp::Concat,
    ];
    for op in ops {
        assert_eq!(
            apply_binary(&HostFloats, op, Value::Number(1), text("x")),
            Err(ValueError::TypeMismatch)
        );
        assert_eq!(
            apply_binary(&HostFloats, op, Value::Boolean(true), Value::Boolean(false)),
            Err(ValueError::TypeMismatch)
        );
    }
}

#[test]
fn concat_of_strings() {
    assert_eq!(concat_values(&HostFloats, text("ab"), text("cd")), Ok(text("abcd")));
    assert_eq!(concat_values(&HostFloats, text(""), text("")), Ok(text("")));
}

#[test]
fn concat_of_arrays() {
    let a = Value::Array(Rc::new(vec![Value::Number(1), text("x")]));
    let b = Value::Array(Rc::new(vec![Value::Boolean(true)]));
    assert_eq!(
        concat_values(&HostFloats, a, b),
        Ok(Value::Array(Rc::new(vec![
            Value::Number(1),
            text("x"),
            Value::Boolean(true)
        ])))
    );
}

#[test]
fn concat_leaves_a_shared_string_alone() {
    let original = text("ab");
    let copy = original.clone();
    let joined = concat_values(&HostFloats, copy, text("cd")).unwrap();
    assert_eq!(joined, text("abcd"));
    assert_eq!(original, text("ab"));
}

#[test]
fn concat_leaves_a_shared_array_alone() {
    let original = Value::Array(Rc::new(vec![Value::Number(1)]));
    let copy = original.clone();
    let joined = concat_values(&HostFloats, copy, original.clone()).unwrap();
    assert_eq!(joined, Value::Array(Rc::new(vec![Value::Number(1), Value::Number(1)])));
    assert_eq!(original, Value::Array(Rc::new(vec![Value::Number(1)])));
}

#[test]
fn add_rc_strings_appends() {
    let shared = Rc::new("ab".to_string());
    let r = add_rc_strings(shared.clone(), Rc::new("cd".to_string()));
    assert_eq!(*r, "abcd");
    assert_eq!(*shared, "ab");
    let alone = add_rc_strings(Rc::new("x".to_string()), Rc::new("y".to_string()));
    assert_eq!(*alone, "xy");
}

#[test]
fn add_rc_vecs_appends() {
    let shared = Rc::new(vec![1u8, 2]);
    let r = add_rc_vecs(shared.clone(), Rc::new(vec![3u8]));
    assert_eq!(*r, vec![1, 2, 3]);
    assert_eq!(*shared, vec![1, 2]);
}

#[test]
fn expect_bool_narrows() {
    assert_eq!(Value::Boolean(true).expect_bool(), Ok(true));
    assert_eq!(Value::Boolean(false).expect_bool(), Ok(false));
    assert_eq!(Value::Number(1).expect_bool(), Err(ValueError::TypeMismatch));
    assert_eq!(text("true").expect_bool(), Err(ValueError::TypeMismatch));
}

#[test]
fn same_compares_by_content() {
    assert!(text("a").same(&text("a")));
    assert!(!text("a").same(&text("b")));
    assert!(!Value::Number(1).same(&float(1.0)));
    let a = Value::Array(Rc::new(vec![Value::Number(1), text("x")]));
    let b = Value::Array(Rc::new(vec![Value::Number(1), text("x")]));
    let c = Value::Array(Rc::new(vec![Value::Number(1)]));
    assert!(a.same(&b));
    assert!(!a.same(&c));
    let f = Closure::new(ClosureFunc::Normal(1, 2), 2, vec![Rc::new(Value::Number(1))]).unwrap();
    let g = Closure::new(ClosureFunc::Normal(1, 2), 2, vec![Rc::new(Value::Number(1))]).unwrap();
    let h = Closure::new(ClosureFunc::Normal(1, 2), 2, vec![Rc::new(Value::Number(2))]).unwrap();
    assert!(Value::Closure(Rc::new(f)).same(&Value::Closure(Rc::new(g))));
    let f = Closure::new(ClosureFunc::Normal(1, 2), 2, vec![Rc::new(Value::Number(1))]).unwrap();
    assert!(!Value::Closure(Rc::new(f)).same(&Value::Closure(Rc::new(h))));
}

#[test]
fn closure_holds_no_more_than_it_takes() {
    assert!(Closure::new(ClosureFunc::Builtin(0), 0, vec![]).is_some());
    assert!(Closure::new(ClosureFunc::Builtin(0), 0, vec![Rc::new(Value::Number(1))]).is_none());
    let c = Closure::new(ClosureFunc::Normal(3, 1), 2, vec![Rc::new(Value::Number(1))]).unwrap();
    assert_eq!(c.total_args(), 2);
    assert_eq!(c.current_args().len(), 1);
    assert_eq!(c.function(), ClosureFunc::Normal(3, 1));
    assert!(!c.is_saturated());
}

#[test]
fn supplying_arguments_grows_until_saturated() {
    let c0 = Closure::new(ClosureFunc::Normal(0, 3), 3, vec![]).unwrap();
    let c1 = c0.supply(Value::Number(1)).unwrap();
    let c2 = c1.supply(Value::Number(2)).unwrap();
    let c3 = c2.supply(Value::Number(3)).unwrap();
    assert_eq!(c0.current_args().len(), 0);
    assert_eq!(c1.current_args().len(), 1);
    assert_eq!(c2.current_args().len(), 2);
    assert_eq!(c3.current_args().len(), 3);
    assert!(!c2.is_saturated());
    assert!(c3.is_saturated());
    assert!(c3.supply(Value::Number(4)).is_none());
    assert_eq!(
        c3.arguments(),
        vec![Value::Number(1), Value::Number(2), Value::Number(3)]
    );
    assert_eq!(c3.total_args(), 3);
    assert_eq!(c3.function(), ClosureFunc::Normal(0, 3));
}

#[test]
fn extend_supplies_several_arguments() {
    let c0 = Closure::new(ClosureFunc::Normal(0, 3), 3, vec![Rc::new(text("a"))]).unwrap();
    let c2 = c0.extend(&vec![Value::Number(1), Value::Number(2)]).unwrap();
    assert_eq!(c2.arguments(), vec![text("a"), Value::Number(1), Value::Number(2)]);
    assert!(c2.is_saturated());
    assert!(c0
        .extend(&vec![Value::Number(1), Value::Number(2), Value::Number(3)])
        .is_none());
    assert_eq!(c0.arguments(), vec![text("a")]);
}
