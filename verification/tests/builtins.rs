use mylanguage::builtins::{generate_builtin_map, BuiltinId, BuiltinValue};
use mylanguage::values::Value;

#[test]
fn tables_follow_the_registrations() {
    let maps = generate_builtin_map(vec![
        ("dbg".to_string(), BuiltinValue::Builtin('d')),
        ("zero".to_string(), BuiltinValue::Constant(Value::Number(0))),
        ("print".to_string(), BuiltinValue::Builtin('p')),
        ("yes".to_string(), BuiltinValue::Constant(Value::Boolean(true))),
    ])
    .unwrap();
    assert_eq!(maps.lookup(&"dbg".to_string()), Some(BuiltinId::Builtin(0)));
    assert_eq!(maps.lookup(&"zero".to_string()), Some(BuiltinId::Constant(0)));
    assert_eq!(maps.lookup(&"print".to_string()), Some(BuiltinId::Builtin(1)));
    assert_eq!(maps.lookup(&"yes".to_string()), Some(BuiltinId::Constant(1)));
    assert_eq!(maps.lookup(&"no".to_string()), None);
    assert_eq!(maps.constant_table(), &vec![Value::Number(0), Value::Boolean(true)]);
    assert_eq!(maps.constant_name_table(), &vec!["zero".to_string(), "yes".to_string()]);
    assert_eq!(maps.builtin_name_table(), &vec!["dbg".to_string(), "print".to_string()]);
    assert_eq!(maps.builtin_count(), 2);
    let (builtins, constants) = maps.into_tables();
    assert_eq!(builtins, vec!['d', 'p']);
    assert_eq!(constants, vec![Value::Number(0), Value::Boolean(true)]);
}

#[test]
fn empty_registry() {
    let maps = generate_builtin_map::<u8>(vec![]).unwrap();
    assert_eq!(maps.lookup(&"dbg".to_string()), None);
    assert_eq!(maps.builtin_count(), 0);
    assert!(maps.constant_table().is_empty());
}

#[test]
fn a_name_registered_twice_is_refused() {
    let r = generate_builtin_map(vec![
        ("a".to_string(), BuiltinValue::Builtin(1u8)),
        ("b".to_string(), BuiltinValue::Constant(Value::Number(0))),
        ("a".to_string(), BuiltinValue::Constant(Value::Number(1))),
        ("b".to_string(), BuiltinValue::Builtin(2u8)),
    ]);
    match r {
        Err(collision) => assert_eq!(collision.name, "a"),
        Ok(_) => panic!("a collision was accepted"),
    }
}
