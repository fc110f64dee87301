//! Runtime values and the operations the machine performs on them.
//!
//! Text, arrays and closures are shared by reference count and copied only
//! when a shared payload is about to change. Contracts speak of a value's
//! view, which forgets the sharing.

use std::rc::Rc;
use vstd::prelude::*;

verus! {

/// What a closure runs once it has all of its arguments.
#[derive(Clone, Copy, Debug, PartialEq, Eq, Structural)]
pub enum ClosureFunc {
    /// A native operation, by its index in the builtin table.
    Builtin(usize),
    /// A program function, by its index and its declared arity.
    Normal(usize, usize),
}

/// Why an operation on values failed.
#[derive(Clone, Copy, Debug, PartialEq, Eq)]
pub enum ValueError {
    /// The operands are not of a pair of variants that the operation accepts.
    TypeMismatch,
    /// An integer division or remainder with a zero divisor.
    DivisionByZero,
}

/// The two-operand operations of the machine.
#[derive(Clone, Copy, Debug, PartialEq, Eq, Structural)]
pub enum BinaryOp {
    Add,
    Sub,
    Mult,
    Div,
    Mod,
    Or,
    And,
    Xor,
    Lt,
    Gt,
    Le,
    Ge,
    Eq,
    NE,
    Concat,
}

/// Floating-point arithmetic, which the embedder supplies.
///
/// Operands and results are IEEE 754 binary64 bit patterns. Nothing is
/// promised of the results: the machine only carries them.
pub trait FloatUnit {
    /// `op` is one of `Add`, `Sub`, `Mult`, `Div`.
    fn arith(&self, op: BinaryOp, a: u64, b: u64) -> u64
        requires
            op.is_arithmetic(),
    ;

    /// `op` is one of `Lt`, `Gt`, `Le`, `Ge`, `Eq`, `NE`.
    fn compare(&self, op: BinaryOp, a: u64, b: u64) -> bool
        requires
            op.is_comparison(),
    ;

    /// The float that a literal denotes: whether it has a minus sign, the
    /// number before the point, and the digits after the point, each from 0
    /// to 9.
    fn decimal(&self, negative: bool, whole: i64, fraction: &Vec<u32>) -> u64
        requires
            whole >= 0,
            forall|i: int| 0 <= i < fraction@.len() ==> fraction@[i] <= 9,
    ;
}

/// A function together with the arguments it has been given so far.
#[derive(Debug, PartialEq)]
pub struct Closure {
    total_args: u16,
    current_args: Vec<Rc<Value>>,
    function: ClosureFunc,
}

/// A runtime value.
#[derive(Debug, PartialEq)]
pub enum Value {
    Str(Rc<String>),
    Array(Rc<Vec<Value>>),
    Closure(Rc<Closure>),
    Number(u64),
    /// The bit pattern of an IEEE 754 binary64 number.
    Float(u64),
    Boolean(bool),
}

/// The mathematical content of a [`Closure`].
pub struct ClosureView {
    pub total_args: nat,
    pub current_args: Seq<ValueView>,
    pub function: ClosureFunc,
}

/// The mathematical content of a [`Value`]: what it holds, without sharing.
pub enum ValueView {
    Str(Seq<char>),
    Array(Seq<ValueView>),
    Closure(ClosureView),
    Number(u64),
    Float(u64),
    Boolean(bool),
}

/// The content of a closure: how many arguments its function takes, the
/// arguments held so far, and the function.
pub closed spec fn closure_view(c: Closure) -> ClosureView
    decreases c,
{
    ClosureView {
        total_args: c.total_args as nat,
        current_args: Seq::new(
            c.current_args@.len(),
            |i: int|
                if 0 <= i < c.current_args@.len() {
                    value_view(*c.current_args@[i])
                } else {
                    ValueView::Boolean(false)
                },
        ),
        function: c.function,
    }
}

/// The content of a value.
pub open spec fn value_view(v: Value) -> ValueView
    decreases v,
{
    match v {
        Value::Str(s) => ValueView::Str(s@),
        Value::Array(items) => ValueView::Array(
            Seq::new(
                items@.len(),
                |i: int|
                    if 0 <= i < items@.len() {
                        value_view(items@[i])
                    } else {
                        ValueView::Boolean(false)
                    },
            ),
        ),
        Value::Closure(c) => ValueView::Closure(closure_view(*c)),
        Value::Number(n) => ValueView::Number(n),
        Value::Float(bits) => ValueView::Float(bits),
        Value::Boolean(b) => ValueView::Boolean(b),
    }
}

impl View for Value {
    type V = ValueView;

    open spec fn view(&self) -> ValueView {
        value_view(*self)
    }
}

impl View for Closure {
    type V = ClosureView;

    open spec fn view(&self) -> ClosureView {
        closure_view(*self)
    }
}

impl ClosureView {
    /// No more arguments are held than the function takes.
    pub open spec fn well_formed(self) -> bool {
        self.current_args.len() <= self.total_args
    }

    /// Every argument is there: the function can run.
    pub open spec fn saturated(self) -> bool {
        self.current_args.len() == self.total_args
    }

    /// The same closure with `arg` as its next argument.
    pub open spec fn supply(self, arg: ValueView) -> ClosureView {
        ClosureView {
            total_args: self.total_args,
            current_args: self.current_args.push(arg),
            function: self.function,
        }
    }

    /// The same closure with the arguments `args` supplied one after another.
    pub open spec fn supply_all(self, args: Seq<ValueView>) -> ClosureView
        decreases args.len(),
    {
        if args.len() == 0 {
            self
        } else {
            self.supply(args[0]).supply_all(args.subrange(1, args.len() as int))
        }
    }
}

/// The views of shared values, in order.
pub open spec fn shared_views(args: Seq<Rc<Value>>) -> Seq<ValueView> {
    Seq::new(args.len(), |i: int| (*args[i])@)
}

/// The views of values, in order.
pub open spec fn value_views(values: Seq<Value>) -> Seq<ValueView> {
    Seq::new(values.len(), |i: int| values[i]@)
}

/// `Rc::make_mut`: a unique reference to the payload, which is the old
/// payload itself where it was not shared and a clone of it where it was.
#[verifier::external_body]
fn rc_make_mut<T: Clone>(this: &mut Rc<T>) -> (r: &mut T)
    ensures
        *r == **old(this) || cloned::<T>(**old(this), *r),
        **final(this) == *final(r),
{
    Rc::make_mut(this)
}

/// `Rc::clone`: another pointer to the same payload.
#[verifier::external_body]
fn rc_clone<T>(this: &Rc<T>) -> (r: Rc<T>)
    ensures
        r == *this,
{
    Rc::clone(this)
}

impl Clone for Value {
    /// Copies plain values and shares the payload of the others.
    fn clone(&self) -> (r: Self)
        ensures
            r == *self,
    {
        match self {
            Value::Str(s) => Value::Str(rc_clone(s)),
            Value::Array(a) => Value::Array(rc_clone(a)),
            Value::Closure(c) => Value::Closure(rc_clone(c)),
            Value::Number(n) => Value::Number(*n),
            Value::Float(bits) => Value::Float(*bits),
            Value::Boolean(b) => Value::Boolean(*b),
        }
    }
}

impl BinaryOp {
    pub open spec fn is_arithmetic(self) -> bool {
        self == BinaryOp::Add || self == BinaryOp::Sub || self == BinaryOp::Mult || self
            == BinaryOp::Div
    }

    pub open spec fn is_comparison(self) -> bool {
        self == BinaryOp::Lt || self == BinaryOp::Gt || self == BinaryOp::Le || self
            == BinaryOp::Ge || self == BinaryOp::Eq || self == BinaryOp::NE
    }

    /// The operations defined on two integers: all but concatenation.
    pub open spec fn takes_numbers(self) -> bool {
        self != BinaryOp::Concat
    }

    /// The operations that fail on a zero divisor.
    pub open spec fn divides(self) -> bool {
        self == BinaryOp::Div || self == BinaryOp::Mod
    }
}

/// Two to the power 64: integer results are reduced modulo this.
pub open spec fn word_modulus() -> int {
    0x1_0000_0000_0000_0000
}

/// The result of `op` on the integers `a` and `b`. Sums, differences and
/// products wrap around modulo 2^64; quotient and remainder are meant for a
/// non-zero `b`.
pub open spec fn number_result(op: BinaryOp, a: u64, b: u64) -> ValueView {
    match op {
        BinaryOp::Add => ValueView::Number(((a + b) % word_modulus()) as u64),
        BinaryOp::Sub => ValueView::Number(((a - b) % word_modulus()) as u64),
        BinaryOp::Mult => ValueView::Number(((a * b) % word_modulus()) as u64),
        BinaryOp::Div => ValueView::Number(a / b),
        BinaryOp::Mod => ValueView::Number(a % b),
        BinaryOp::Or => ValueView::Number(a | b),
        BinaryOp::And => ValueView::Number(a & b),
        BinaryOp::Xor => ValueView::Number(a ^ b),
        BinaryOp::Lt => ValueView::Boolean(a < b),
        BinaryOp::Gt => ValueView::Boolean(a > b),
        BinaryOp::Le => ValueView::Boolean(a <= b),
        BinaryOp::Ge => ValueView::Boolean(a >= b),
        BinaryOp::Eq => ValueView::Boolean(a == b),
        BinaryOp::NE => ValueView::Boolean(a != b),
        BinaryOp::Concat => ValueView::Number(a),
    }
}

/// The view of an operation's result: of the value on success, the error as
/// it is.
pub open spec fn result_view(r: Result<Value, ValueError>) -> Result<ValueView, ValueError> {
    match r {
        Ok(v) => Ok(v@),
        Err(e) => Err(e),
    }
}

/// True when `r` is an outcome of `op` on the operands `a` (left) and `b`
/// (right). The outcome is fixed except for two floats, where only its
/// variant is: a float for arithmetic, a boolean for a comparison.
pub open spec fn binary_post(
    op: BinaryOp,
    a: ValueView,
    b: ValueView,
    r: Result<ValueView, ValueError>,
) -> bool {
    match (a, b) {
        (ValueView::Number(x), ValueView::Number(y)) => {
            if !op.takes_numbers() {
                r == Err::<ValueView, ValueError>(ValueError::TypeMismatch)
            } else if op.divides() && y == 0 {
                r == Err::<ValueView, ValueError>(ValueError::DivisionByZero)
            } else {
                r == Ok::<ValueView, ValueError>(number_result(op, x, y))
            }
        },
        (ValueView::Float(_), ValueView::Float(_)) => {
            if op.is_arithmetic() {
                r matches Ok(v) && v is Float
            } else if op.is_comparison() {
                r matches Ok(v) && v is Boolean
            } else {
                r == Err::<ValueView, ValueError>(ValueError::TypeMismatch)
            }
        },
        (ValueView::Str(x), ValueView::Str(y)) => {
            if op == BinaryOp::Concat {
                r == Ok::<ValueView, ValueError>(ValueView::Str(x + y))
            } else {
                r == Err::<ValueView, ValueError>(ValueError::TypeMismatch)
            }
        },
        (ValueView::Array(x), ValueView::Array(y)) => {
            if op == BinaryOp::Concat {
                r == Ok::<ValueView, ValueError>(ValueView::Array(x + y))
            } else {
                r == Err::<ValueView, ValueError>(ValueError::TypeMismatch)
            }
        },
        _ => r == Err::<ValueView, ValueError>(ValueError::TypeMismatch),
    }
}

/// Appends `s2` to `s1`, in place where `s1` is the only owner of its text.
pub fn add_rc_strings(s1: Rc<String>, s2: Rc<String>) -> (r: Rc<String>)
    ensures
        r@ == s1@ + s2@,
{
    let mut s1 = s1;
    let target = rc_make_mut(&mut s1);
    target.append(s2.as_str());
    s1
}

/// Appends clones of the items of `s2` to `s1`, in place where `s1` is the
/// only owner of its items; where it is not, the items of `s1` are cloned too.
pub fn add_rc_vecs<A>(s1: Rc<Vec<A>>, s2: Rc<Vec<A>>) -> (r: Rc<Vec<A>>) where A: Clone
    ensures
        r@.len() == s1@.len() + s2@.len(),
        forall|i: int|
            0 <= i < s1@.len() ==> r@[i] == s1@[i] || cloned::<A>(s1@[i], #[trigger] r@[i]),
        forall|i: int|
            s1@.len() <= i < r@.len() ==> cloned::<A>(s2@[i - s1@.len()], #[trigger] r@[i]),
{
    let mut s1 = s1;
    let target = rc_make_mut(&mut s1);
    target.extend_from_slice(s2.as_slice());
    s1
}

/// The view of an array is the views of its items.
pub proof fn lemma_array_view(items: Rc<Vec<Value>>)
    ensures
        Value::Array(items)@ == ValueView::Array(items@.map_values(|v: Value| v@)),
{
    assert(Value::Array(items)@->Array_0 =~= items@.map_values(|v: Value| v@));
}

fn number_op(op: BinaryOp, a: u64, b: u64) -> (r: Result<Value, ValueError>)
    ensures
        binary_post(op, ValueView::Number(a), ValueView::Number(b), result_view(r)),
{
    match op {
        BinaryOp::Add => Ok(Value::Number(a.wrapping_add(b))),
        BinaryOp::Sub => Ok(Value::Number(a.wrapping_sub(b))),
        BinaryOp::Mult => Ok(Value::Number(a.wrapping_mul(b))),
        BinaryOp::Div => if b == 0 {
            Err(ValueError::DivisionByZero)
        } else {
            Ok(Value::Number(a / b))
        },
        BinaryOp::Mod => if b == 0 {
            Err(ValueError::DivisionByZero)
        } else {
            Ok(Value::Number(a % b))
        },
        BinaryOp::Or => Ok(Value::Number(a | b)),
        BinaryOp::And => Ok(Value::Number(a & b)),
        BinaryOp::Xor => Ok(Value::Number(a ^ b)),
        BinaryOp::Lt => Ok(Value::Boolean(a < b)),
        BinaryOp::Gt => Ok(Value::Boolean(a > b)),
        BinaryOp::Le => Ok(Value::Boolean(a <= b)),
        BinaryOp::Ge => Ok(Value::Boolean(a >= b)),
        BinaryOp::Eq => Ok(Value::Boolean(a == b)),
        BinaryOp::NE => Ok(Value::Boolean(a != b)),
        BinaryOp::Concat => Err(ValueError::TypeMismatch),
    }
}

fn float_op<F: FloatUnit>(floats: &F, op: BinaryOp, a: u64, b: u64) -> (r: Result<Value, ValueError>)
    ensures
        binary_post(op, ValueView::Float(a), ValueView::Float(b), result_view(r)),
{
    match op {
        BinaryOp::Add | BinaryOp::Sub | BinaryOp::Mult | BinaryOp::Div => Ok(
            Value::Float(floats.arith(op, a, b)),
        ),
        BinaryOp::Lt | BinaryOp::Gt | BinaryOp::Le | BinaryOp::Ge | BinaryOp::Eq | BinaryOp::NE => Ok(
            Value::Boolean(floats.compare(op, a, b)),
        ),
        _ => Err(ValueError::TypeMismatch),
    }
}

/// Applies `op` to the left operand `v1` and the right operand `v2`.
///
/// No pair of different variants is accepted, and nothing is converted.
pub fn apply_binary<F: FloatUnit>(floats: &F, op: BinaryOp, v1: Value, v2: Value) -> (r: Result<
    Value,
    ValueError,
>)
    ensures
        binary_post(op, v1@, v2@, result_view(r)),
{
    match (v1, v2) {
        (Value::Number(a), Value::Number(b)) => number_op(op, a, b),
        (Value::Float(a), Value::Float(b)) => float_op(floats, op, a, b),
        (Value::Str(a), Value::Str(b)) => match op {
            BinaryOp::Concat => Ok(Value::Str(add_rc_strings(a, b))),
            _ => Err(ValueError::TypeMismatch),
        },
        (Value::Array(a), Value::Array(b)) => match op {
            BinaryOp::Concat => {
                let joined = add_rc_vecs(a, b);
                proof {
                    lemma_array_view(a);
                    lemma_array_view(b);
                    lemma_array_view(joined);
                    assert(joined@.map_values(|v: Value| v@) =~= a@.map_values(|v: Value| v@)
                        + b@.map_values(|v: Value| v@));
                }
                Ok(Value::Array(joined))
            },
            _ => Err(ValueError::TypeMismatch),
        },
        _ => Err(ValueError::TypeMismatch),
    }
}

/// Whether the shared values `a` and `b` hold the same, item by item.
#[verifier::loop_isolation(false)]
fn same_shared(a: &Vec<Rc<Value>>, b: &Vec<Rc<Value>>) -> (r: bool)
    ensures
        r == (shared_views(a@) == shared_views(b@)),
    decreases a,
{
    if a.len() != b.len() {
        proof {
            assert(shared_views(a@).len() != shared_views(b@).len());
        }
        return false;
    }
    let mut i: usize = 0;
    while i < a.len()
        invariant
            i <= a@.len(),
            forall|k: int| 0 <= k < i ==> (*a@[k])@ == (*b@[k])@,
        decreases a@.len() - i,
    {
        let left: &Value = &a[i];
        let right: &Value = &b[i];
        if !left.same(right) {
            proof {
                assert(shared_views(a@)[i as int] != shared_views(b@)[i as int]);
            }
            return false;
        }
        i += 1;
    }
    proof {
        assert(shared_views(a@) =~= shared_views(b@));
    }
    true
}

/// Whether the values `a` and `b` hold the same, item by item.
#[verifier::loop_isolation(false)]
fn same_values(a: &Vec<Value>, b: &Vec<Value>) -> (r: bool)
    ensures
        r == (value_views(a@) == value_views(b@)),
    decreases a,
{
    if a.len() != b.len() {
        proof {
            assert(value_views(a@).len() != value_views(b@).len());
        }
        return false;
    }
    let mut i: usize = 0;
    while i < a.len()
        invariant
            i <= a@.len(),
            forall|k: int| 0 <= k < i ==> a@[k]@ == b@[k]@,
        decreases a@.len() - i,
    {
        if !a[i].same(&b[i]) {
            proof {
                assert(value_views(a@)[i as int] != value_views(b@)[i as int]);
            }
            return false;
        }
        i += 1;
    }
    proof {
        assert(value_views(a@) =~= value_views(b@));
    }
    true
}

impl Value {
    /// Whether the two values hold the same: they are of one variant, and
    /// their numbers, texts, items or closures agree. Floats are compared by
    /// their bits.
    pub fn same(&self, other: &Value) -> (r: bool)
        ensures
            r == (self@ == other@),
        decreases self,
    {
        match (self, other) {
            (Value::Str(a), Value::Str(b)) => {
                let left: &String = a;
                let right: &String = b;
                *left == *right
            },
            (Value::Array(a), Value::Array(b)) => {
                let left: &Vec<Value> = a;
                let right: &Vec<Value> = b;
                let r = same_values(left, right);
                proof {
                    assert(self@->Array_0 =~= value_views(left@));
                    assert(other@->Array_0 =~= value_views(right@));
                }
                r
            },
            (Value::Closure(a), Value::Closure(b)) => {
                let left: &Closure = a;
                let right: &Closure = b;
                let r = left.total_args == right.total_args && left.function == right.function
                    && same_shared(&left.current_args, &right.current_args);
                proof {
                    assert(left@.current_args =~= shared_views(left.current_args@));
                    assert(right@.current_args =~= shared_views(right.current_args@));
                }
                r
            },
            (Value::Number(a), Value::Number(b)) => *a == *b,
            (Value::Float(a), Value::Float(b)) => *a == *b,
            (Value::Boolean(a), Value::Boolean(b)) => *a == *b,
            _ => false,
        }
    }

    /// The boolean that this value holds; any other variant is a mismatch.
    pub fn expect_bool(&self) -> (r: Result<bool, ValueError>)
        ensures
            match self@ {
                ValueView::Boolean(b) => r == Ok::<bool, ValueError>(b),
                _ => r == Err::<bool, ValueError>(ValueError::TypeMismatch),
            },
    {
        match self {
            Value::Boolean(a) => Ok(*a),
            _ => Err(ValueError::TypeMismatch),
        }
    }
}

impl Closure {
    #[verifier::type_invariant]
    spec fn within_arity(self) -> bool {
        self.current_args@.len() <= self.total_args
    }

    /// A closure over `function`, which takes `total_args` arguments, holding
    /// `captured` as the first of them; `None` where `captured` holds more
    /// than `total_args` values.
    pub fn new(function: ClosureFunc, total_args: u16, captured: Vec<Rc<Value>>) -> (r: Option<
        Closure,
    >)
        ensures
            r is Some <==> captured@.len() <= total_args,
            r matches Some(c) ==> c@ == (ClosureView {
                total_args: total_args as nat,
                current_args: shared_views(captured@),
                function,
            }),
    {
        if captured.len() <= total_args as usize {
            let c = Closure { total_args, current_args: captured, function };
            assert(c@.current_args =~= shared_views(captured@));
            Some(c)
        } else {
            None
        }
    }

    /// How many arguments the function takes.
    pub fn total_args(&self) -> (r: u16)
        ensures
            r == self@.total_args,
            self@.well_formed(),
    {
        proof {
            use_type_invariant(self);
        }
        self.total_args
    }

    /// The arguments held so far, oldest first.
    pub fn current_args(&self) -> (r: &Vec<Rc<Value>>)
        ensures
            shared_views(r@) == self@.current_args,
            self@.well_formed(),
    {
        proof {
            use_type_invariant(self);
            assert(shared_views(self.current_args@) =~= self@.current_args);
        }
        &self.current_args
    }

    /// The function that runs once every argument is there.
    pub fn function(&self) -> (r: ClosureFunc)
        ensures
            r == self@.function,
    {
        self.function
    }

    /// Whether every argument is there.
    pub fn is_saturated(&self) -> (r: bool)
        ensures
            r == self@.saturated(),
            self@.well_formed(),
    {
        proof {
            use_type_invariant(self);
        }
        self.current_args.len() == self.total_args as usize
    }

    /// Copies of the arguments held so far, oldest first.
    pub fn arguments(&self) -> (r: Vec<Value>)
        ensures
            value_views(r@) == self@.current_args,
    {
        let mut values: Vec<Value> = Vec::new();
        let mut i: usize = 0;
        while i < self.current_args.len()
            invariant
                i <= self.current_args@.len(),
                values@.len() == i,
                forall|k: int| 0 <= k < i ==> values@[k] == *self.current_args@[k],
            decreases self.current_args@.len() - i,
        {
            let value: &Value = &self.current_args[i];
            values.push(value.clone());
            i += 1;
        }
        proof {
            assert(value_views(values@) =~= self@.current_args);
        }
        values
    }

    /// A closure that holds `args` after the arguments of this one, which is
    /// left as it is; `None` where that is more than the function takes.
    pub fn extend(&self, args: &Vec<Value>) -> (r: Option<Closure>)
        ensures
            r is Some <==> self@.current_args.len() + args@.len() <= self@.total_args,
            r matches Some(c) ==> c@ == self@.supply_all(value_views(args@)),
    {
        proof {
            use_type_invariant(self);
        }
        if args.len() > self.total_args as usize - self.current_args.len() {
            return None;
        }
        let mut held: Vec<Rc<Value>> = Vec::new();
        let mut i: usize = 0;
        while i < self.current_args.len()
            invariant
                i <= self.current_args@.len(),
                held@ == self.current_args@.subrange(0, i as int),
            decreases self.current_args@.len() - i,
        {
            held.push(rc_clone(&self.current_args[i]));
            proof {
                assert(held@ =~= self.current_args@.subrange(0, i + 1));
            }
            i += 1;
        }
        proof {
            assert(self.current_args@.subrange(0, i as int) =~= self.current_args@);
        }
        let mut j: usize = 0;
        while j < args.len()
            invariant
                j <= args@.len(),
                held@.len() == self.current_args@.len() + j,
                shared_views(held@) == self@.current_args + value_views(args@).subrange(0, j as int),
            decreases args@.len() - j,
        {
            let ghost before = held@;
            held.push(Rc::new(args[j].clone()));
            proof {
                assert(shared_views(held@) =~= shared_views(before).push(args@[j as int]@));
                assert(shared_views(held@) =~= self@.current_args + value_views(args@).subrange(
                    0,
                    j + 1,
                ));
            }
            j += 1;
        }
        let c = Closure { total_args: self.total_args, current_args: held, function: self.function };
        proof {
            assert(value_views(args@).subrange(0, j as int) =~= value_views(args@));
            lemma_supply_all_appends(self@, value_views(args@));
            assert(c@.current_args =~= shared_views(held@));
        }
        Some(c)
    }

    /// A closure that holds `arg` after the arguments of this one, which is
    /// left as it is; `None` where this one is saturated.
    pub fn supply(&self, arg: Value) -> (r: Option<Closure>)
        ensures
            r is Some <==> !self@.saturated(),
            r matches Some(c) ==> c@ == self@.supply(arg@),
    {
        proof {
            use_type_invariant(self);
        }
        if self.current_args.len() >= self.total_args as usize {
            return None;
        }
        let mut args: Vec<Rc<Value>> = Vec::new();
        let mut i: usize = 0;
        while i < self.current_args.len()
            invariant
                i <= self.current_args@.len(),
                args@ == self.current_args@.subrange(0, i as int),
            decreases self.current_args@.len() - i,
        {
            args.push(rc_clone(&self.current_args[i]));
            proof {
                assert(args@ =~= self.current_args@.subrange(0, i + 1));
            }
            i += 1;
        }
        args.push(Rc::new(arg));
        let c = Closure { total_args: self.total_args, current_args: args, function: self.function };
        proof {
            assert(self.current_args@.subrange(0, i as int) =~= self.current_args@);
            assert(c@.current_args =~= self@.current_args.push(arg@));
        }
        Some(c)
    }
}

/// `add_values`: the sum of two integers modulo 2^64, a float for two floats.
pub fn add_values<F: FloatUnit>(floats: &F, v1: Value, v2: Value) -> (r: Result<Value, ValueError>)
    ensures
        binary_post(BinaryOp::Add, v1@, v2@, result_view(r)),
{
    apply_binary(floats, BinaryOp::Add, v1, v2)
}

/// The difference `v1 - v2` of two integers modulo 2^64, a float for two floats.
pub fn sub_values<F: FloatUnit>(floats: &F, v1: Value, v2: Value) -> (r: Result<Value, ValueError>)
    ensures
        binary_post(BinaryOp::Sub, v1@, v2@, result_view(r)),
{
    apply_binary(floats, BinaryOp::Sub, v1, v2)
}

/// The product of two integers modulo 2^64, a float for two floats.
pub fn mult_values<F: FloatUnit>(floats: &F, v1: Value, v2: Value) -> (r: Result<Value, ValueError>)
    ensures
        binary_post(BinaryOp::Mult, v1@, v2@, result_view(r)),
{
    apply_binary(floats, BinaryOp::Mult, v1, v2)
}

/// The quotient `v1 / v2` of two integers, rounded down, a float for two floats.
pub fn div_values<F: FloatUnit>(floats: &F, v1: Value, v2: Value) -> (r: Result<Value, ValueError>)
    ensures
        binary_post(BinaryOp::Div, v1@, v2@, result_view(r)),
{
    apply_binary(floats, BinaryOp::Div, v1, v2)
}

/// The remainder of `v1 / v2`, for integers only.
pub fn modulo_values<F: FloatUnit>(floats: &F, v1: Value, v2: Value) -> (r: Result<
    Value,
    ValueError,
>)
    ensures
        binary_post(BinaryOp::Mod, v1@, v2@, result_view(r)),
{
    apply_binary(floats, BinaryOp::Mod, v1, v2)
}

/// Bitwise or, for integers only.
pub fn or_values<F: FloatUnit>(floats: &F, v1: Value, v2: Value) -> (r: Result<Value, ValueError>)
    ensures
        binary_post(BinaryOp::Or, v1@, v2@, result_view(r)),
{
    apply_binary(floats, BinaryOp::Or, v1, v2)
}

/// Bitwise and, for integers only.
pub fn and_values<F: FloatUnit>(floats: &F, v1: Value, v2: Value) -> (r: Result<Value, ValueError>)
    ensures
        binary_post(BinaryOp::And, v1@, v2@, result_view(r)),
{
    apply_binary(floats, BinaryOp::And, v1, v2)
}

/// Bitwise exclusive or, for integers only.
pub fn xor_values<F: FloatUnit>(floats: &F, v1: Value, v2: Value) -> (r: Result<Value, ValueError>)
    ensures
        binary_post(BinaryOp::Xor, v1@, v2@, result_view(r)),
{
    apply_binary(floats, BinaryOp::Xor, v1, v2)
}

/// `v1` followed by `v2`, for two texts or two arrays.
pub fn concat_values<F: FloatUnit>(floats: &F, v1: Value, v2: Value) -> (r: Result<
    Value,
    ValueError,
>)
    ensures
        binary_post(BinaryOp::Concat, v1@, v2@, result_view(r)),
{
    apply_binary(floats, BinaryOp::Concat, v1, v2)
}

/// Whether `v1 < v2`, for two integers or two floats.
pub fn lt_values<F: FloatUnit>(floats: &F, v1: Value, v2: Value) -> (r: Result<Value, ValueError>)
    ensures
        binary_post(BinaryOp::Lt, v1@, v2@, result_view(r)),
{
    apply_binary(floats, BinaryOp::Lt, v1, v2)
}

/// Whether `v1 > v2`, for two integers or two floats.
pub fn gt_values<F: FloatUnit>(floats: &F, v1: Value, v2: Value) -> (r: Result<Value, ValueError>)
    ensures
        binary_post(BinaryOp::Gt, v1@, v2@, result_view(r)),
{
    apply_binary(floats, BinaryOp::Gt, v1, v2)
}

/// Whether `v1 <= v2`, for two integers or two floats.
pub fn le_values<F: FloatUnit>(floats: &F, v1: Value, v2: Value) -> (r: Result<Value, ValueError>)
    ensures
        binary_post(BinaryOp::Le, v1@, v2@, result_view(r)),
{
    apply_binary(floats, BinaryOp::Le, v1, v2)
}

/// Whether `v1 >= v2`, for two integers or two floats.
pub fn ge_values<F: FloatUnit>(floats: &F, v1: Value, v2: Value) -> (r: Result<Value, ValueError>)
    ensures
        binary_post(BinaryOp::Ge, v1@, v2@, result_view(r)),
{
    apply_binary(floats, BinaryOp::Ge, v1, v2)
}

/// Whether `v1` and `v2` are equal, for two integers or two floats.
pub fn eq_values<F: FloatUnit>(floats: &F, v1: Value, v2: Value) -> (r: Result<Value, ValueError>)
    ensures
        binary_post(BinaryOp::Eq, v1@, v2@, result_view(r)),
{
    apply_binary(floats, BinaryOp::Eq, v1, v2)
}

/// Whether `v1` and `v2` differ, for two integers or two floats.
pub fn ne_values<F: FloatUnit>(floats: &F, v1: Value, v2: Value) -> (r: Result<Value, ValueError>)
    ensures
        binary_post(BinaryOp::NE, v1@, v2@, result_view(r)),
{
    apply_binary(floats, BinaryOp::NE, v1, v2)
}

/// Integer addition and multiplication wrap around: the result of either on
/// two integers is the exact sum or product reduced modulo 2^64.
pub proof fn lemma_number_arithmetic_wraps(a: u64, b: u64, sum: Result<ValueView, ValueError>,
    product: Result<ValueView, ValueError>,
)
    requires
        binary_post(BinaryOp::Add, ValueView::Number(a), ValueView::Number(b), sum),
        binary_post(BinaryOp::Mult, ValueView::Number(a), ValueView::Number(b), product),
    ensures
        sum == Ok::<ValueView, ValueError>(
            ValueView::Number(((a + b) % 0x1_0000_0000_0000_0000) as u64),
        ),
        product == Ok::<ValueView, ValueError>(
            ValueView::Number(((a * b) % 0x1_0000_0000_0000_0000) as u64),
        ),
        a + b <= u64::MAX ==> sum->Ok_0 == ValueView::Number((a + b) as u64),
        a * b <= u64::MAX ==> product->Ok_0 == ValueView::Number((a * b) as u64),
{
    if a * b <= u64::MAX {
        assert(a * b >= 0) by (nonlinear_arith);
        assert((a * b) % 0x1_0000_0000_0000_0000 == a * b);
    }
}

/// Subtraction undoes addition, wraparound included: `(a + b) - b` is `a`.
pub proof fn lemma_sub_undoes_add(
    a: u64,
    b: u64,
    sum: Result<ValueView, ValueError>,
    back: Result<ValueView, ValueError>,
)
    requires
        binary_post(BinaryOp::Add, ValueView::Number(a), ValueView::Number(b), sum),
        sum is Ok ==> binary_post(BinaryOp::Sub, sum->Ok_0, ValueView::Number(b), back),
    ensures
        sum is Ok,
        back == Ok::<ValueView, ValueError>(ValueView::Number(a)),
{
}

/// The variant of a view, as a number: two views are of the same variant
/// exactly when these agree.
pub open spec fn variant_of(v: ValueView) -> int {
    match v {
        ValueView::Str(_) => 0,
        ValueView::Array(_) => 1,
        ValueView::Closure(_) => 2,
        ValueView::Number(_) => 3,
        ValueView::Float(_) => 4,
        ValueView::Boolean(_) => 5,
    }
}

/// No operation accepts operands of two different variants, and none accepts
/// a closure or a boolean: each such application is a type mismatch.
pub proof fn lemma_mismatch_fails(
    op: BinaryOp,
    a: ValueView,
    b: ValueView,
    r: Result<ValueView, ValueError>,
)
    requires
        binary_post(op, a, b, r),
        variant_of(a) != variant_of(b) || a is Closure || a is Boolean,
    ensures
        r == Err::<ValueView, ValueError>(ValueError::TypeMismatch),
{
}

/// An operation that succeeds on two floats or two integers keeps the
/// operands' variant or yields a boolean: nothing is converted.
pub proof fn lemma_no_coercion(
    op: BinaryOp,
    a: ValueView,
    b: ValueView,
    r: Result<ValueView, ValueError>,
)
    requires
        binary_post(op, a, b, r),
        r is Ok,
    ensures
        variant_of(a) == variant_of(b),
        op.is_comparison() <==> r->Ok_0 is Boolean,
        !op.is_comparison() ==> variant_of(r->Ok_0) == variant_of(a),
{
}

/// Supplying arguments one after another appends them, and changes neither
/// the function nor the arity.
pub proof fn lemma_supply_all_appends(c: ClosureView, args: Seq<ValueView>)
    ensures
        c.supply_all(args) == (ClosureView {
            total_args: c.total_args,
            current_args: c.current_args + args,
            function: c.function,
        }),
    decreases args.len(),
{
    if args.len() == 0 {
        assert(c.current_args + args =~= c.current_args);
    } else {
        let rest = args.subrange(1, args.len() as int);
        lemma_supply_all_appends(c.supply(args[0]), rest);
        assert(c.supply(args[0]).current_args + rest =~= c.current_args + args);
    }
}

/// Supplying one more argument to an unsaturated closure lengthens its
/// arguments by exactly one and changes neither its function nor its arity.
pub proof fn lemma_supply_grows(c: ClosureView, arg: ValueView)
    requires
        c.well_formed(),
        !c.saturated(),
    ensures
        c.supply(arg).current_args.len() == c.current_args.len() + 1,
        c.supply(arg).well_formed(),
        c.supply(arg).total_args == c.total_args,
        c.supply(arg).function == c.function,
        c.supply(arg).current_args.subrange(0, c.current_args.len() as int) == c.current_args,
{
    assert(c.supply(arg).current_args.subrange(0, c.current_args.len() as int)
        =~= c.current_args);
}

/// Supplying the missing arguments one at a time passes through closures of
/// strictly growing length, none of them saturated, and ends in a saturated
/// one that holds the old arguments followed by the new ones.
pub proof fn lemma_supply_until_saturated(c: ClosureView, args: Seq<ValueView>)
    requires
        c.well_formed(),
        c.current_args.len() + args.len() == c.total_args,
    ensures
        c.supply_all(args).saturated(),
        c.supply_all(args).current_args == c.current_args + args,
        c.supply_all(args).function == c.function,
        forall|k: int|
            0 <= k < args.len() ==> {
                let partial = #[trigger] c.supply_all(args.subrange(0, k));
                &&& !partial.saturated()
                &&& partial.well_formed()
                &&& partial.current_args.len() == c.current_args.len() + k
            },
    decreases args.len(),
{
    if args.len() == 0 {
        assert(c.current_args + args =~= c.current_args);
    } else {
        let next = c.supply(args[0]);
        let rest = args.subrange(1, args.len() as int);
        lemma_supply_until_saturated(next, rest);
        assert(next.current_args + rest =~= c.current_args + args);
        assert forall|k: int| 0 <= k < args.len() implies {
            let partial = #[trigger] c.supply_all(args.subrange(0, k));
            &&& !partial.saturated()
            &&& partial.well_formed()
            &&& partial.current_args.len() == c.current_args.len() + k
        } by {
            if k == 0 {
                assert(args.subrange(0, 0).len() == 0);
            } else {
                let prefix = args.subrange(0, k);
                assert(prefix[0] == args[0]);
                assert(prefix.subrange(1, prefix.len() as int) =~= rest.subrange(0, k - 1));
                assert(c.supply_all(prefix) == next.supply_all(rest.subrange(0, k - 1)));
            }
        }
    }
}

} // verus!
