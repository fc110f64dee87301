//! The compiler: from declarations to one instruction sequence per function.
//!
//! Names are resolved to places first: a local slot, a top-level function,
//! a constructor, a builtin, a constant, an operator. Code is then laid out
//! so that every expression leaves exactly one value on the stack. A lambda
//! and a function by cases become functions of their own, and a closure
//! over the locals they capture is made where they stand.
//!
//! What the compiler emits is stated by spec functions over the syntax
//! tree; the executable functions are proved to compute them. Further
//! lemmas say what holds of every compiled program: that resolution goes by
//! the innermost binding, that a fault refuses the whole program, and that
//! the code names only constants, builtins, functions and addresses that are
//! there.

use crate::builtins::{BuiltinId, BuiltinMaps};
use crate::bytecodevm::{
    closed, code_within, lemma_closed_grows, program_closed, refers_within, with_code_limit,
    Limits, OpCode,
};
use crate::names::{find_last, last_index, name_views};
use crate::parser::{CaseExprs, Decleration, DeclerationVal, EnumVariant, Expr, Statement};
use crate::values::{value_views, BinaryOp, Value, ValueView};
use std::rc::Rc;
use vstd::prelude::*;
use vstd::string::StringExecFns;

verus! {

/// Why a program was refused. Nothing is compiled of a refused program.
#[derive(Debug, PartialEq, Eq)]
pub enum CompileError {
    /// This name is bound nowhere.
    UnresolvedName(String),
    /// No function or value is called `main`.
    MissingEntryPoint,
    /// Two declarations have this name.
    NameCollision(String),
    /// This name is applied to a number of arguments that it cannot take.
    ArityMismatch(String),
    /// A block without a statement has no value.
    EmptyBlock,
    /// An array literal with an item that is no literal.
    NonConstantArray,
    /// A definition by cases without a case.
    EmptyCase,
    /// More locals, functions or instructions than can be counted.
    TooLarge,
}

/// The content of a [`CompileError`].
pub enum CompileErrorView {
    UnresolvedName(Seq<char>),
    MissingEntryPoint,
    NameCollision(Seq<char>),
    ArityMismatch(Seq<char>),
    EmptyBlock,
    NonConstantArray,
    EmptyCase,
    TooLarge,
}

impl View for CompileError {
    type V = CompileErrorView;

    open spec fn view(&self) -> CompileErrorView {
        match *self {
            CompileError::UnresolvedName(name) => CompileErrorView::UnresolvedName(name@),
            CompileError::MissingEntryPoint => CompileErrorView::MissingEntryPoint,
            CompileError::NameCollision(name) => CompileErrorView::NameCollision(name@),
            CompileError::ArityMismatch(name) => CompileErrorView::ArityMismatch(name@),
            CompileError::EmptyBlock => CompileErrorView::EmptyBlock,
            CompileError::NonConstantArray => CompileErrorView::NonConstantArray,
            CompileError::EmptyCase => CompileErrorView::EmptyCase,
            CompileError::TooLarge => CompileErrorView::TooLarge,
        }
    }
}

/// What a name stands for.
#[derive(Clone, Copy, Debug, PartialEq, Eq, Structural)]
pub enum Location {
    /// A local binding, in this slot of the frame, counted from its bottom.
    Local(usize),
    /// A top-level function or value: its index and its arity.
    Function(usize, usize),
    /// A builtin, by its index.
    Builtin(usize),
    /// A registered constant, by its index.
    Constant(usize),
    /// A constructor of a record: its tag and how many fields it takes.
    Constructor(usize, usize),
    /// An operator of the machine.
    Operator(BinaryOp),
    /// The conditional, `if`.
    Conditional,
}

/// The local bindings in sight and the simulated height of the frame.
pub struct Scope {
    /// The bound names, innermost last.
    pub names: Vec<String>,
    /// The slot of each bound name.
    pub slots: Vec<usize>,
    /// How many values the frame holds at this point: locals and
    /// temporaries.
    pub height: usize,
}

/// The content of a [`Scope`].
pub struct ScopeView {
    pub names: Seq<Seq<char>>,
    pub slots: Seq<usize>,
    pub height: nat,
}

impl View for Scope {
    type V = ScopeView;

    open spec fn view(&self) -> ScopeView {
        ScopeView { names: name_views(self.names@), slots: self.slots@, height: self.height as nat }
    }
}

impl ScopeView {
    /// Every name has its slot, and every slot lies in the frame.
    pub open spec fn well_formed(self) -> bool {
        &&& self.names.len() == self.slots.len()
        &&& forall|i: int| 0 <= i < self.slots.len() ==> self.slots[i] < self.height
    }

    /// The same bindings with one more value on the frame.
    pub open spec fn grown(self) -> ScopeView {
        ScopeView { names: self.names, slots: self.slots, height: self.height + 1 }
    }

    /// The scope after `name` is bound to the value on top of the frame.
    pub open spec fn bind_top(self, name: Seq<char>) -> ScopeView {
        ScopeView {
            names: self.names.push(name),
            slots: self.slots.push((self.height - 1) as usize),
            height: self.height,
        }
    }
}

/// What the declarations of a program declare: the top-level functions and
/// values, the index of each being its place, and the constructors of the
/// algebraic types.
pub struct Globals {
    /// The names of the functions and values.
    pub names: Vec<String>,
    /// How many arguments each of them takes.
    pub arities: Vec<usize>,
    /// The names of the constructors.
    pub constructors: Vec<String>,
    /// The tag of each constructor: its place among the variants of its
    /// type.
    pub tags: Vec<usize>,
    /// How many fields each constructor takes.
    pub fields: Vec<usize>,
}

/// The content of [`Globals`].
pub struct GlobalsView {
    pub names: Seq<Seq<char>>,
    pub arities: Seq<usize>,
    pub constructors: Seq<Seq<char>>,
    pub tags: Seq<usize>,
    pub fields: Seq<usize>,
}

impl View for Globals {
    type V = GlobalsView;

    open spec fn view(&self) -> GlobalsView {
        GlobalsView {
            names: name_views(self.names@),
            arities: self.arities@,
            constructors: name_views(self.constructors@),
            tags: self.tags@,
            fields: self.fields@,
        }
    }
}

impl GlobalsView {
    /// Nothing is declared.
    pub open spec fn empty() -> GlobalsView {
        GlobalsView {
            names: Seq::empty(),
            arities: Seq::empty(),
            constructors: Seq::empty(),
            tags: Seq::empty(),
            fields: Seq::empty(),
        }
    }

    /// Whether a function, a value or a constructor has this name.
    pub open spec fn declares(self, name: Seq<char>) -> bool {
        last_index(self.names, name) is Some || last_index(self.constructors, name) is Some
    }

    /// With one more function or value.
    pub open spec fn with_function(self, name: Seq<char>, arity: usize) -> GlobalsView {
        GlobalsView {
            names: self.names.push(name),
            arities: self.arities.push(arity),
            constructors: self.constructors,
            tags: self.tags,
            fields: self.fields,
        }
    }

    /// With one more constructor.
    pub open spec fn with_constructor(self, name: Seq<char>, tag: usize, fields: usize) -> GlobalsView {
        GlobalsView {
            names: self.names,
            arities: self.arities,
            constructors: self.constructors.push(name),
            tags: self.tags.push(tag),
            fields: self.fields.push(fields),
        }
    }

    /// Every name has what belongs to it.
    pub open spec fn aligned(self) -> bool {
        self.names.len() == self.arities.len() && self.constructors.len() == self.tags.len()
            && self.constructors.len() == self.fields.len()
    }
}

/// What resolution reads beside the local scope: the top-level names with
/// their arities, the constructors with their tags and numbers of fields,
/// the registered names with their places, and the index that the first
/// lambda gets.
pub struct ContextView {
    pub global_names: Seq<Seq<char>>,
    pub arities: Seq<usize>,
    pub constructors: Seq<Seq<char>>,
    pub tags: Seq<usize>,
    pub fields: Seq<usize>,
    pub registry_names: Seq<Seq<char>>,
    pub registry_ids: Seq<BuiltinId>,
    pub first_lambda: nat,
}

/// The context that the declared names and the registered names give.
pub open spec fn context_for(
    globals: GlobalsView,
    registry_names: Seq<Seq<char>>,
    registry_ids: Seq<BuiltinId>,
) -> ContextView {
    ContextView {
        global_names: globals.names,
        arities: globals.arities,
        constructors: globals.constructors,
        tags: globals.tags,
        fields: globals.fields,
        registry_names,
        registry_ids,
        first_lambda: globals.names.len(),
    }
}

/// The context that `globals` and `registry` give.
pub open spec fn context_of<B>(globals: &Globals, registry: &BuiltinMaps<B>) -> ContextView {
    context_for(globals@, registry.names(), registry.ids())
}

impl ContextView {
    /// Every top-level name has its arity, every constructor its tag and
    /// its number of fields, and every registered name its place.
    pub open spec fn well_formed(self) -> bool {
        &&& self.global_names.len() == self.arities.len()
        &&& self.constructors.len() == self.tags.len()
        &&& self.constructors.len() == self.fields.len()
        &&& self.registry_names.len() == self.registry_ids.len()
        &&& self.first_lambda == self.global_names.len()
        &&& self.first_lambda <= usize::MAX
    }
}

/// The operator that a token names.
pub open spec fn operator_spec(name: Seq<char>) -> Option<BinaryOp> {
    if name == "+"@ {
        Some(BinaryOp::Add)
    } else if name == "-"@ {
        Some(BinaryOp::Sub)
    } else if name == "*"@ {
        Some(BinaryOp::Mult)
    } else if name == "/"@ {
        Some(BinaryOp::Div)
    } else if name == "%"@ {
        Some(BinaryOp::Mod)
    } else if name == "|"@ {
        Some(BinaryOp::Or)
    } else if name == "&"@ {
        Some(BinaryOp::And)
    } else if name == "^"@ {
        Some(BinaryOp::Xor)
    } else if name == "<"@ {
        Some(BinaryOp::Lt)
    } else if name == ">"@ {
        Some(BinaryOp::Gt)
    } else if name == "<="@ {
        Some(BinaryOp::Le)
    } else if name == ">="@ {
        Some(BinaryOp::Ge)
    } else if name == "=="@ {
        Some(BinaryOp::Eq)
    } else if name == "!="@ {
        Some(BinaryOp::NE)
    } else if name == "++"@ {
        Some(BinaryOp::Concat)
    } else {
        None
    }
}

/// The instruction that performs an operator.
pub open spec fn opcode_spec(op: BinaryOp) -> OpCode {
    match op {
        BinaryOp::Add => OpCode::Add,
        BinaryOp::Sub => OpCode::Sub,
        BinaryOp::Mult => OpCode::Mult,
        BinaryOp::Div => OpCode::Div,
        BinaryOp::Mod => OpCode::Mod,
        BinaryOp::Or => OpCode::Or,
        BinaryOp::And => OpCode::And,
        BinaryOp::Xor => OpCode::Xor,
        BinaryOp::Lt => OpCode::Lt,
        BinaryOp::Gt => OpCode::Gt,
        BinaryOp::Le => OpCode::Le,
        BinaryOp::Ge => OpCode::Ge,
        BinaryOp::Eq => OpCode::Eq,
        BinaryOp::NE => OpCode::NE,
        BinaryOp::Concat => OpCode::Concat,
    }
}

/// What `name` stands for. A local binding comes first, the innermost
/// first among them; then a top-level function or value; then a
/// constructor; then a registered builtin or constant; then an operator
/// token; then `if`.
pub open spec fn resolve_spec(scope: ScopeView, ctx: ContextView, name: Seq<char>) -> Option<
    Location,
> {
    match last_index(scope.names, name) {
        Some(k) => Some(Location::Local(scope.slots[k])),
        None => match last_index(ctx.global_names, name) {
            Some(k) => Some(Location::Function(k as usize, ctx.arities[k])),
            None => match last_index(ctx.constructors, name) {
                Some(k) => Some(Location::Constructor(ctx.tags[k], ctx.fields[k])),
                None => match last_index(ctx.registry_names, name) {
                    Some(k) => Some(
                        match ctx.registry_ids[k] {
                            BuiltinId::Builtin(i) => Location::Builtin(i),
                            BuiltinId::Constant(i) => Location::Constant(i),
                        },
                    ),
                    None => match operator_spec(name) {
                        Some(op) => Some(Location::Operator(op)),
                        None => if name == "if"@ {
                            Some(Location::Conditional)
                        } else {
                            None
                        },
                    },
                },
            },
        },
    }
}

/// Whether `name` is the text `text`.
fn is_text(name: &String, text: &str) -> (r: bool)
    ensures
        r == (name@ == text@),
{
    let wanted = String::from_str(text);
    *name == wanted
}

/// The operator that a token names.
pub fn operator_of(name: &String) -> (r: Option<BinaryOp>)
    ensures
        r == operator_spec(name@),
{
    if is_text(name, "+") {
        Some(BinaryOp::Add)
    } else if is_text(name, "-") {
        Some(BinaryOp::Sub)
    } else if is_text(name, "*") {
        Some(BinaryOp::Mult)
    } else if is_text(name, "/") {
        Some(BinaryOp::Div)
    } else if is_text(name, "%") {
        Some(BinaryOp::Mod)
    } else if is_text(name, "|") {
        Some(BinaryOp::Or)
    } else if is_text(name, "&") {
        Some(BinaryOp::And)
    } else if is_text(name, "^") {
        Some(BinaryOp::Xor)
    } else if is_text(name, "<") {
        Some(BinaryOp::Lt)
    } else if is_text(name, ">") {
        Some(BinaryOp::Gt)
    } else if is_text(name, "<=") {
        Some(BinaryOp::Le)
    } else if is_text(name, ">=") {
        Some(BinaryOp::Ge)
    } else if is_text(name, "==") {
        Some(BinaryOp::Eq)
    } else if is_text(name, "!=") {
        Some(BinaryOp::NE)
    } else if is_text(name, "++") {
        Some(BinaryOp::Concat)
    } else {
        None
    }
}

/// The instruction that performs an operator.
pub fn opcode_of(op: BinaryOp) -> (r: OpCode)
    ensures
        r == opcode_spec(op),
{
    match op {
        BinaryOp::Add => OpCode::Add,
        BinaryOp::Sub => OpCode::Sub,
        BinaryOp::Mult => OpCode::Mult,
        BinaryOp::Div => OpCode::Div,
        BinaryOp::Mod => OpCode::Mod,
        BinaryOp::Or => OpCode::Or,
        BinaryOp::And => OpCode::And,
        BinaryOp::Xor => OpCode::Xor,
        BinaryOp::Lt => OpCode::Lt,
        BinaryOp::Gt => OpCode::Gt,
        BinaryOp::Le => OpCode::Le,
        BinaryOp::Ge => OpCode::Ge,
        BinaryOp::Eq => OpCode::Eq,
        BinaryOp::NE => OpCode::NE,
        BinaryOp::Concat => OpCode::Concat,
    }
}

/// What `name` stands for at this point of the program.
fn resolve<B>(scope: &Scope, globals: &Globals, registry: &BuiltinMaps<B>, name: &String) -> (r:
    Option<Location>)
    requires
        scope@.names.len() == scope@.slots.len(),
        context_of(globals, registry).well_formed(),
    ensures
        r == resolve_spec(scope@, context_of(globals, registry), name@),
{
    proof {
        crate::names::lemma_last_index(scope@.names, name@);
        crate::names::lemma_last_index(name_views(globals.names@), name@);
        crate::names::lemma_last_index(name_views(globals.constructors@), name@);
    }
    if let Some(k) = find_last(&scope.names, name) {
        return Some(Location::Local(scope.slots[k]));
    }
    if let Some(k) = find_last(&globals.names, name) {
        return Some(Location::Function(k, globals.arities[k]));
    }
    if let Some(k) = find_last(&globals.constructors, name) {
        return Some(Location::Constructor(globals.tags[k], globals.fields[k]));
    }
    match registry.lookup(name) {
        Some(BuiltinId::Builtin(i)) => {
            return Some(Location::Builtin(i));
        },
        Some(BuiltinId::Constant(i)) => {
            return Some(Location::Constant(i));
        },
        None => {},
    }
    if let Some(op) = operator_of(name) {
        return Some(Location::Operator(op));
    }
    if is_text(name, "if") {
        Some(Location::Conditional)
    } else {
        None
    }
}

/// The first place of `v` in the pool, or the pool's length where it is not
/// in it.
pub open spec fn pool_index(pool: Seq<ValueView>, v: ValueView) -> int
    decreases pool.len(),
{
    if pool.len() == 0 {
        0
    } else if pool[0] == v {
        0
    } else {
        1 + pool_index(pool.skip(1), v)
    }
}

/// The pool after `v` is asked for: as it was where it held `v`, else with
/// `v` at its end.
pub open spec fn intern_pool(pool: Seq<ValueView>, v: ValueView) -> Seq<ValueView> {
    if pool_index(pool, v) < pool.len() {
        pool
    } else {
        pool.push(v)
    }
}

/// The index of `v` in the constant pool, which gets `v` at its end where it
/// does not hold an equal value yet.
pub fn intern(pool: &mut Vec<Value>, v: Value) -> (r: usize)
    ensures
        r == pool_index(value_views(old(pool)@), v@),
        value_views(final(pool)@) == intern_pool(value_views(old(pool)@), v@),
{
    let ghost views = value_views(pool@);
    let mut i: usize = 0;
    proof {
        assert(views.skip(0) =~= views);
    }
    while i < pool.len()
        invariant
            i <= pool@.len(),
            pool@ == old(pool)@,
            views == value_views(pool@),
            pool_index(views, v@) == i + pool_index(views.skip(i as int), v@),
        decreases pool@.len() - i,
    {
        if pool[i].same(&v) {
            return i;
        }
        proof {
            assert(views.skip(i as int)[0] == views[i as int]);
            assert(views.skip(i as int).skip(1) =~= views.skip(i + 1));
        }
        i += 1;
    }
    pool.push(v);
    proof {
        assert(views.skip(i as int).len() == 0);
        assert(value_views(pool@) =~= views.push(v@));
    }
    i
}

/// Where `pool_index` points inside the pool, the value stands there, and
/// nowhere before.
pub proof fn lemma_pool_index(pool: Seq<ValueView>, v: ValueView)
    ensures
        0 <= pool_index(pool, v) <= pool.len(),
        pool_index(pool, v) < pool.len() ==> pool[pool_index(pool, v)] == v,
        forall|j: int| 0 <= j < pool_index(pool, v) ==> pool[j] != v,
    decreases pool.len(),
{
    if pool.len() > 0 && pool[0] != v {
        let rest = pool.skip(1);
        lemma_pool_index(rest, v);
        assert forall|j: int| 0 <= j < pool_index(pool, v) implies pool[j] != v by {
            if j > 0 {
                assert(rest[j - 1] == pool[j]);
            }
        }
        if pool_index(pool, v) < pool.len() {
            assert(rest[pool_index(rest, v)] == pool[pool_index(pool, v)]);
        }
    }
}

/// The constant pool holds no literal twice: interning keeps what was in the
/// pool at its place, leaves the value at the index that it names, and adds
/// nothing where an equal value was there.
pub proof fn lemma_intern_deduplicates(pool: Seq<ValueView>, v: ValueView)
    ensures
        intern_pool(pool, v).take(pool.len() as int) == pool,
        0 <= pool_index(pool, v) < intern_pool(pool, v).len(),
        intern_pool(pool, v)[pool_index(pool, v)] == v,
        pool.contains(v) ==> intern_pool(pool, v) == pool,
        intern_pool(intern_pool(pool, v), v) == intern_pool(pool, v),
{
    lemma_pool_index(pool, v);
    assert(intern_pool(pool, v).take(pool.len() as int) =~= pool);
    let after = intern_pool(pool, v);
    lemma_pool_index(after, v);
    if pool_index(after, v) >= after.len() {
        assert(after[pool_index(pool, v)] == v);
    }
}

/// The machine's integer for an integer literal: itself where it is not
/// negative, else its two's complement.
pub open spec fn number_bits(n: i64) -> u64 {
    if n >= 0 {
        n as u64
    } else {
        (n + 0x1_0000_0000_0000_0000) as u64
    }
}

/// The machine's integer for an integer literal.
pub fn number_value(n: i64) -> (r: u64)
    ensures
        r == number_bits(n),
{
    if n >= 0 {
        n as u64
    } else {
        u64::MAX - ((-(n + 1)) as u64)
    }
}

/// What is being compiled: the code of the function under way, the constant
/// pool, and the bodies of the lambdas met so far.
pub struct Unit {
    pub code: Vec<OpCode>,
    pub constants: Vec<Value>,
    pub lambdas: Vec<Vec<OpCode>>,
}

/// The content of a [`Unit`].
pub struct UnitView {
    pub code: Seq<OpCode>,
    pub constants: Seq<ValueView>,
    pub lambdas: Seq<Seq<OpCode>>,
}

impl View for Unit {
    type V = UnitView;

    open spec fn view(&self) -> UnitView {
        UnitView {
            code: self.code@,
            constants: value_views(self.constants@),
            lambdas: crate::bytecodevm::program_view(self.lambdas@),
        }
    }
}

impl UnitView {
    /// The same unit with one more instruction.
    pub open spec fn emit(self, op: OpCode) -> UnitView {
        UnitView { code: self.code.push(op), constants: self.constants, lambdas: self.lambdas }
    }

    /// The same unit with other code.
    pub open spec fn with_code(self, code: Seq<OpCode>) -> UnitView {
        UnitView { code, constants: self.constants, lambdas: self.lambdas }
    }

    /// The unit after a constant is loaded: it is interned, and the
    /// instruction names its index.
    pub open spec fn load(self, v: ValueView) -> UnitView {
        UnitView {
            code: self.code.push(OpCode::Constant(pool_index(self.constants, v) as usize)),
            constants: intern_pool(self.constants, v),
            lambdas: self.lambdas,
        }
    }
}

impl ScopeView {
    /// The same bindings with `count` more values on the frame.
    pub open spec fn raised(self, count: nat) -> ScopeView {
        ScopeView { names: self.names, slots: self.slots, height: self.height + count }
    }
}

/// The value of a literal: of a number, float, text or character, and of an
/// array of literals. A character is the integer of its code point.
pub open spec fn literal_spec(e: Expr) -> Option<ValueView>
    decreases e, 0nat,
{
    match e {
        Expr::Number(n) => Some(ValueView::Number(number_bits(n))),
        Expr::Float(bits) => Some(ValueView::Float(bits)),
        Expr::StrLiteral(text) => Some(ValueView::Str(text@)),
        Expr::Char(c) => Some(ValueView::Number(c as u64)),
        Expr::Array(items) => match literals_spec(items@) {
            Some(values) => Some(ValueView::Array(values)),
            None => None,
        },
        _ => None,
    }
}

/// The values of a list of literals, where each is one.
pub open spec fn literals_spec(items: Seq<Rc<Expr>>) -> Option<Seq<ValueView>>
    decreases items, 1nat,
{
    if items.len() == 0 {
        Some(Seq::empty())
    } else {
        match (literals_spec(items.drop_last()), literal_spec(*items.last())) {
            (Some(values), Some(v)) => Some(values.push(v)),
            _ => None,
        }
    }
}

/// The free names so far, with `name` added where it is free: not bound
/// inside the lambda, bound by a local outside it, and not noted yet.
pub open spec fn note_free(
    name: Seq<char>,
    bound: Seq<Seq<char>>,
    outer: Seq<Seq<char>>,
    acc: Seq<Seq<char>>,
) -> Seq<Seq<char>> {
    if last_index(bound, name) is Some || last_index(outer, name) is None || last_index(acc, name)
        is Some {
        acc
    } else {
        acc.push(name)
    }
}

/// The names that `e` uses and that are bound by a local of the enclosing
/// scope `outer`, in the order of their first use, after those of `acc`.
/// `bound` holds the names bound inside the lambda on the way to `e`.
pub open spec fn free_spec(
    e: Expr,
    bound: Seq<Seq<char>>,
    outer: Seq<Seq<char>>,
    acc: Seq<Seq<char>>,
) -> Seq<Seq<char>>
    decreases e, 0nat,
{
    match e {
        Expr::Variable(name) => note_free(name@, bound, outer, acc),
        Expr::Function(callee, args) => free_args_spec(
            args@,
            bound,
            outer,
            free_spec(*callee, bound, outer, acc),
        ),
        Expr::GroupExpr(statements) => free_stmts_spec(statements@, bound, outer, acc).1,
        Expr::Lambda(params, body) => free_spec(*body, bound + name_views(params@), outer, acc),
        Expr::Array(items) => free_args_spec(items@, bound, outer, acc),
        Expr::Case(arms) => free_arms_spec(arms@, bound, outer, acc),
        _ => acc,
    }
}

/// The names that the patterns of an arm bind, in order: a variable its
/// name, a constructor pattern the names of its fields.
pub open spec fn pattern_names(patterns: Seq<CaseExprs>) -> Seq<Seq<char>>
    decreases patterns.len(),
{
    if patterns.len() == 0 {
        Seq::empty()
    } else {
        pattern_names(patterns.drop_last()) + (match patterns.last() {
            CaseExprs::Variable(name) => seq![name@],
            CaseExprs::CaseSplit(_, fields) => name_views(fields@),
        })
    }
}

/// The free names of the arms of a definition by cases, taken in order. The
/// names that the patterns of an arm bind are bound in its body.
pub open spec fn free_arms_spec(
    arms: Seq<(String, Vec<CaseExprs>, Rc<Expr>)>,
    bound: Seq<Seq<char>>,
    outer: Seq<Seq<char>>,
    acc: Seq<Seq<char>>,
) -> Seq<Seq<char>>
    decreases arms, 1nat,
{
    if arms.len() == 0 {
        acc
    } else {
        free_spec(
            *arms.last().2,
            bound + pattern_names(arms.last().1@),
            outer,
            free_arms_spec(arms.drop_last(), bound, outer, acc),
        )
    }
}

/// The free names of a list of expressions, taken in order.
pub open spec fn free_args_spec(
    items: Seq<Rc<Expr>>,
    bound: Seq<Seq<char>>,
    outer: Seq<Seq<char>>,
    acc: Seq<Seq<char>>,
) -> Seq<Seq<char>>
    decreases items, 1nat,
{
    if items.len() == 0 {
        acc
    } else {
        free_spec(*items.last(), bound, outer, free_args_spec(items.drop_last(), bound, outer, acc))
    }
}

/// The names bound after a list of statements, and the free names of the
/// statements. A binding is in sight from the statement after it.
pub open spec fn free_stmts_spec(
    statements: Seq<Rc<Statement>>,
    bound: Seq<Seq<char>>,
    outer: Seq<Seq<char>>,
    acc: Seq<Seq<char>>,
) -> (Seq<Seq<char>>, Seq<Seq<char>>)
    decreases statements, 1nat,
{
    if statements.len() == 0 {
        (bound, acc)
    } else {
        let before = free_stmts_spec(statements.drop_last(), bound, outer, acc);
        match *statements.last() {
            Statement::Return(e) => (before.0, free_spec(e, before.0, outer, before.1)),
            Statement::Assign(name, e) => (
                before.0.push(name@),
                free_spec(e, before.0, outer, before.1),
            ),
        }
    }
}

/// The code that ends a function with `arity` parameters: they are dropped
/// from below the result, and the function returns.
pub open spec fn epilogue(arity: nat) -> Seq<OpCode> {
    if arity > 0 {
        seq![OpCode::Slide(arity as usize), OpCode::Return]
    } else {
        seq![OpCode::Return]
    }
}

/// The scope of a function body: the parameters in the lowest slots, in
/// their order.
pub open spec fn frame_scope(params: Seq<Seq<char>>) -> ScopeView {
    ScopeView {
        names: params,
        slots: Seq::new(params.len(), |i: int| i as usize),
        height: params.len(),
    }
}

/// The code after a call of `name` is emitted, with `count` arguments on
/// the frame. A local or a registered constant is loaded and, where there are
/// arguments, applied to them. A top-level function is called where it gets
/// all its arguments, made a closure where it gets fewer, refused where it
/// gets more. A constructor packs its fields into a record. A builtin is
/// run. An operator takes two arguments.
pub open spec fn call_spec(
    ctx: ContextView,
    scope: ScopeView,
    name: Seq<char>,
    count: nat,
    unit: UnitView,
) -> Result<UnitView, CompileErrorView> {
    match resolve_spec(scope, ctx, name) {
        None => Err(CompileErrorView::UnresolvedName(name)),
        Some(Location::Local(slot)) => Ok(
            applied(unit.emit(OpCode::Local((scope.height - 1 - slot) as usize)), count),
        ),
        Some(Location::Function(index, arity)) => if count == arity {
            Ok(unit.emit(OpCode::CallFunction(index)))
        } else if count < arity {
            Ok(unit.emit(OpCode::MakeClosure(index, (arity - count) as usize, count as usize)))
        } else {
            Err(CompileErrorView::ArityMismatch(name))
        },
        Some(Location::Constructor(tag, fields)) => if count == fields {
            Ok(unit.emit(OpCode::Pack(tag, fields)))
        } else {
            Err(CompileErrorView::ArityMismatch(name))
        },
        Some(Location::Builtin(index)) => Ok(unit.emit(OpCode::CallBuiltin(index))),
        Some(Location::Constant(index)) => Ok(applied(unit.emit(OpCode::Constant(index)), count)),
        Some(Location::Operator(op)) => if count == 2 {
            Ok(unit.emit(opcode_spec(op)))
        } else {
            Err(CompileErrorView::ArityMismatch(name))
        },
        Some(Location::Conditional) => Err(CompileErrorView::ArityMismatch(name)),
    }
}

/// The unit after the value on top of the frame is applied to the `count`
/// arguments below it; nothing is emitted where there are none.
pub open spec fn applied(unit: UnitView, count: nat) -> UnitView {
    if count > 0 {
        unit.emit(OpCode::Apply(count as usize))
    } else {
        unit
    }
}

/// The code that loads the captured locals `names`, one after another,
/// each onto the frame that the one before it has raised.
pub open spec fn loads_spec(scope: ScopeView, names: Seq<Seq<char>>, code: Seq<OpCode>) -> Result<
    Seq<OpCode>,
    CompileErrorView,
>
    decreases names.len(),
{
    if names.len() == 0 {
        Ok(code)
    } else {
        match loads_spec(scope, names.drop_last(), code) {
            Err(e) => Err(e),
            Ok(before) => {
                let height = scope.height + names.len() - 1;
                match last_index(scope.names, names.last()) {
                    None => Err(CompileErrorView::UnresolvedName(names.last())),
                    Some(k) => if height >= usize::MAX {
                        Err(CompileErrorView::TooLarge)
                    } else {
                        Ok(before.push(OpCode::Local((height - 1 - scope.slots[k]) as usize)))
                    },
                }
            },
        }
    }
}

/// Whether `callee` is the conditional: the name `if`, bound to nothing else.
pub open spec fn is_conditional(ctx: ContextView, scope: ScopeView, callee: Expr) -> bool {
    callee matches Expr::Variable(name) && resolve_spec(scope, ctx, name@) == Some(
        Location::Conditional,
    )
}

/// The unit after the code of `e` is emitted. That code leaves one value on
/// the frame and everything below it as it was.
pub open spec fn expr_spec(ctx: ContextView, scope: ScopeView, e: Expr, unit: UnitView) -> Result<
    UnitView,
    CompileErrorView,
>
    decreases e, 0nat,
{
    match e {
        Expr::Variable(name) => call_spec(ctx, scope, name@, 0, unit),
        Expr::Function(callee, args) => {
            if is_conditional(ctx, scope, *callee) {
                if args@.len() != 3 {
                    Err(CompileErrorView::ArityMismatch(callee->Variable_0@))
                } else {
                    match expr_spec(ctx, scope, *args@[0], unit) {
                        Err(err) => Err(err),
                        Ok(tested) => {
                            let branch = tested.code.len() as int;
                            match expr_spec(
                                ctx,
                                scope,
                                *args@[1],
                                tested.emit(OpCode::If(0, 0)),
                            ) {
                                Err(err) => Err(err),
                                Ok(first) => {
                                    let jump = first.code.len() as int;
                                    match expr_spec(
                                        ctx,
                                        scope,
                                        *args@[2],
                                        first.emit(OpCode::Jump(0)),
                                    ) {
                                        Err(err) => Err(err),
                                        Ok(second) => Ok(
                                            second.with_code(
                                                second.code.update(
                                                    branch,
                                                    OpCode::If(
                                                        (branch + 1) as usize,
                                                        (jump + 1) as usize,
                                                    ),
                                                ).update(
                                                    jump,
                                                    OpCode::Jump(second.code.len() as usize),
                                                ),
                                            ),
                                        ),
                                    }
                                },
                            }
                        },
                    }
                }
            } else {
                match args_spec(ctx, scope, args@, unit) {
                    Err(err) => Err(err),
                    Ok(pushed) => match *callee {
                        Expr::Variable(name) => call_spec(
                            ctx,
                            scope.raised(args@.len()),
                            name@,
                            args@.len(),
                            pushed,
                        ),
                        _ => if scope.height + args@.len() >= usize::MAX {
                            Err(CompileErrorView::TooLarge)
                        } else {
                            match expr_spec(ctx, scope.raised(args@.len()), *callee, pushed) {
                                Err(err) => Err(err),
                                Ok(loaded) => Ok(applied(loaded, args@.len())),
                            }
                        },
                    },
                }
            }
        },
        Expr::GroupExpr(statements) => {
            if statements@.len() == 0 {
                Err(CompileErrorView::EmptyBlock)
            } else {
                match stmts_spec(ctx, scope, statements@, unit) {
                    Err(err) => Err(err),
                    Ok((_, done)) => if statements@.len() > 1 {
                        Ok(done.emit(OpCode::Slide((statements@.len() - 1) as usize)))
                    } else {
                        Ok(done)
                    },
                }
            }
        },
        Expr::Lambda(params, body) => {
            let captured = free_spec(*body, name_views(params@), scope.names, Seq::empty());
            let arity = captured.len() + params@.len();
            if arity > usize::MAX {
                Err(CompileErrorView::TooLarge)
            } else {
                match expr_spec(
                    ctx,
                    frame_scope(captured + name_views(params@)),
                    *body,
                    unit.with_code(Seq::empty()),
                ) {
                    Err(err) => Err(err),
                    Ok(inner) => {
                        let index = ctx.first_lambda + inner.lambdas.len();
                        if index > usize::MAX {
                            Err(CompileErrorView::TooLarge)
                        } else {
                            match loads_spec(scope, captured, unit.code) {
                                Err(err) => Err(err),
                                Ok(loaded) => Ok(
                                    UnitView {
                                        code: loaded.push(
                                            OpCode::MakeClosure(
                                                index as usize,
                                                params@.len() as usize,
                                                captured.len() as usize,
                                            ),
                                        ),
                                        constants: inner.constants,
                                        lambdas: inner.lambdas.push(inner.code + epilogue(arity)),
                                    },
                                ),
                            }
                        }
                    },
                }
            }
        },
        Expr::Case(arms) => {
            let captured = free_arms_spec(arms@, Seq::empty(), scope.names, Seq::empty());
            if arms@.len() == 0 {
                Err(CompileErrorView::EmptyCase)
            } else {
                let count = arms@[0].1@.len();
                let arity = captured.len() + count;
                if arity > usize::MAX {
                    Err(CompileErrorView::TooLarge)
                } else {
                    match arms_spec(
                        ctx,
                        case_frame(captured, count),
                        count,
                        arms@,
                        arms@.len(),
                        unit.with_code(Seq::empty()),
                    ) {
                        Err(err) => Err(err),
                        Ok((inner, jumps)) => close_spec(
                            ctx,
                            scope,
                            unit,
                            captured,
                            count,
                            inner.with_code(
                                patch_jumps(inner.code, jumps, inner.code.len()) + epilogue(arity),
                            ),
                        ),
                    }
                }
            }
        },
        _ => match literal_spec(e) {
            Some(v) => Ok(unit.load(v)),
            None => Err(CompileErrorView::NonConstantArray),
        },
    }
}

/// The scope of a function by cases: the captured locals in the lowest
/// slots, and above them the arguments, which have no names.
pub open spec fn case_frame(captured: Seq<Seq<char>>, count: nat) -> ScopeView {
    ScopeView {
        names: captured,
        slots: Seq::new(captured.len(), |i: int| i as usize),
        height: captured.len() + count,
    }
}

/// The unit after a closure is made at this place: the function, whose
/// finished code is the code of `inner`, becomes the last of the lambdas, and
/// the code here loads the captured locals and makes the closure.
pub open spec fn close_spec(
    ctx: ContextView,
    scope: ScopeView,
    unit: UnitView,
    captured: Seq<Seq<char>>,
    declared: nat,
    inner: UnitView,
) -> Result<UnitView, CompileErrorView> {
    let index = ctx.first_lambda + inner.lambdas.len();
    if index > usize::MAX {
        Err(CompileErrorView::TooLarge)
    } else {
        match loads_spec(scope, captured, unit.code) {
            Err(err) => Err(err),
            Ok(loaded) => Ok(
                UnitView {
                    code: loaded.push(
                        OpCode::MakeClosure(
                            index as usize,
                            declared as usize,
                            captured.len() as usize,
                        ),
                    ),
                    constants: inner.constants,
                    lambdas: inner.lambdas.push(inner.code),
                },
            ),
        }
    }
}

/// The code with the branch at each of the places set: it goes on with the
/// next instruction where the test holds, and to `target` where it fails.
pub open spec fn patch_ifs(code: Seq<OpCode>, places: Seq<int>, target: nat) -> Seq<OpCode>
    decreases places.len(),
{
    if places.len() == 0 {
        code
    } else {
        patch_ifs(code, places.drop_last(), target).update(
            places.last(),
            OpCode::If((places.last() + 1) as usize, target as usize),
        )
    }
}

/// The code with the jump at each of the places set to `target`.
pub open spec fn patch_jumps(code: Seq<OpCode>, places: Seq<int>, target: nat) -> Seq<OpCode>
    decreases places.len(),
{
    if places.len() == 0 {
        code
    } else {
        patch_jumps(code, places.drop_last(), target).update(
            places.last(),
            OpCode::Jump(target as usize),
        )
    }
}

/// The scope with `name` bound to a slot that is on the frame already.
pub open spec fn bind_slot(scope: ScopeView, name: Seq<char>, slot: usize) -> ScopeView {
    ScopeView { names: scope.names.push(name), slots: scope.slots.push(slot), height: scope.height }
}

/// The code that tests the arguments of a function by cases against the
/// constructor patterns of an arm, and the places of its branches. The
/// argument that the pattern at `i` looks at is in the slot `first + i`. Each
/// test loads the argument, asks for the tag, and branches; where the branch
/// goes on failure is set later.
pub open spec fn tests_spec(
    ctx: ContextView,
    frame: ScopeView,
    first: nat,
    patterns: Seq<CaseExprs>,
    code: Seq<OpCode>,
) -> Result<(Seq<OpCode>, Seq<int>), CompileErrorView>
    decreases patterns.len(),
{
    if patterns.len() == 0 {
        Ok((code, Seq::empty()))
    } else {
        match tests_spec(ctx, frame, first, patterns.drop_last(), code) {
            Err(err) => Err(err),
            Ok((before, places)) => match patterns.last() {
                CaseExprs::Variable(_) => Ok((before, places)),
                CaseExprs::CaseSplit(constructor, fields) => match last_index(
                    ctx.constructors,
                    constructor@,
                ) {
                    None => Err(CompileErrorView::UnresolvedName(constructor@)),
                    Some(k) => if fields@.len() != ctx.fields[k] {
                        Err(CompileErrorView::ArityMismatch(constructor@))
                    } else {
                        let slot = first + patterns.len() - 1;
                        Ok(
                            (
                                before.push(OpCode::Local((frame.height - 1 - slot) as usize)).push(
                                    OpCode::HasTag(ctx.tags[k]),
                                ).push(OpCode::If(0, 0)),
                                places.push((before.len() + 2) as int),
                            ),
                        )
                    },
                },
            },
        }
    }
}

/// The scope and the code after the fields of the record in the slot
/// `arg` are bound to `fields`: each is loaded from the record and named.
pub open spec fn fields_spec(
    scope: ScopeView,
    arg: nat,
    fields: Seq<Seq<char>>,
    code: Seq<OpCode>,
) -> Result<(ScopeView, Seq<OpCode>), CompileErrorView>
    decreases fields.len(),
{
    if fields.len() == 0 {
        Ok((scope, code))
    } else {
        match fields_spec(scope, arg, fields.drop_last(), code) {
            Err(err) => Err(err),
            Ok((before, loaded)) => if before.height >= usize::MAX {
                Err(CompileErrorView::TooLarge)
            } else {
                Ok(
                    (
                        before.grown().bind_top(fields.last()),
                        loaded.push(OpCode::Local((before.height - 1 - arg) as usize)).push(
                            OpCode::Field(fields.len() as usize),
                        ),
                    ),
                )
            },
        }
    }
}

/// The scope and the code after the patterns of an arm have bound their
/// names: a variable names its argument where it lies, a constructor
/// pattern the fields of the record.
pub open spec fn binds_spec(
    ctx: ContextView,
    frame: ScopeView,
    first: nat,
    patterns: Seq<CaseExprs>,
    code: Seq<OpCode>,
) -> Result<(ScopeView, Seq<OpCode>), CompileErrorView>
    decreases patterns.len(),
{
    if patterns.len() == 0 {
        Ok((frame, code))
    } else {
        match binds_spec(ctx, frame, first, patterns.drop_last(), code) {
            Err(err) => Err(err),
            Ok((scope, before)) => {
                let slot = first + patterns.len() - 1;
                match patterns.last() {
                    CaseExprs::Variable(name) => Ok((bind_slot(scope, name@, slot as usize), before)),
                    CaseExprs::CaseSplit(constructor, fields) => match last_index(
                        ctx.constructors,
                        constructor@,
                    ) {
                        None => Err(CompileErrorView::UnresolvedName(constructor@)),
                        Some(k) => if fields@.len() != ctx.fields[k] {
                            Err(CompileErrorView::ArityMismatch(constructor@))
                        } else {
                            fields_spec(scope, slot as nat, name_views(fields@), before)
                        },
                    },
                }
            },
        }
    }
}

/// The unit after one arm of a function by cases is laid out on a frame
/// that holds `count` arguments on top, and the place of the jump that ends
/// the arm, where it is not the last. An arm that is not the last begins
/// with its tests, whose branches go to the end of the arm on failure, and
/// ends with a jump, whose target is set later. An arm binds its names, runs
/// its body and drops what it has bound from below the body's value.
pub open spec fn arm_spec(
    ctx: ContextView,
    frame: ScopeView,
    count: nat,
    arm: (String, Vec<CaseExprs>, Rc<Expr>),
    last: bool,
    unit: UnitView,
) -> Result<(UnitView, Option<int>), CompileErrorView>
    decreases arm, 0nat,
{
    let first = (frame.height - count) as nat;
    if arm.1@.len() != count {
        Err(CompileErrorView::ArityMismatch(arm.0@))
    } else {
        match (if last {
            Ok((unit.code, Seq::empty()))
        } else {
            tests_spec(ctx, frame, first, arm.1@, unit.code)
        }) {
            Err(err) => Err(err),
            Ok((tested, places)) => match binds_spec(ctx, frame, first, arm.1@, tested) {
                Err(err) => Err(err),
                Ok((scope, bound)) => match expr_spec(ctx, scope, *arm.2, unit.with_code(bound)) {
                    Err(err) => Err(err),
                    Ok(done) => {
                        let held = scope.height - frame.height;
                        let dropped = if held > 0 {
                            done.emit(OpCode::Slide(held as usize))
                        } else {
                            done
                        };
                        if last {
                            Ok((dropped, None))
                        } else {
                            Ok(
                                (
                                    dropped.with_code(
                                        patch_ifs(
                                            dropped.code.push(OpCode::Jump(0)),
                                            places,
                                            (dropped.code.len() + 1) as nat,
                                        ),
                                    ),
                                    Some(dropped.code.len() as int),
                                ),
                            )
                        }
                    },
                },
            },
        }
    }
}

/// The unit after the arms of a function by cases are laid out, one after
/// another, and the places of the jumps that end them. The last of all
/// `total` arms is not tested.
pub open spec fn arms_spec(
    ctx: ContextView,
    frame: ScopeView,
    count: nat,
    arms: Seq<(String, Vec<CaseExprs>, Rc<Expr>)>,
    total: nat,
    unit: UnitView,
) -> Result<(UnitView, Seq<int>), CompileErrorView>
    decreases arms, 1nat,
{
    if arms.len() == 0 {
        Ok((unit, Seq::empty()))
    } else {
        match arms_spec(ctx, frame, count, arms.drop_last(), total, unit) {
            Err(err) => Err(err),
            Ok((before, jumps)) => match arm_spec(
                ctx,
                frame,
                count,
                arms.last(),
                arms.len() == total,
                before,
            ) {
                Err(err) => Err(err),
                Ok((after, Some(jump))) => Ok((after, jumps.push(jump))),
                Ok((after, None)) => Ok((after, jumps)),
            },
        }
    }
}

/// The unit after the code of a list of expressions is emitted, each on
/// the frame that those before it have raised.
pub open spec fn args_spec(
    ctx: ContextView,
    scope: ScopeView,
    items: Seq<Rc<Expr>>,
    unit: UnitView,
) -> Result<UnitView, CompileErrorView>
    decreases items, 1nat,
{
    if items.len() == 0 {
        Ok(unit)
    } else {
        match args_spec(ctx, scope, items.drop_last(), unit) {
            Err(err) => Err(err),
            Ok(before) => if scope.height + items.len() - 1 >= usize::MAX {
                Err(CompileErrorView::TooLarge)
            } else {
                expr_spec(ctx, scope.raised((items.len() - 1) as nat), *items.last(), before)
            },
        }
    }
}

/// The scope and the unit after the code of a list of statements is
/// emitted. Each statement leaves its value on the frame; a binding names
/// that value for the statements after it.
pub open spec fn stmts_spec(
    ctx: ContextView,
    scope: ScopeView,
    statements: Seq<Rc<Statement>>,
    unit: UnitView,
) -> Result<(ScopeView, UnitView), CompileErrorView>
    decreases statements, 1nat,
{
    if statements.len() == 0 {
        Ok((scope, unit))
    } else {
        match stmts_spec(ctx, scope, statements.drop_last(), unit) {
            Err(err) => Err(err),
            Ok((bindings, before)) => if bindings.height >= usize::MAX {
                Err(CompileErrorView::TooLarge)
            } else {
                match *statements.last() {
                    Statement::Return(e) => match expr_spec(ctx, bindings, e, before) {
                        Err(err) => Err(err),
                        Ok(after) => Ok((bindings.grown(), after)),
                    },
                    Statement::Assign(name, e) => match expr_spec(ctx, bindings, e, before) {
                        Err(err) => Err(err),
                        Ok(after) => Ok((bindings.grown().bind_top(name@), after)),
                    },
                }
            },
        }
    }
}

impl Unit {
    /// Appends one instruction to the code under way.
    pub fn emit(&mut self, op: OpCode)
        ensures
            final(self)@ == old(self)@.emit(op),
    {
        self.code.push(op);
    }
}

/// A list of literals that begins with a list that holds something which is
/// no literal holds such a thing.
pub proof fn lemma_literals_prefix(items: Seq<Rc<Expr>>, count: int)
    requires
        0 <= count <= items.len(),
        literals_spec(items.take(count)) is None,
    ensures
        literals_spec(items) is None,
    decreases items.len() - count,
{
    if count < items.len() {
        assert(items.take(count + 1).drop_last() =~= items.take(count));
        lemma_literals_prefix(items, count + 1);
    } else {
        assert(items.take(count) =~= items);
    }
}

/// The value of a literal, where `e` is one.
#[verifier::loop_isolation(false)]
pub fn literal_value(e: &Expr) -> (r: Option<Value>)
    ensures
        match literal_spec(*e) {
            Some(v) => r matches Some(x) && x@ == v,
            None => r is None,
        },
    decreases e,
{
    match e {
        Expr::Number(n) => Some(Value::Number(number_value(*n))),
        Expr::Float(bits) => Some(Value::Float(*bits)),
        Expr::StrLiteral(text) => Some(Value::Str(Rc::new(text.clone()))),
        Expr::Char(c) => Some(Value::Number(*c as u64)),
        Expr::Array(items) => {
            let mut values: Vec<Value> = Vec::new();
            let mut i: usize = 0;
            proof {
                assert(items@.take(0) =~= Seq::<Rc<Expr>>::empty());
                assert(value_views(values@) =~= Seq::<ValueView>::empty());
            }
            while i < items.len()
                invariant
                    i <= items@.len(),
                    literals_spec(items@.take(i as int)) == Some(value_views(values@)),
                decreases items@.len() - i,
            {
                proof {
                    assert(items@.take(i + 1).drop_last() =~= items@.take(i as int));
                }
                let item: &Expr = &items[i];
                match literal_value(item) {
                    Some(v) => {
                        let ghost before = value_views(values@);
                        values.push(v);
                        proof {
                            assert(value_views(values@) =~= before.push(v@));
                        }
                    },
                    None => {
                        proof {
                            lemma_literals_prefix(items@, i + 1);
                        }
                        return None;
                    },
                }
                i += 1;
            }
            proof {
                assert(items@.take(i as int) =~= items@);
                crate::values::lemma_array_view(Rc::new(values));
                assert(values@.map_values(|v: Value| v@) =~= value_views(values@));
            }
            Some(Value::Array(Rc::new(values)))
        },
        _ => None,
    }
}

/// Notes `name` as free where it is: not bound inside the lambda, bound by
/// a local outside it, and not noted yet.
fn note_name(name: &String, bound: &Vec<String>, outer: &Vec<String>, acc: &mut Vec<String>)
    ensures
        name_views(final(acc)@) == note_free(
            name@,
            name_views(bound@),
            name_views(outer@),
            name_views(old(acc)@),
        ),
{
    if find_last(bound, name).is_some() || find_last(outer, name).is_none() || find_last(
        acc,
        name,
    ).is_some() {
        return ;
    }
    let ghost before = name_views(acc@);
    acc.push(name.clone());
    proof {
        assert(name_views(acc@) =~= before.push(name@));
    }
}

/// Adds to `acc` the names that `e` uses and that a local of the enclosing
/// scope `outer` binds, in the order of their first use. `bound` holds the
/// names bound inside the lambda on the way to `e`, and is left as it was.
#[verifier::loop_isolation(false)]
pub fn collect_free(e: &Expr, bound: &mut Vec<String>, outer: &Vec<String>, acc: &mut Vec<String>)
    ensures
        name_views(final(acc)@) == free_spec(
            *e,
            name_views(old(bound)@),
            name_views(outer@),
            name_views(old(acc)@),
        ),
        final(bound)@ == old(bound)@,
    decreases e,
{
    match e {
        Expr::Variable(name) => note_name(name, bound, outer, acc),
        Expr::Function(callee, args) => {
            let target: &Expr = callee;
            collect_free(target, bound, outer, acc);
            collect_free_args(args, bound, outer, acc);
        },
        Expr::GroupExpr(statements) => {
            let depth = bound.len();
            let ghost start = name_views(acc@);
            let ghost names = name_views(bound@);
            let mut i: usize = 0;
            proof {
                assert(statements@.take(0) =~= Seq::<Rc<Statement>>::empty());
            }
            while i < statements.len()
                invariant
                    i <= statements@.len(),
                    depth <= bound@.len(),
                    bound@.take(depth as int) == old(bound)@,
                    free_stmts_spec(statements@.take(i as int), names, name_views(outer@), start)
                        == (name_views(bound@), name_views(acc@)),
                decreases statements@.len() - i,
            {
                proof {
                    assert(statements@.take(i + 1).drop_last() =~= statements@.take(i as int));
                }
                let statement: &Statement = &statements[i];
                match statement {
                    Statement::Return(value) => {
                        collect_free(value, bound, outer, acc);
                    },
                    Statement::Assign(name, value) => {
                        collect_free(value, bound, outer, acc);
                        let ghost before = name_views(bound@);
                        bound.push(name.clone());
                        proof {
                            assert(name_views(bound@) =~= before.push(name@));
                            assert(bound@.take(depth as int) =~= old(bound)@);
                        }
                    },
                }
                i += 1;
            }
            proof {
                assert(statements@.take(i as int) =~= statements@);
            }
            bound.truncate(depth);
        },
        Expr::Lambda(params, body) => {
            let depth = bound.len();
            let ghost names = name_views(bound@);
            let mut i: usize = 0;
            while i < params.len()
                invariant
                    i <= params@.len(),
                    bound@.len() == depth + i,
                    bound@.take(depth as int) == old(bound)@,
                    name_views(bound@) == names + name_views(params@).take(i as int),
                    acc@ == old(acc)@,
                decreases params@.len() - i,
            {
                let ghost before = name_views(bound@);
                bound.push(params[i].clone());
                proof {
                    assert(name_views(bound@) =~= before.push(params@[i as int]@));
                    assert(name_views(bound@) =~= names + name_views(params@).take(i + 1));
                    assert(bound@.take(depth as int) =~= old(bound)@);
                }
                i += 1;
            }
            proof {
                assert(name_views(params@).take(i as int) =~= name_views(params@));
            }
            let inner: &Expr = body;
            collect_free(inner, bound, outer, acc);
            bound.truncate(depth);
        },
        Expr::Array(items) => collect_free_args(items, bound, outer, acc),
        Expr::Case(arms) => collect_free_arms(arms, bound, outer, acc),
        _ => {},
    }
}

/// Adds to `bound` the names that the patterns of an arm bind.
#[verifier::loop_isolation(false)]
fn push_pattern_names(patterns: &Vec<CaseExprs>, bound: &mut Vec<String>)
    ensures
        name_views(final(bound)@) == name_views(old(bound)@) + pattern_names(patterns@),
        old(bound)@.len() <= final(bound)@.len(),
        final(bound)@.take(old(bound)@.len() as int) == old(bound)@,
{
    let ghost start = name_views(bound@);
    let depth = bound.len();
    let mut i: usize = 0;
    proof {
        assert(patterns@.take(0) =~= Seq::<CaseExprs>::empty());
        assert(start + pattern_names(patterns@.take(0)) =~= start);
        assert(bound@.take(depth as int) =~= old(bound)@);
    }
    while i < patterns.len()
        invariant
            i <= patterns@.len(),
            depth <= bound@.len(),
            bound@.take(depth as int) == old(bound)@,
            name_views(bound@) == start + pattern_names(patterns@.take(i as int)),
        decreases patterns@.len() - i,
    {
        proof {
            assert(patterns@.take(i + 1).drop_last() =~= patterns@.take(i as int));
            assert(patterns@.take(i + 1).last() == patterns@[i as int]);
        }
        let ghost before = name_views(bound@);
        let ghost so_far = pattern_names(patterns@.take(i as int));
        match &patterns[i] {
            CaseExprs::Variable(name) => {
                bound.push(name.clone());
                proof {
                    assert(name_views(bound@) =~= before.push(name@));
                    assert(name_views(bound@) =~= start + (so_far + seq![name@]));
                    assert(bound@.take(depth as int) =~= old(bound)@);
                }
            },
            CaseExprs::CaseSplit(_, fields) => {
                let mut j: usize = 0;
                while j < fields.len()
                    invariant
                        j <= fields@.len(),
                        depth <= bound@.len(),
                        bound@.take(depth as int) == old(bound)@,
                        name_views(bound@) == before + name_views(fields@).take(j as int),
                    decreases fields@.len() - j,
                {
                    let ghost held = name_views(bound@);
                    bound.push(fields[j].clone());
                    proof {
                        assert(name_views(bound@) =~= held.push(fields@[j as int]@));
                        assert(name_views(bound@) =~= before + name_views(fields@).take(j + 1));
                        assert(bound@.take(depth as int) =~= old(bound)@);
                    }
                    j += 1;
                }
                proof {
                    assert(name_views(fields@).take(j as int) =~= name_views(fields@));
                    assert(name_views(bound@) =~= start + (so_far + name_views(fields@)));
                }
            },
        }
        i += 1;
    }
    proof {
        assert(patterns@.take(i as int) =~= patterns@);
    }
}

/// Adds to `acc` the free names of the arms of a definition by cases.
#[verifier::loop_isolation(false)]
fn collect_free_arms(
    arms: &Vec<(String, Vec<CaseExprs>, Rc<Expr>)>,
    bound: &mut Vec<String>,
    outer: &Vec<String>,
    acc: &mut Vec<String>,
)
    ensures
        name_views(final(acc)@) == free_arms_spec(
            arms@,
            name_views(old(bound)@),
            name_views(outer@),
            name_views(old(acc)@),
        ),
        final(bound)@ == old(bound)@,
    decreases arms,
{
    let mut i: usize = 0;
    proof {
        assert(arms@.take(0) =~= Seq::<(String, Vec<CaseExprs>, Rc<Expr>)>::empty());
    }
    while i < arms.len()
        invariant
            i <= arms@.len(),
            bound@ == old(bound)@,
            name_views(acc@) == free_arms_spec(
                arms@.take(i as int),
                name_views(old(bound)@),
                name_views(outer@),
                name_views(old(acc)@),
            ),
        decreases arms@.len() - i,
    {
        proof {
            assert(arms@.take(i + 1).drop_last() =~= arms@.take(i as int));
            assert(arms@.take(i + 1).last() == arms@[i as int]);
        }
        let depth = bound.len();
        let arm = &arms[i];
        push_pattern_names(&arm.1, bound);
        let body: &Expr = &arm.2;
        collect_free(body, bound, outer, acc);
        bound.truncate(depth);
        i += 1;
    }
    proof {
        assert(arms@.take(i as int) =~= arms@);
    }
}

/// Adds to `acc` the free names of a list of expressions, taken in order.
#[verifier::loop_isolation(false)]
fn collect_free_args(
    items: &Vec<Rc<Expr>>,
    bound: &mut Vec<String>,
    outer: &Vec<String>,
    acc: &mut Vec<String>,
)
    ensures
        name_views(final(acc)@) == free_args_spec(
            items@,
            name_views(old(bound)@),
            name_views(outer@),
            name_views(old(acc)@),
        ),
        final(bound)@ == old(bound)@,
    decreases items,
{
    let mut i: usize = 0;
    proof {
        assert(items@.take(0) =~= Seq::<Rc<Expr>>::empty());
    }
    while i < items.len()
        invariant
            i <= items@.len(),
            bound@ == old(bound)@,
            name_views(acc@) == free_args_spec(
                items@.take(i as int),
                name_views(old(bound)@),
                name_views(outer@),
                name_views(old(acc)@),
            ),
        decreases items@.len() - i,
    {
        proof {
            assert(items@.take(i + 1).drop_last() =~= items@.take(i as int));
        }
        let item: &Expr = &items[i];
        collect_free(item, bound, outer, acc);
        i += 1;
    }
    proof {
        assert(items@.take(i as int) =~= items@);
    }
}

/// What a compiling function owes: on success the unit that the spec
/// function names, on failure the spec function's error.
pub open spec fn meets(
    expected: Result<UnitView, CompileErrorView>,
    r: Result<(), CompileError>,
    unit: UnitView,
) -> bool {
    match expected {
        Ok(u) => r is Ok && unit == u,
        Err(err) => r matches Err(x) && x@ == err,
    }
}

/// A list of expressions that begins with a list whose code is refused is
/// refused for the same reason.
pub proof fn lemma_args_prefix_error(
    ctx: ContextView,
    scope: ScopeView,
    items: Seq<Rc<Expr>>,
    unit: UnitView,
    count: int,
)
    requires
        0 <= count <= items.len(),
        args_spec(ctx, scope, items.take(count), unit) is Err,
    ensures
        args_spec(ctx, scope, items, unit) == args_spec(ctx, scope, items.take(count), unit),
    decreases items.len() - count,
{
    if count < items.len() {
        assert(items.take(count + 1).drop_last() =~= items.take(count));
        lemma_args_prefix_error(ctx, scope, items, unit, count + 1);
    } else {
        assert(items.take(count) =~= items);
    }
}

/// A list of statements that begins with a list whose code is refused is
/// refused for the same reason.
pub proof fn lemma_stmts_prefix_error(
    ctx: ContextView,
    scope: ScopeView,
    statements: Seq<Rc<Statement>>,
    unit: UnitView,
    count: int,
)
    requires
        0 <= count <= statements.len(),
        stmts_spec(ctx, scope, statements.take(count), unit) is Err,
    ensures
        stmts_spec(ctx, scope, statements, unit) == stmts_spec(
            ctx,
            scope,
            statements.take(count),
            unit,
        ),
    decreases statements.len() - count,
{
    if count < statements.len() {
        assert(statements.take(count + 1).drop_last() =~= statements.take(count));
        lemma_stmts_prefix_error(ctx, scope, statements, unit, count + 1);
    } else {
        assert(statements.take(count) =~= statements);
    }
}

/// A list of captured names that begins with a list whose loads are refused
/// is refused for the same reason.
pub proof fn lemma_loads_prefix_error(
    scope: ScopeView,
    names: Seq<Seq<char>>,
    code: Seq<OpCode>,
    count: int,
)
    requires
        0 <= count <= names.len(),
        loads_spec(scope, names.take(count), code) is Err,
    ensures
        loads_spec(scope, names, code) == loads_spec(scope, names.take(count), code),
    decreases names.len() - count,
{
    if count < names.len() {
        assert(names.take(count + 1).drop_last() =~= names.take(count));
        lemma_loads_prefix_error(scope, names, code, count + 1);
    } else {
        assert(names.take(count) =~= names);
    }
}

/// Emits the call of `name` with `count` arguments on the frame.
fn compile_call<B>(
    globals: &Globals,
    registry: &BuiltinMaps<B>,
    scope: &Scope,
    name: &String,
    count: usize,
    unit: &mut Unit,
) -> (r: Result<(), CompileError>)
    requires
        scope@.well_formed(),
        context_of(globals, registry).well_formed(),
    ensures
        meets(
            call_spec(context_of(globals, registry), scope@, name@, count as nat, old(unit)@),
            r,
            final(unit)@,
        ),
{
    proof {
        crate::names::lemma_last_index(scope@.names, name@);
    }
    match resolve(scope, globals, registry, name) {
        None => Err(CompileError::UnresolvedName(name.clone())),
        Some(Location::Local(slot)) => {
            unit.emit(OpCode::Local(scope.height - 1 - slot));
            if count > 0 {
                unit.emit(OpCode::Apply(count));
            }
            Ok(())
        },
        Some(Location::Function(index, arity)) => {
            if count == arity {
                unit.emit(OpCode::CallFunction(index));
                Ok(())
            } else if count < arity {
                unit.emit(OpCode::MakeClosure(index, arity - count, count));
                Ok(())
            } else {
                Err(CompileError::ArityMismatch(name.clone()))
            }
        },
        Some(Location::Constructor(tag, fields)) => {
            if count == fields {
                unit.emit(OpCode::Pack(tag, fields));
                Ok(())
            } else {
                Err(CompileError::ArityMismatch(name.clone()))
            }
        },
        Some(Location::Builtin(index)) => {
            unit.emit(OpCode::CallBuiltin(index));
            Ok(())
        },
        Some(Location::Constant(index)) => {
            unit.emit(OpCode::Constant(index));
            if count > 0 {
                unit.emit(OpCode::Apply(count));
            }
            Ok(())
        },
        Some(Location::Operator(op)) => {
            if count == 2 {
                unit.emit(opcode_of(op));
                Ok(())
            } else {
                Err(CompileError::ArityMismatch(name.clone()))
            }
        },
        Some(Location::Conditional) => Err(CompileError::ArityMismatch(name.clone())),
    }
}

/// Emits the loads of the captured locals `names`.
fn emit_loads(scope: &Scope, names: &Vec<String>, code: &mut Vec<OpCode>) -> (r: Result<
    (),
    CompileError,
>)
    requires
        scope@.well_formed(),
    ensures
        match loads_spec(scope@, name_views(names@), old(code)@) {
            Ok(c) => r is Ok && final(code)@ == c,
            Err(err) => r matches Err(x) && x@ == err,
        },
{
    let ghost all = name_views(names@);
    let mut i: usize = 0;
    proof {
        assert(all.take(0) =~= Seq::<Seq<char>>::empty());
    }
    while i < names.len()
        invariant
            i <= names@.len(),
            all == name_views(names@),
            scope@.well_formed(),
            loads_spec(scope@, all.take(i as int), old(code)@) == Ok::<
                Seq<OpCode>,
                CompileErrorView,
            >(code@),
        decreases names@.len() - i,
    {
        proof {
            assert(all.take(i + 1).drop_last() =~= all.take(i as int));
            assert(all.take(i + 1).last() == names@[i as int]@);
            crate::names::lemma_last_index(scope@.names, names@[i as int]@);
        }
        let slot = match find_last(&scope.names, &names[i]) {
            Some(k) => scope.slots[k],
            None => {
                proof {
                    lemma_loads_prefix_error(scope@, all, old(code)@, i + 1);
                }
                return Err(CompileError::UnresolvedName(names[i].clone()));
            },
        };
        let height = match scope.height.checked_add(i) {
            Some(h) => h,
            None => {
                proof {
                    lemma_loads_prefix_error(scope@, all, old(code)@, i + 1);
                }
                return Err(CompileError::TooLarge);
            },
        };
        if height >= usize::MAX {
            proof {
                lemma_loads_prefix_error(scope@, all, old(code)@, i + 1);
            }
            return Err(CompileError::TooLarge);
        }
        code.push(OpCode::Local(height - 1 - slot));
        i += 1;
    }
    proof {
        assert(all.take(i as int) =~= all);
    }
    Ok(())
}

/// The scope of a function body with the parameters `first` followed by
/// `second`; `None` where they are more than can be counted.
pub fn frame_for(first: &Vec<String>, second: &Vec<String>) -> (r: Option<Scope>)
    ensures
        r is Some <==> first@.len() + second@.len() <= usize::MAX,
        r matches Some(scope) ==> scope@ == frame_scope(name_views(first@) + name_views(second@))
            && scope@.well_formed(),
{
    let total = match first.len().checked_add(second.len()) {
        Some(total) => total,
        None => {
            return None;
        },
    };
    let mut names: Vec<String> = Vec::new();
    let mut slots: Vec<usize> = Vec::new();
    let ghost wanted = name_views(first@) + name_views(second@);
    let mut i: usize = 0;
    while i < first.len()
        invariant
            i <= first@.len(),
            names@.len() == i,
            slots@.len() == i,
            forall|k: int| 0 <= k < i ==> (#[trigger] names@[k])@ == first@[k]@,
            forall|k: int| 0 <= k < i ==> #[trigger] slots@[k] == k,
        decreases first@.len() - i,
    {
        names.push(first[i].clone());
        slots.push(i);
        i += 1;
    }
    let mut j: usize = 0;
    while j < second.len()
        invariant
            j <= second@.len(),
            total == first@.len() + second@.len(),
            names@.len() == first@.len() + j,
            slots@.len() == first@.len() + j,
            forall|k: int| 0 <= k < first@.len() ==> (#[trigger] names@[k])@ == first@[k]@,
            forall|k: int|
                first@.len() <= k < first@.len() + j ==> (#[trigger] names@[k])@ == second@[k
                    - first@.len()]@,
            forall|k: int| 0 <= k < first@.len() + j ==> #[trigger] slots@[k] == k,
        decreases second@.len() - j,
    {
        names.push(second[j].clone());
        slots.push(first.len() + j);
        j += 1;
    }
    let scope = Scope { names, slots, height: total };
    proof {
        assert(scope@.names =~= wanted);
        assert(scope@.slots =~= frame_scope(wanted).slots);
    }
    Some(scope)
}

/// The expression behind a shared reference.
pub open spec fn expr_of(e: Rc<Expr>) -> Expr {
    *e
}

/// The statement behind a shared reference.
pub open spec fn statement_of(s: Rc<Statement>) -> Statement {
    *s
}

/// `later` holds everything that `earlier` holds, at the same places:
/// instructions, constants and lambdas have only been added.
pub open spec fn extends(earlier: UnitView, later: UnitView) -> bool {
    &&& earlier.code.len() <= later.code.len()
    &&& later.code.take(earlier.code.len() as int) == earlier.code
    &&& earlier.constants.len() <= later.constants.len()
    &&& later.constants.take(earlier.constants.len() as int) == earlier.constants
    &&& earlier.lambdas.len() <= later.lambdas.len()
    &&& later.lambdas.take(earlier.lambdas.len() as int) == earlier.lambdas
}

/// Extending is transitive.
pub proof fn lemma_extends_transitive(a: UnitView, b: UnitView, c: UnitView)
    requires
        extends(a, b),
        extends(b, c),
    ensures
        extends(a, c),
{
    assert(c.code.take(a.code.len() as int) =~= b.code.take(a.code.len() as int));
    assert(c.constants.take(a.constants.len() as int) =~= b.constants.take(
        a.constants.len() as int,
    ));
    assert(c.lambdas.take(a.lambdas.len() as int) =~= b.lambdas.take(a.lambdas.len() as int));
}

/// The loads of captured locals are appended to the code.
pub proof fn lemma_loads_extend(scope: ScopeView, names: Seq<Seq<char>>, code: Seq<OpCode>)
    ensures
        loads_spec(scope, names, code) matches Ok(c) ==> c.len() == code.len() + names.len()
            && c.take(code.len() as int) == code,
    decreases names.len(),
{
    if names.len() > 0 {
        lemma_loads_extend(scope, names.drop_last(), code);
        if let Ok(c) = loads_spec(scope, names, code) {
            let before = loads_spec(scope, names.drop_last(), code)->Ok_0;
            assert(c.take(code.len() as int) =~= before.take(code.len() as int));
        }
    } else {
        assert(code.take(code.len() as int) =~= code);
    }
}

/// Compiling an expression only adds: the code, the constants and the
/// lambdas that were there stay where they were.
pub proof fn lemma_expr_extends(ctx: ContextView, scope: ScopeView, e: Expr, unit: UnitView)
    ensures
        expr_spec(ctx, scope, e, unit) matches Ok(u) ==> extends(unit, u),
    decreases e, 0nat,
{
    let result = expr_spec(ctx, scope, e, unit);
    assert(unit.code.take(unit.code.len() as int) =~= unit.code);
    assert(unit.constants.take(unit.constants.len() as int) =~= unit.constants);
    assert(unit.lambdas.take(unit.lambdas.len() as int) =~= unit.lambdas);
    if result is Ok {
        let u = result->Ok_0;
        match e {
            Expr::Variable(name) => {
                assert(u.code.take(unit.code.len() as int) =~= unit.code);
            },
            Expr::Function(callee, args) => {
                if is_conditional(ctx, scope, expr_of(callee)) {
                    let tested = expr_spec(ctx, scope, expr_of(args@[0]), unit)->Ok_0;
                    let branched = tested.emit(OpCode::If(0, 0));
                    let first = expr_spec(ctx, scope, expr_of(args@[1]), branched)->Ok_0;
                    let jumped = first.emit(OpCode::Jump(0));
                    let second = expr_spec(ctx, scope, expr_of(args@[2]), jumped)->Ok_0;
                    lemma_expr_extends(ctx, scope, expr_of(args@[0]), unit);
                    lemma_expr_extends(ctx, scope, expr_of(args@[1]), branched);
                    lemma_expr_extends(ctx, scope, expr_of(args@[2]), jumped);
                    assert(extends(tested, branched)) by {
                        assert(branched.code.take(tested.code.len() as int) =~= tested.code);
                        assert(tested.constants.take(tested.constants.len() as int)
                            =~= tested.constants);
                        assert(tested.lambdas.take(tested.lambdas.len() as int) =~= tested.lambdas);
                    }
                    assert(extends(first, jumped)) by {
                        assert(jumped.code.take(first.code.len() as int) =~= first.code);
                        assert(first.constants.take(first.constants.len() as int)
                            =~= first.constants);
                        assert(first.lambdas.take(first.lambdas.len() as int) =~= first.lambdas);
                    }
                    lemma_extends_transitive(unit, tested, branched);
                    lemma_extends_transitive(unit, branched, first);
                    lemma_extends_transitive(unit, first, jumped);
                    lemma_extends_transitive(unit, jumped, second);
                    assert(u.code.take(unit.code.len() as int) =~= second.code.take(
                        unit.code.len() as int,
                    ));
                } else {
                    lemma_args_extend(ctx, scope, args@, unit);
                    let pushed = args_spec(ctx, scope, args@, unit)->Ok_0;
                    match expr_of(callee) {
                        Expr::Variable(name) => {
                            assert(u.code.take(pushed.code.len() as int) =~= pushed.code);
                            assert(pushed.constants.take(pushed.constants.len() as int)
                                =~= pushed.constants);
                            assert(pushed.lambdas.take(pushed.lambdas.len() as int)
                                =~= pushed.lambdas);
                            lemma_extends_transitive(unit, pushed, u);
                        },
                        _ => {
                            let raised = scope.raised(args@.len());
                            lemma_expr_extends(ctx, raised, expr_of(callee), pushed);
                            let loaded = expr_spec(ctx, raised, expr_of(callee), pushed)->Ok_0;
                            assert(u.code.take(loaded.code.len() as int) =~= loaded.code);
                            assert(loaded.constants.take(loaded.constants.len() as int)
                                =~= loaded.constants);
                            assert(loaded.lambdas.take(loaded.lambdas.len() as int)
                                =~= loaded.lambdas);
                            lemma_extends_transitive(unit, pushed, loaded);
                            lemma_extends_transitive(unit, loaded, u);
                        },
                    }
                }
            },
            Expr::GroupExpr(statements) => {
                lemma_stmts_extend(ctx, scope, statements@, unit);
                let done = stmts_spec(ctx, scope, statements@, unit)->Ok_0.1;
                assert(u.code.take(done.code.len() as int) =~= done.code);
                assert(done.constants.take(done.constants.len() as int) =~= done.constants);
                assert(done.lambdas.take(done.lambdas.len() as int) =~= done.lambdas);
                lemma_extends_transitive(unit, done, u);
            },
            Expr::Lambda(params, body) => {
                let captured = free_spec(expr_of(body), name_views(params@), scope.names, Seq::empty());
                let start = unit.with_code(Seq::empty());
                let frame = frame_scope(captured + name_views(params@));
                lemma_expr_extends(ctx, frame, expr_of(body), start);
                let inner = expr_spec(ctx, frame, expr_of(body), start)->Ok_0;
                lemma_loads_extend(scope, captured, unit.code);
                let loaded = loads_spec(scope, captured, unit.code)->Ok_0;
                assert(u.code.take(unit.code.len() as int) =~= loaded.take(unit.code.len() as int));
                assert(u.lambdas.take(unit.lambdas.len() as int) =~= inner.lambdas.take(
                    unit.lambdas.len() as int,
                ));
            },
            Expr::Case(arms) => {
                let captured = free_arms_spec(arms@, Seq::empty(), scope.names, Seq::empty());
                let count = arms@[0].1@.len();
                let start = unit.with_code(Seq::empty());
                lemma_arms_grow(
                    ctx,
                    case_frame(captured, count),
                    count,
                    arms@,
                    arms@.len(),
                    start,
                );
                let found = arms_spec(
                    ctx,
                    case_frame(captured, count),
                    count,
                    arms@,
                    arms@.len(),
                    start,
                )->Ok_0;
                lemma_loads_extend(scope, captured, unit.code);
                let loaded = loads_spec(scope, captured, unit.code)->Ok_0;
                assert(u.code.take(unit.code.len() as int) =~= loaded.take(unit.code.len() as int));
                assert(u.lambdas.take(unit.lambdas.len() as int) =~= found.0.lambdas.take(
                    unit.lambdas.len() as int,
                ));
            },
            _ => {
                let v = literal_spec(e)->Some_0;
                lemma_intern_deduplicates(unit.constants, v);
                assert(u.code.take(unit.code.len() as int) =~= unit.code);
            },
        }
    }
}

/// The constants and the lambdas that `earlier` holds are in `later`, at
/// the same places, and `later` has no less code.
pub open spec fn grows(earlier: UnitView, later: UnitView) -> bool {
    &&& earlier.code.len() <= later.code.len()
    &&& earlier.constants.len() <= later.constants.len()
    &&& later.constants.take(earlier.constants.len() as int) == earlier.constants
    &&& earlier.lambdas.len() <= later.lambdas.len()
    &&& later.lambdas.take(earlier.lambdas.len() as int) == earlier.lambdas
}

/// Growing is transitive.
pub proof fn lemma_grows_transitive(a: UnitView, b: UnitView, c: UnitView)
    requires
        grows(a, b),
        grows(b, c),
    ensures
        grows(a, c),
{
    assert(c.constants.take(a.constants.len() as int) =~= b.constants.take(
        a.constants.len() as int,
    ));
    assert(c.lambdas.take(a.lambdas.len() as int) =~= b.lambdas.take(a.lambdas.len() as int));
}

/// Setting branches keeps the length of the code.
pub proof fn lemma_patch_ifs_len(code: Seq<OpCode>, places: Seq<int>, target: nat)
    requires
        forall|i: int| 0 <= i < places.len() ==> 0 <= #[trigger] places[i] < code.len(),
    ensures
        patch_ifs(code, places, target).len() == code.len(),
    decreases places.len(),
{
    if places.len() > 0 {
        let shorter = places.drop_last();
        assert forall|i: int| 0 <= i < shorter.len() implies 0 <= #[trigger] shorter[i]
            < code.len() by {
            assert(shorter[i] == places[i]);
        }
        lemma_patch_ifs_len(code, shorter, target);
    }
}

/// The tests of an arm are appended to the code, three instructions for
/// each constructor pattern, and each branch lies in what was appended.
pub proof fn lemma_tests_shape(
    ctx: ContextView,
    frame: ScopeView,
    first: nat,
    patterns: Seq<CaseExprs>,
    code: Seq<OpCode>,
)
    ensures
        tests_spec(ctx, frame, first, patterns, code) matches Ok(found) ==> {
            &&& code.len() <= found.0.len()
            &&& found.0.take(code.len() as int) == code
            &&& forall|i: int|
                0 <= i < found.1.len() ==> code.len() <= #[trigger] found.1[i] < found.0.len()
                    && found.0[found.1[i]] == OpCode::If(0, 0)
            &&& forall|i: int|
                code.len() <= i < found.0.len() ==> (#[trigger] found.0[i] is Local || found.0[i]
                    is HasTag || found.0[i] == OpCode::If(0, 0))
        },
    decreases patterns.len(),
{
    assert(code.take(code.len() as int) =~= code);
    if patterns.len() > 0 {
        lemma_tests_shape(ctx, frame, first, patterns.drop_last(), code);
        if let Ok(found) = tests_spec(ctx, frame, first, patterns, code) {
            let before = tests_spec(ctx, frame, first, patterns.drop_last(), code)->Ok_0;
            assert(found.0.take(code.len() as int) =~= before.0.take(code.len() as int));
            assert forall|i: int| 0 <= i < found.1.len() implies code.len() <= #[trigger] found.1[i]
                < found.0.len() && found.0[found.1[i]] == OpCode::If(0, 0) by {
                if i < before.1.len() {
                    assert(found.1[i] == before.1[i]);
                }
            }
        }
    }
}

/// Binding the fields of a record appends two instructions for each field,
/// raises the frame by one value for each, and keeps the bindings that were
/// there.
pub proof fn lemma_fields_shape(
    scope: ScopeView,
    arg: nat,
    fields: Seq<Seq<char>>,
    code: Seq<OpCode>,
)
    ensures
        fields_spec(scope, arg, fields, code) matches Ok(found) ==> {
            &&& scope.well_formed() ==> found.0.well_formed()
            &&& found.0.height == scope.height + fields.len()
            &&& found.1.len() == code.len() + 2 * fields.len()
            &&& found.1.take(code.len() as int) == code
            &&& forall|i: int|
                code.len() <= i < found.1.len() ==> (#[trigger] found.1[i] is Local || found.1[i]
                    is Field)
        },
    decreases fields.len(),
{
    assert(code.take(code.len() as int) =~= code);
    if fields.len() > 0 {
        lemma_fields_shape(scope, arg, fields.drop_last(), code);
        if let Ok(found) = fields_spec(scope, arg, fields, code) {
            let before = fields_spec(scope, arg, fields.drop_last(), code)->Ok_0;
            assert(found.1.take(code.len() as int) =~= before.1.take(code.len() as int));
            if scope.well_formed() {
                assert forall|i: int| 0 <= i < found.0.slots.len() implies found.0.slots[i]
                    < found.0.height by {
                    if i < before.0.slots.len() {
                        assert(found.0.slots[i] == before.0.slots[i]);
                    }
                }
            }
        }
    }
}

/// Binding the names of the patterns of an arm only appends loads of
/// fields, raises the frame by what it loads, keeps it well-formed, and
/// keeps the bindings that were there.
pub proof fn lemma_binds_shape(
    ctx: ContextView,
    frame: ScopeView,
    first: nat,
    patterns: Seq<CaseExprs>,
    code: Seq<OpCode>,
)
    ensures
        binds_spec(ctx, frame, first, patterns, code) matches Ok(found) ==> {
            &&& (frame.well_formed() && first + patterns.len() <= frame.height && frame.height
                <= usize::MAX) ==> found.0.well_formed()
            &&& frame.height <= found.0.height
            &&& code.len() <= found.1.len()
            &&& found.1.take(code.len() as int) == code
            &&& forall|i: int|
                code.len() <= i < found.1.len() ==> (#[trigger] found.1[i] is Local || found.1[i]
                    is Field)
        },
    decreases patterns.len(),
{
    assert(code.take(code.len() as int) =~= code);
    if patterns.len() > 0 {
        lemma_binds_shape(ctx, frame, first, patterns.drop_last(), code);
        if let Ok(found) = binds_spec(ctx, frame, first, patterns, code) {
            let before = binds_spec(ctx, frame, first, patterns.drop_last(), code)->Ok_0;
            let slot = (first + patterns.len() - 1) as nat;
            match patterns.last() {
                CaseExprs::Variable(name) => {
                    assert(found.1 == before.1);
                    if frame.well_formed() && first + patterns.len() <= frame.height
                        && frame.height <= usize::MAX {
                        assert forall|i: int| 0 <= i < found.0.slots.len() implies found.0.slots[i]
                            < found.0.height by {
                            if i < before.0.slots.len() {
                                assert(found.0.slots[i] == before.0.slots[i]);
                            }
                        }
                    }
                },
                CaseExprs::CaseSplit(constructor, fields) => {
                    lemma_fields_shape(before.0, slot, name_views(fields@), before.1);
                    assert forall|i: int| 0 <= i < code.len() implies found.1[i] == code[i] by {
                        assert(found.1.take(before.1.len() as int)[i] == found.1[i]);
                        assert(before.1.take(code.len() as int)[i] == before.1[i]);
                    }
                    assert(found.1.take(code.len() as int) =~= code);
                    assert forall|i: int| code.len() <= i < found.1.len() implies (
                    #[trigger] found.1[i] is Local || found.1[i] is Field) by {
                        if i < before.1.len() {
                            assert(found.1.take(before.1.len() as int)[i] == found.1[i]);
                            assert(before.1[i] is Local || before.1[i] is Field);
                        }
                    }
                },
            }
        }
    }
}

/// Laying out an arm keeps the constants and the lambdas that were there
/// and adds code, and the jump that ends the arm lies in that code.
pub proof fn lemma_arm_grow(
    ctx: ContextView,
    frame: ScopeView,
    count: nat,
    arm: (String, Vec<CaseExprs>, Rc<Expr>),
    last: bool,
    unit: UnitView,
)
    ensures
        arm_spec(ctx, frame, count, arm, last, unit) matches Ok(found) ==> grows(unit, found.0) && (
        found.1 matches Some(jump) ==> unit.code.len() <= jump < found.0.code.len()),
    decreases arm, 0nat,
{
    assert(unit.constants.take(unit.constants.len() as int) =~= unit.constants);
    assert(unit.lambdas.take(unit.lambdas.len() as int) =~= unit.lambdas);
    if let Ok(found) = arm_spec(ctx, frame, count, arm, last, unit) {
        let first = (frame.height - count) as nat;
        let tested = if last {
            (unit.code, Seq::<int>::empty())
        } else {
            tests_spec(ctx, frame, first, arm.1@, unit.code)->Ok_0
        };
        if !last {
            lemma_tests_shape(ctx, frame, first, arm.1@, unit.code);
        }
        let bound = binds_spec(ctx, frame, first, arm.1@, tested.0)->Ok_0;
        lemma_binds_code(ctx, frame, first, arm.1@, tested.0);
        let entered = unit.with_code(bound.1);
        lemma_expr_extends(ctx, bound.0, expr_of(arm.2), entered);
        let done = expr_spec(ctx, bound.0, expr_of(arm.2), entered)->Ok_0;
        let held = bound.0.height - frame.height;
        let dropped = if held > 0 {
            done.emit(OpCode::Slide(held as usize))
        } else {
            done
        };
        assert(dropped.constants == done.constants);
        assert(dropped.lambdas == done.lambdas);
        if !last {
            let jumped = dropped.code.push(OpCode::Jump(0));
            assert forall|i: int| 0 <= i < tested.1.len() implies 0 <= #[trigger] tested.1[i]
                < jumped.len() by {}
            lemma_patch_ifs_len(jumped, tested.1, (dropped.code.len() + 1) as nat);
        }
    }
}

/// Laying out the arms of a function by cases keeps the constants and the
/// lambdas that were there, adds code, and each jump that ends an arm lies
/// in that code.
pub proof fn lemma_arms_grow(
    ctx: ContextView,
    frame: ScopeView,
    count: nat,
    arms: Seq<(String, Vec<CaseExprs>, Rc<Expr>)>,
    total: nat,
    unit: UnitView,
)
    ensures
        arms_spec(ctx, frame, count, arms, total, unit) matches Ok(found) ==> grows(unit, found.0)
            && forall|j: int| 0 <= j < found.1.len() ==> 0 <= #[trigger] found.1[j] < found.0.code.len(),
    decreases arms, 1nat,
{
    assert(unit.constants.take(unit.constants.len() as int) =~= unit.constants);
    assert(unit.lambdas.take(unit.lambdas.len() as int) =~= unit.lambdas);
    if arms.len() > 0 && arms_spec(ctx, frame, count, arms, total, unit) is Ok {
        lemma_arms_grow(ctx, frame, count, arms.drop_last(), total, unit);
        let found = arms_spec(ctx, frame, count, arms, total, unit)->Ok_0;
        let before = arms_spec(ctx, frame, count, arms.drop_last(), total, unit)->Ok_0;
        lemma_arm_grow(ctx, frame, count, arms.last(), arms.len() == total, before.0);
        lemma_grows_transitive(unit, before.0, found.0);
        assert forall|j: int| 0 <= j < found.1.len() implies 0 <= #[trigger] found.1[j]
            < found.0.code.len() by {
            if j < before.1.len() {
                assert(found.1[j] == before.1[j]);
            }
        }
    }
}

/// Binding the names of the patterns of an arm only appends to the code.
pub proof fn lemma_binds_code(
    ctx: ContextView,
    frame: ScopeView,
    first: nat,
    patterns: Seq<CaseExprs>,
    code: Seq<OpCode>,
)
    ensures
        binds_spec(ctx, frame, first, patterns, code) matches Ok(found) ==> code.len()
            <= found.1.len(),
    decreases patterns.len(),
{
    if patterns.len() > 0 {
        lemma_binds_code(ctx, frame, first, patterns.drop_last(), code);
        if let Ok(found) = binds_spec(ctx, frame, first, patterns, code) {
            let before = binds_spec(ctx, frame, first, patterns.drop_last(), code)->Ok_0;
            if let CaseExprs::CaseSplit(constructor, fields) = patterns.last() {
                lemma_fields_code(
                    before.0,
                    (first + patterns.len() - 1) as nat,
                    name_views(fields@),
                    before.1,
                );
            }
        }
    }
}

/// Binding the fields of a record only appends to the code.
pub proof fn lemma_fields_code(
    scope: ScopeView,
    arg: nat,
    fields: Seq<Seq<char>>,
    code: Seq<OpCode>,
)
    ensures
        fields_spec(scope, arg, fields, code) matches Ok(found) ==> code.len() <= found.1.len(),
    decreases fields.len(),
{
    if fields.len() > 0 {
        lemma_fields_code(scope, arg, fields.drop_last(), code);
    }
}

/// Compiling a list of expressions only adds.
pub proof fn lemma_args_extend(
    ctx: ContextView,
    scope: ScopeView,
    items: Seq<Rc<Expr>>,
    unit: UnitView,
)
    ensures
        args_spec(ctx, scope, items, unit) matches Ok(u) ==> extends(unit, u),
    decreases items, 1nat,
{
    assert(unit.code.take(unit.code.len() as int) =~= unit.code);
    assert(unit.constants.take(unit.constants.len() as int) =~= unit.constants);
    assert(unit.lambdas.take(unit.lambdas.len() as int) =~= unit.lambdas);
    if items.len() > 0 && args_spec(ctx, scope, items, unit) is Ok {
        lemma_args_extend(ctx, scope, items.drop_last(), unit);
        let before = args_spec(ctx, scope, items.drop_last(), unit)->Ok_0;
        let raised = scope.raised((items.len() - 1) as nat);
        lemma_expr_extends(ctx, raised, expr_of(items.last()), before);
        lemma_extends_transitive(unit, before, expr_spec(ctx, raised, expr_of(items.last()), before)->Ok_0);
    }
}

/// Compiling a list of statements only adds, and leaves a well-formed scope
/// well-formed.
pub proof fn lemma_stmts_extend(
    ctx: ContextView,
    scope: ScopeView,
    statements: Seq<Rc<Statement>>,
    unit: UnitView,
)
    ensures
        stmts_spec(ctx, scope, statements, unit) matches Ok(done) ==> extends(unit, done.1),
    decreases statements, 1nat,
{
    assert(unit.code.take(unit.code.len() as int) =~= unit.code);
    assert(unit.constants.take(unit.constants.len() as int) =~= unit.constants);
    assert(unit.lambdas.take(unit.lambdas.len() as int) =~= unit.lambdas);
    if statements.len() > 0 && stmts_spec(ctx, scope, statements, unit) is Ok {
        lemma_stmts_extend(ctx, scope, statements.drop_last(), unit);
        let before = stmts_spec(ctx, scope, statements.drop_last(), unit)->Ok_0;
        match statement_of(statements.last()) {
            Statement::Return(e) => {
                lemma_expr_extends(ctx, before.0, e, before.1);
                lemma_extends_transitive(
                    unit,
                    before.1,
                    expr_spec(ctx, before.0, e, before.1)->Ok_0,
                );
            },
            Statement::Assign(name, e) => {
                lemma_expr_extends(ctx, before.0, e, before.1);
                lemma_extends_transitive(
                    unit,
                    before.1,
                    expr_spec(ctx, before.0, e, before.1)->Ok_0,
                );
            },
        }
    }
}

/// The scope `a` is the scope `b`: the same names, slots and height.
pub open spec fn same_scope(a: &Scope, b: &Scope) -> bool {
    a.names@ == b.names@ && a.slots@ == b.slots@ && a.height == b.height
}

/// Whether `callee` is the conditional.
fn conditional_callee<B>(
    globals: &Globals,
    registry: &BuiltinMaps<B>,
    scope: &Scope,
    callee: &Expr,
) -> (r: bool)
    requires
        scope@.well_formed(),
        context_of(globals, registry).well_formed(),
    ensures
        r == is_conditional(context_of(globals, registry), scope@, *callee),
{
    match callee {
        Expr::Variable(name) => match resolve(scope, globals, registry, name) {
            Some(Location::Conditional) => true,
            _ => false,
        },
        _ => false,
    }
}

/// Emits the code of `e`, which leaves one value on the frame. The scope is
/// handed back as it was.
fn compile_expr<B>(
    globals: &Globals,
    registry: &BuiltinMaps<B>,
    scope: &mut Scope,
    e: &Expr,
    unit: &mut Unit,
) -> (r: Result<(), CompileError>)
    requires
        old(scope)@.well_formed(),
        context_of(globals, registry).well_formed(),
    ensures
        meets(
            expr_spec(context_of(globals, registry), old(scope)@, *e, old(unit)@),
            r,
            final(unit)@,
        ),
        r is Ok ==> same_scope(final(scope), old(scope)),
    decreases e, 1nat,
{
    match e {
        Expr::Variable(name) => compile_call(globals, registry, scope, name, 0, unit),
        Expr::Function(callee, _) => {
            let target: &Expr = callee;
            if conditional_callee(globals, registry, scope, target) {
                compile_conditional(globals, registry, scope, e, unit)
            } else {
                compile_application(globals, registry, scope, e, unit)
            }
        },
        Expr::GroupExpr(_) => compile_block(globals, registry, scope, e, unit),
        Expr::Lambda(_, _) => compile_lambda(globals, registry, scope, e, unit),
        Expr::Case(_) => compile_case(globals, registry, scope, e, unit),
        _ => match literal_value(e) {
            Some(v) => {
                let index = intern(&mut unit.constants, v);
                unit.code.push(OpCode::Constant(index));
                Ok(())
            },
            None => Err(CompileError::NonConstantArray),
        },
    }
}

/// Emits a conditional: the test, a branch, the first arm, a jump over the
/// second arm, the second arm. The two addresses are set once both arms are
/// laid out.
fn compile_conditional<B>(
    globals: &Globals,
    registry: &BuiltinMaps<B>,
    scope: &mut Scope,
    e: &Expr,
    unit: &mut Unit,
) -> (r: Result<(), CompileError>)
    requires
        old(scope)@.well_formed(),
        context_of(globals, registry).well_formed(),
        e matches Expr::Function(callee, _) && is_conditional(
            context_of(globals, registry),
            old(scope)@,
            **callee,
        ),
    ensures
        meets(
            expr_spec(context_of(globals, registry), old(scope)@, *e, old(unit)@),
            r,
            final(unit)@,
        ),
        r is Ok ==> same_scope(final(scope), old(scope)),
    decreases e, 0nat,
{
    let ghost ctx = context_of(globals, registry);
    let ghost start = unit@;
    let ghost frame = scope@;
    match e {
        Expr::Function(callee, args) => {
            if args.len() != 3 {
                let target: &Expr = callee;
                return match target {
                    Expr::Variable(name) => Err(CompileError::ArityMismatch(name.clone())),
                    _ => Err(CompileError::TooLarge),
                };
            }
            let test: &Expr = &args[0];
            let first: &Expr = &args[1];
            let second: &Expr = &args[2];
            match compile_expr(globals, registry, scope, test, unit) {
                Err(err) => {
                    return Err(err);
                },
                Ok(()) => {},
            }
            let ghost tested = unit@;
            let branch = unit.code.len();
            unit.emit(OpCode::If(0, 0));
            let after_branch = unit.code.len();
            let ghost branched = unit@;
            match compile_expr(globals, registry, scope, first, unit) {
                Err(err) => {
                    return Err(err);
                },
                Ok(()) => {},
            }
            let ghost laid = unit@;
            let jump = unit.code.len();
            unit.emit(OpCode::Jump(0));
            let after_jump = unit.code.len();
            let ghost jumped = unit@;
            match compile_expr(globals, registry, scope, second, unit) {
                Err(err) => {
                    return Err(err);
                },
                Ok(()) => {},
            }
            proof {
                lemma_expr_extends(ctx, frame, *first, branched);
                lemma_expr_extends(ctx, frame, *second, jumped);
            }
            let end = unit.code.len();
            unit.code.set(branch, OpCode::If(after_branch, after_jump));
            unit.code.set(jump, OpCode::Jump(end));
            Ok(())
        },
        _ => Err(CompileError::TooLarge),
    }
}

/// Emits an application: the arguments from left to right, then the call.
#[verifier::loop_isolation(false)]
fn compile_application<B>(
    globals: &Globals,
    registry: &BuiltinMaps<B>,
    scope: &mut Scope,
    e: &Expr,
    unit: &mut Unit,
) -> (r: Result<(), CompileError>)
    requires
        old(scope)@.well_formed(),
        context_of(globals, registry).well_formed(),
        e matches Expr::Function(callee, _) && !is_conditional(
            context_of(globals, registry),
            old(scope)@,
            **callee,
        ),
    ensures
        meets(
            expr_spec(context_of(globals, registry), old(scope)@, *e, old(unit)@),
            r,
            final(unit)@,
        ),
        r is Ok ==> same_scope(final(scope), old(scope)),
    decreases e, 0nat,
{
    let ghost ctx = context_of(globals, registry);
    let ghost start = unit@;
    let ghost frame = scope@;
    match e {
        Expr::Function(callee, args) => {
            let base = scope.height;
            let mut i: usize = 0;
            proof {
                assert(args@.take(0) =~= Seq::<Rc<Expr>>::empty());
                assert(scope@ == frame.raised(0));
            }
            while i < args.len()
                invariant
                    i <= args@.len(),
                    scope.names@ == old(scope).names@,
                    scope.slots@ == old(scope).slots@,
                    scope.height == base + i,
                    args_spec(ctx, frame, args@.take(i as int), start) == Ok::<
                        UnitView,
                        CompileErrorView,
                    >(unit@),
                decreases args@.len() - i,
            {
                proof {
                    assert(args@.take(i + 1).drop_last() =~= args@.take(i as int));
                    assert(args@.take(i + 1).last() == args@[i as int]);
                    assert(scope@ == frame.raised(i as nat));
                }
                if scope.height >= usize::MAX {
                    proof {
                        lemma_args_prefix_error(ctx, frame, args@, start, i + 1);
                    }
                    return Err(CompileError::TooLarge);
                }
                let item: &Expr = &args[i];
                match compile_expr(globals, registry, scope, item, unit) {
                    Err(err) => {
                        proof {
                            lemma_args_prefix_error(ctx, frame, args@, start, i + 1);
                        }
                        return Err(err);
                    },
                    Ok(()) => {},
                }
                scope.height = scope.height + 1;
                i += 1;
            }
            proof {
                assert(args@.take(i as int) =~= args@);
                assert(scope@ == frame.raised(args@.len()));
            }
            let target: &Expr = callee;
            let r = match target {
                Expr::Variable(name) => compile_call(
                    globals,
                    registry,
                    scope,
                    name,
                    args.len(),
                    unit,
                ),
                _ => {
                    if scope.height >= usize::MAX {
                        Err(CompileError::TooLarge)
                    } else {
                        match compile_expr(globals, registry, scope, target, unit) {
                            Err(err) => Err(err),
                            Ok(()) => {
                                if args.len() > 0 {
                                    unit.emit(OpCode::Apply(args.len()));
                                }
                                Ok(())
                            },
                        }
                    }
                },
            };
            scope.height = base;
            r
        },
        _ => Err(CompileError::TooLarge),
    }
}

/// Emits a block: each statement leaves its value on the frame, and the
/// values below the last one are dropped at the end.
#[verifier::loop_isolation(false)]
fn compile_block<B>(
    globals: &Globals,
    registry: &BuiltinMaps<B>,
    scope: &mut Scope,
    e: &Expr,
    unit: &mut Unit,
) -> (r: Result<(), CompileError>)
    requires
        old(scope)@.well_formed(),
        context_of(globals, registry).well_formed(),
        e is GroupExpr,
    ensures
        meets(
            expr_spec(context_of(globals, registry), old(scope)@, *e, old(unit)@),
            r,
            final(unit)@,
        ),
        r is Ok ==> same_scope(final(scope), old(scope)),
    decreases e, 0nat,
{
    let ghost ctx = context_of(globals, registry);
    let ghost start = unit@;
    let ghost frame = scope@;
    match e {
        Expr::GroupExpr(statements) => {
            if statements.len() == 0 {
                return Err(CompileError::EmptyBlock);
            }
            let depth = scope.names.len();
            let base = scope.height;
            let mut i: usize = 0;
            proof {
                assert(statements@.take(0) =~= Seq::<Rc<Statement>>::empty());
                assert(scope.names@.take(depth as int) =~= old(scope).names@);
                assert(scope.slots@.take(depth as int) =~= old(scope).slots@);
            }
            while i < statements.len()
                invariant
                    i <= statements@.len(),
                    depth <= scope.names@.len(),
                    depth == old(scope).names@.len(),
                    scope.names@.take(depth as int) == old(scope).names@,
                    scope.slots@.take(depth as int) == old(scope).slots@,
                    scope@.well_formed(),
                    stmts_spec(ctx, frame, statements@.take(i as int), start) == Ok::<
                        (ScopeView, UnitView),
                        CompileErrorView,
                    >((scope@, unit@)),
                decreases statements@.len() - i,
            {
                proof {
                    assert(statements@.take(i + 1).drop_last() =~= statements@.take(i as int));
                    assert(statements@.take(i + 1).last() == statements@[i as int]);
                }
                if scope.height >= usize::MAX {
                    proof {
                        lemma_stmts_prefix_error(ctx, frame, statements@, start, i + 1);
                    }
                    return Err(CompileError::TooLarge);
                }
                let ghost bindings = scope@;
                let statement: &Statement = &statements[i];
                match statement {
                    Statement::Return(value) => {
                        match compile_expr(globals, registry, scope, value, unit) {
                            Err(err) => {
                                proof {
                                    lemma_stmts_prefix_error(ctx, frame, statements@, start, i + 1);
                                }
                                return Err(err);
                            },
                            Ok(()) => {},
                        }
                        scope.height = scope.height + 1;
                    },
                    Statement::Assign(name, value) => {
                        match compile_expr(globals, registry, scope, value, unit) {
                            Err(err) => {
                                proof {
                                    lemma_stmts_prefix_error(ctx, frame, statements@, start, i + 1);
                                }
                                return Err(err);
                            },
                            Ok(()) => {},
                        }
                        scope.height = scope.height + 1;
                        scope.names.push(name.clone());
                        scope.slots.push(scope.height - 1);
                        proof {
                            assert(scope@.names =~= bindings.names.push(name@));
                            assert(scope.names@.take(depth as int) =~= old(scope).names@);
                            assert(scope.slots@.take(depth as int) =~= old(scope).slots@);
                        }
                    },
                }
                i += 1;
            }
            proof {
                assert(statements@.take(i as int) =~= statements@);
            }
            if statements.len() > 1 {
                unit.emit(OpCode::Slide(statements.len() - 1));
            }
            scope.names.truncate(depth);
            scope.slots.truncate(depth);
            scope.height = base;
            Ok(())
        },
        _ => Err(CompileError::TooLarge),
    }
}

/// Emits a lambda: its body becomes a function of its own, whose first
/// parameters are the captured locals, and the code at this place loads
/// those locals and makes a closure of them.
#[verifier::loop_isolation(false)]
fn compile_lambda<B>(
    globals: &Globals,
    registry: &BuiltinMaps<B>,
    scope: &mut Scope,
    e: &Expr,
    unit: &mut Unit,
) -> (r: Result<(), CompileError>)
    requires
        old(scope)@.well_formed(),
        context_of(globals, registry).well_formed(),
        e is Lambda,
    ensures
        meets(
            expr_spec(context_of(globals, registry), old(scope)@, *e, old(unit)@),
            r,
            final(unit)@,
        ),
        r is Ok ==> same_scope(final(scope), old(scope)),
    decreases e, 0nat,
{
    let ghost ctx = context_of(globals, registry);
    let ghost start = unit@;
    match e {
        Expr::Lambda(params, body) => {
            let inner: &Expr = body;
            let mut captured: Vec<String> = Vec::new();
            let mut bound: Vec<String> = Vec::new();
            let mut i: usize = 0;
            while i < params.len()
                invariant
                    i <= params@.len(),
                    name_views(bound@) == name_views(params@).take(i as int),
                decreases params@.len() - i,
            {
                let ghost before = name_views(bound@);
                bound.push(params[i].clone());
                proof {
                    assert(name_views(bound@) =~= name_views(params@).take(i + 1));
                }
                i += 1;
            }
            proof {
                assert(name_views(params@).take(i as int) =~= name_views(params@));
                assert(name_views(captured@) =~= Seq::<Seq<char>>::empty());
            }
            collect_free(inner, &mut bound, &scope.names, &mut captured);
            let mut frame = match frame_for(&captured, params) {
                Some(frame) => frame,
                None => {
                    return Err(CompileError::TooLarge);
                },
            };
            let arity = frame.height;
            let mut outer_code: Vec<OpCode> = Vec::new();
            std::mem::swap(&mut unit.code, &mut outer_code);
            match compile_expr(globals, registry, &mut frame, inner, unit) {
                Err(err) => {
                    return Err(err);
                },
                Ok(()) => {},
            }
            let ghost compiled = unit@;
            if arity > 0 {
                unit.emit(OpCode::Slide(arity));
            }
            unit.emit(OpCode::Return);
            proof {
                assert(unit@.code =~= compiled.code + epilogue(arity as nat));
            }
            let index = match globals.names.len().checked_add(unit.lambdas.len()) {
                Some(index) => index,
                None => {
                    return Err(CompileError::TooLarge);
                },
            };
            std::mem::swap(&mut unit.code, &mut outer_code);
            let ghost lambdas = unit@.lambdas;
            unit.lambdas.push(outer_code);
            proof {
                assert(unit@.lambdas =~= lambdas.push(outer_code@));
            }
            match emit_loads(scope, &captured, &mut unit.code) {
                Err(err) => {
                    return Err(err);
                },
                Ok(()) => {},
            }
            unit.emit(OpCode::MakeClosure(index, params.len(), captured.len()));
            Ok(())
        },
        _ => Err(CompileError::TooLarge),
    }
}

/// The name and the arity that a declaration gives a top-level function: a
/// function has its parameters, a value has none. Imports and algebraic
/// types declare no function.
pub open spec fn declared(d: Decleration) -> Option<(Seq<char>, usize)> {
    match d.value {
        DeclerationVal::Function(name, params, _) => Some((name@, params@.len() as usize)),
        DeclerationVal::Value(name, _) => Some((name@, 0usize)),
        _ => None,
    }
}

/// What is declared after the variants of an algebraic type: each variant
/// is a constructor with its place among the variants as its tag and its
/// parameters as its fields. A name that is declared already is refused.
pub open spec fn variants_spec(found: GlobalsView, variants: Seq<EnumVariant>) -> Result<
    GlobalsView,
    CompileErrorView,
>
    decreases variants.len(),
{
    if variants.len() == 0 {
        Ok(found)
    } else {
        match variants_spec(found, variants.drop_last()) {
            Err(err) => Err(err),
            Ok(before) => if before.declares(variants.last().name@) {
                Err(CompileErrorView::NameCollision(variants.last().name@))
            } else {
                Ok(
                    before.with_constructor(
                        variants.last().name@,
                        (variants.len() - 1) as usize,
                        variants.last().params@.len() as usize,
                    ),
                )
            },
        }
    }
}

/// What the declarations declare: the top-level functions and values in
/// their order, the index of each being its place, and the constructors. A
/// name that is declared twice is refused at its second declaration.
pub open spec fn globals_spec(decls: Seq<Decleration>) -> Result<GlobalsView, CompileErrorView>
    decreases decls.len(),
{
    if decls.len() == 0 {
        Ok(GlobalsView::empty())
    } else {
        match globals_spec(decls.drop_last()) {
            Err(err) => Err(err),
            Ok(found) => match decls.last().value {
                DeclerationVal::Adt(_, variants) => variants_spec(found, variants@),
                _ => match declared(decls.last()) {
                    None => Ok(found),
                    Some((name, arity)) => if found.declares(name) {
                        Err(CompileErrorView::NameCollision(name))
                    } else {
                        Ok(found.with_function(name, arity))
                    },
                },
            },
        }
    }
}

/// The index of the entry point: the function `main`, which takes no
/// argument.
pub open spec fn entry_spec(names: Seq<Seq<char>>, arities: Seq<usize>) -> Result<
    usize,
    CompileErrorView,
> {
    match last_index(names, "main"@) {
        None => Err(CompileErrorView::MissingEntryPoint),
        Some(k) => if arities[k] != 0 {
            Err(CompileErrorView::ArityMismatch("main"@))
        } else {
            Ok(k as usize)
        },
    }
}

/// The unit after one function is compiled: its code is the body's code
/// and then an `Exit` for the entry point, for any other function the drop
/// of its parameters and a `Return`.
pub open spec fn function_spec(
    ctx: ContextView,
    is_entry: bool,
    params: Seq<Seq<char>>,
    body: Expr,
    unit: UnitView,
) -> Result<UnitView, CompileErrorView> {
    match expr_spec(ctx, frame_scope(params), body, unit.with_code(Seq::empty())) {
        Err(err) => Err(err),
        Ok(u) => Ok(
            u.with_code(
                u.code + (if is_entry {
                    seq![OpCode::Exit]
                } else {
                    epilogue(params.len())
                }),
            ),
        ),
    }
}

/// The unit after the declaration `d` is compiled as the function with the
/// index `index`; its code is the function's code.
pub open spec fn decl_spec(
    ctx: ContextView,
    entry: usize,
    index: nat,
    d: Decleration,
    unit: UnitView,
) -> Result<UnitView, CompileErrorView> {
    match d.value {
        DeclerationVal::Function(_, params, body) => function_spec(
            ctx,
            index == entry,
            name_views(params@),
            body,
            unit,
        ),
        DeclerationVal::Value(_, body) => function_spec(
            ctx,
            index == entry,
            Seq::empty(),
            body,
            unit,
        ),
        _ => Ok(unit),
    }
}

/// The functions of the declarations, in order, and the unit that holds the
/// constants and the lambdas met on the way.
pub open spec fn program_spec(
    ctx: ContextView,
    entry: usize,
    decls: Seq<Decleration>,
    unit: UnitView,
) -> Result<(Seq<Seq<OpCode>>, UnitView), CompileErrorView>
    decreases decls.len(),
{
    if decls.len() == 0 {
        Ok((Seq::empty(), unit))
    } else {
        match program_spec(ctx, entry, decls.drop_last(), unit) {
            Err(err) => Err(err),
            Ok((functions, before)) => if declared(decls.last()) is None {
                Ok((functions, before))
            } else {
                match decl_spec(ctx, entry, functions.len(), decls.last(), before) {
                    Err(err) => Err(err),
                    Ok(after) => Ok((functions.push(after.code), after.with_code(Seq::empty()))),
                }
            },
        }
    }
}

/// The compiled program: its functions, the top-level ones first and the
/// lambdas after them, the constant pool, which begins with the registered
/// constants, and the index of the entry point.
pub open spec fn compile_spec(
    registry_names: Seq<Seq<char>>,
    registry_ids: Seq<BuiltinId>,
    constants: Seq<ValueView>,
    decls: Seq<Decleration>,
) -> Result<(Seq<Seq<OpCode>>, Seq<ValueView>, usize), CompileErrorView> {
    match globals_spec(decls) {
        Err(err) => Err(err),
        Ok(found) => match entry_spec(found.names, found.arities) {
            Err(err) => Err(err),
            Ok(entry) => {
                let ctx = context_for(found, registry_names, registry_ids);
                let start = UnitView { code: Seq::empty(), constants, lambdas: Seq::empty() };
                match program_spec(ctx, entry, decls, start) {
                    Err(err) => Err(err),
                    Ok((functions, unit)) => Ok((functions + unit.lambdas, unit.constants, entry)),
                }
            },
        }
    }
}

/// Declarations that begin with declarations whose names are refused are
/// refused for the same reason.
pub proof fn lemma_globals_prefix_error(decls: Seq<Decleration>, count: int)
    requires
        0 <= count <= decls.len(),
        globals_spec(decls.take(count)) is Err,
    ensures
        globals_spec(decls) == globals_spec(decls.take(count)),
    decreases decls.len() - count,
{
    if count < decls.len() {
        assert(decls.take(count + 1).drop_last() =~= decls.take(count));
        lemma_globals_prefix_error(decls, count + 1);
    } else {
        assert(decls.take(count) =~= decls);
    }
}

/// Declarations that begin with declarations whose code is refused are
/// refused for the same reason.
pub proof fn lemma_program_prefix_error(
    ctx: ContextView,
    entry: usize,
    decls: Seq<Decleration>,
    unit: UnitView,
    count: int,
)
    requires
        0 <= count <= decls.len(),
        program_spec(ctx, entry, decls.take(count), unit) is Err,
    ensures
        program_spec(ctx, entry, decls, unit) == program_spec(ctx, entry, decls.take(count), unit),
    decreases decls.len() - count,
{
    if count < decls.len() {
        assert(decls.take(count + 1).drop_last() =~= decls.take(count));
        lemma_program_prefix_error(ctx, entry, decls, unit, count + 1);
    } else {
        assert(decls.take(count) =~= decls);
    }
}

/// Variants that begin with variants that are refused are refused for the
/// same reason.
pub proof fn lemma_variants_prefix_error(found: GlobalsView, variants: Seq<EnumVariant>, count: int)
    requires
        0 <= count <= variants.len(),
        variants_spec(found, variants.take(count)) is Err,
    ensures
        variants_spec(found, variants) == variants_spec(found, variants.take(count)),
    decreases variants.len() - count,
{
    if count < variants.len() {
        assert(variants.take(count + 1).drop_last() =~= variants.take(count));
        lemma_variants_prefix_error(found, variants, count + 1);
    } else {
        assert(variants.take(count) =~= variants);
    }
}

/// Whether a function, a value or a constructor has this name.
fn declares(globals: &Globals, name: &String) -> (r: bool)
    ensures
        r == globals@.declares(name@),
{
    find_last(&globals.names, name).is_some() || find_last(&globals.constructors, name).is_some()
}

/// Declares the constructors of an algebraic type.
#[verifier::loop_isolation(false)]
fn declare_variants(globals: &mut Globals, variants: &Vec<EnumVariant>) -> (r: Result<
    (),
    CompileError,
>)
    requires
        old(globals)@.aligned(),
    ensures
        match variants_spec(old(globals)@, variants@) {
            Ok(found) => r is Ok && final(globals)@ == found && found.aligned(),
            Err(err) => r matches Err(x) && x@ == err,
        },
{
    let ghost start = globals@;
    let mut k: usize = 0;
    proof {
        assert(variants@.take(0) =~= Seq::<EnumVariant>::empty());
    }
    while k < variants.len()
        invariant
            k <= variants@.len(),
            globals@.aligned(),
            variants_spec(start, variants@.take(k as int)) == Ok::<GlobalsView, CompileErrorView>(
                globals@,
            ),
        decreases variants@.len() - k,
    {
        proof {
            assert(variants@.take(k + 1).drop_last() =~= variants@.take(k as int));
            assert(variants@.take(k + 1).last() == variants@[k as int]);
        }
        let variant = &variants[k];
        if declares(globals, &variant.name) {
            proof {
                lemma_variants_prefix_error(start, variants@, k + 1);
            }
            return Err(CompileError::NameCollision(variant.name.clone()));
        }
        let ghost before = globals@;
        globals.constructors.push(variant.name.clone());
        globals.tags.push(k);
        globals.fields.push(variant.params.len());
        proof {
            assert(globals@.constructors =~= before.constructors.push(variant.name@));
        }
        k += 1;
    }
    proof {
        assert(variants@.take(k as int) =~= variants@);
    }
    Ok(())
}

/// Gives every top-level function and value its index, registers the
/// constructors, and finds the entry point.
pub fn resolve_variables(delcs: &Vec<Decleration>) -> (r: Result<(Globals, usize), CompileError>)
    ensures
        match globals_spec(delcs@) {
            Err(err) => r matches Err(x) && x@ == err,
            Ok(found) => match entry_spec(found.names, found.arities) {
                Err(err) => r matches Err(x) && x@ == err,
                Ok(entry) => r matches Ok((globals, main)) && main == entry && globals@ == found
                    && found.aligned(),
            },
        },
{
    let mut globals = Globals {
        names: Vec::new(),
        arities: Vec::new(),
        constructors: Vec::new(),
        tags: Vec::new(),
        fields: Vec::new(),
    };
    let mut i: usize = 0;
    proof {
        assert(delcs@.take(0) =~= Seq::<Decleration>::empty());
        assert(globals@.names =~= Seq::<Seq<char>>::empty());
        assert(globals@.constructors =~= Seq::<Seq<char>>::empty());
    }
    while i < delcs.len()
        invariant
            i <= delcs@.len(),
            globals@.aligned(),
            globals_spec(delcs@.take(i as int)) == Ok::<GlobalsView, CompileErrorView>(globals@),
        decreases delcs@.len() - i,
    {
        proof {
            assert(delcs@.take(i + 1).drop_last() =~= delcs@.take(i as int));
            assert(delcs@.take(i + 1).last() == delcs@[i as int]);
        }
        let ghost before = globals@;
        match &delcs[i].value {
            DeclerationVal::Function(name, params, _) => {
                if declares(&globals, name) {
                    proof {
                        lemma_globals_prefix_error(delcs@, i + 1);
                    }
                    return Err(CompileError::NameCollision(name.clone()));
                }
                globals.names.push(name.clone());
                globals.arities.push(params.len());
                proof {
                    assert(globals@.names =~= before.names.push(name@));
                }
            },
            DeclerationVal::Value(name, _) => {
                if declares(&globals, name) {
                    proof {
                        lemma_globals_prefix_error(delcs@, i + 1);
                    }
                    return Err(CompileError::NameCollision(name.clone()));
                }
                globals.names.push(name.clone());
                globals.arities.push(0);
                proof {
                    assert(globals@.names =~= before.names.push(name@));
                }
            },
            DeclerationVal::Adt(_, variants) => {
                match declare_variants(&mut globals, variants) {
                    Err(err) => {
                        proof {
                            lemma_globals_prefix_error(delcs@, i + 1);
                        }
                        return Err(err);
                    },
                    Ok(()) => {},
                }
            },
            _ => {},
        }
        i += 1;
    }
    proof {
        assert(delcs@.take(i as int) =~= delcs@);
        crate::names::lemma_last_index(globals@.names, "main"@);
    }
    let main = String::from_str("main");
    match find_last(&globals.names, &main) {
        None => Err(CompileError::MissingEntryPoint),
        Some(k) => {
            if globals.arities[k] != 0 {
                Err(CompileError::ArityMismatch(main))
            } else {
                Ok((globals, k))
            }
        },
    }
}

/// Compiles one function: its body on a frame that holds its parameters,
/// then its end. The unit's code is the function's code afterwards.
fn compile_function<B>(
    globals: &Globals,
    registry: &BuiltinMaps<B>,
    is_entry: bool,
    params: &Vec<String>,
    body: &Expr,
    unit: &mut Unit,
) -> (r: Result<(), CompileError>)
    requires
        context_of(globals, registry).well_formed(),
    ensures
        meets(
            function_spec(
                context_of(globals, registry),
                is_entry,
                name_views(params@),
                *body,
                old(unit)@,
            ),
            r,
            final(unit)@,
        ),
{
    let none: Vec<String> = Vec::new();
    proof {
        assert(name_views(none@) + name_views(params@) =~= name_views(params@));
        assert(params@.len() == params.len());
    }
    let mut frame = frame_for(&none, params).unwrap();
    let arity = frame.height;
    unit.code = Vec::new();
    match compile_expr(globals, registry, &mut frame, body, unit) {
        Err(err) => {
            return Err(err);
        },
        Ok(()) => {},
    }
    let ghost compiled = unit@;
    if is_entry {
        unit.emit(OpCode::Exit);
        proof {
            assert(unit@.code =~= compiled.code + seq![OpCode::Exit]);
        }
    } else {
        if arity > 0 {
            unit.emit(OpCode::Slide(arity));
        }
        unit.emit(OpCode::Return);
        proof {
            assert(unit@.code =~= compiled.code + epilogue(arity as nat));
        }
    }
    Ok(())
}

/// Compiles the declaration `a` as the function with the index `index`: a
/// function with its parameters, a value as a function without any.
/// Imports and algebraic types give no code.
fn compile_delc<B>(
    globals: &Globals,
    registry: &BuiltinMaps<B>,
    entry: usize,
    index: usize,
    a: &Decleration,
    unit: &mut Unit,
) -> (r: Result<(), CompileError>)
    requires
        context_of(globals, registry).well_formed(),
    ensures
        meets(
            decl_spec(context_of(globals, registry), entry, index as nat, *a, old(unit)@),
            r,
            final(unit)@,
        ),
{
    match &a.value {
        DeclerationVal::Function(_, params, body) => compile_function(
            globals,
            registry,
            index == entry,
            params,
            body,
            unit,
        ),
        DeclerationVal::Value(_, body) => {
            let none: Vec<String> = Vec::new();
            proof {
                assert(name_views(none@) =~= Seq::<Seq<char>>::empty());
            }
            compile_function(globals, registry, index == entry, &none, body, unit)
        },
        _ => Ok(()),
    }
}

/// Whether a declaration declares a top-level function.
fn declares_function(d: &Decleration) -> (r: bool)
    ensures
        r == declared(*d) is Some,
{
    match &d.value {
        DeclerationVal::Function(_, _, _) => true,
        DeclerationVal::Value(_, _) => true,
        _ => false,
    }
}

/// Compiles a program. The result holds one instruction sequence for every
/// top-level function and value, in the order of their declarations, then
/// one for every lambda; the constant pool, which begins with the
/// registered constants; and the index of `main`. A program with a fault is
/// refused as a whole.
#[verifier::loop_isolation(false)]
pub fn compile<B>(value_maps: &BuiltinMaps<B>, delcs: Vec<Decleration>) -> (r: Result<
    (Vec<Vec<OpCode>>, Vec<Value>, usize),
    CompileError,
>)
    ensures
        match compile_spec(
            value_maps.names(),
            value_maps.ids(),
            value_views(value_maps.constants()),
            delcs@,
        ) {
            Ok((functions, constants, entry)) => r matches Ok(compiled)
                && crate::bytecodevm::program_view(compiled.0@) == functions && value_views(
                compiled.1@,
            ) == constants && compiled.2 == entry,
            Err(err) => r matches Err(x) && x@ == err,
        },
        value_maps.well_formed() ==> (r matches Ok(compiled) ==> compiled.2 < compiled.0@.len()
            && program_closed(
            crate::bytecodevm::program_view(compiled.0@),
            compiled.1@.len(),
            value_maps.builtins().len(),
        )),
{
    let (globals, entry) = match resolve_variables(&delcs) {
        Ok(found) => found,
        Err(err) => {
            return Err(err);
        },
    };
    let ghost ctx = context_of(&globals, value_maps);
    proof {
        value_maps.lemma_names_have_ids();
        assert(globals.names@.len() == globals.names.len());
    }
    let registered = value_maps.constant_table();
    let mut constants: Vec<Value> = Vec::new();
    let mut k: usize = 0;
    while k < registered.len()
        invariant
            k <= registered@.len(),
            constants@ == registered@.take(k as int),
        decreases registered@.len() - k,
    {
        constants.push(registered[k].clone());
        proof {
            assert(constants@ =~= registered@.take(k + 1));
        }
        k += 1;
    }
    proof {
        assert(registered@.take(k as int) =~= registered@);
    }
    let mut unit = Unit { code: Vec::new(), constants, lambdas: Vec::new() };
    let ghost start = unit@;
    proof {
        assert(start.lambdas =~= Seq::<Seq<OpCode>>::empty());
    }
    let mut functions: Vec<Vec<OpCode>> = Vec::new();
    let mut i: usize = 0;
    proof {
        assert(delcs@.take(0) =~= Seq::<Decleration>::empty());
        assert(crate::bytecodevm::program_view(functions@) =~= Seq::<Seq<OpCode>>::empty());
    }
    while i < delcs.len()
        invariant
            i <= delcs@.len(),
            ctx == context_of(&globals, value_maps),
            ctx.well_formed(),
            program_spec(ctx, entry, delcs@.take(i as int), start) == Ok::<
                (Seq<Seq<OpCode>>, UnitView),
                CompileErrorView,
            >((crate::bytecodevm::program_view(functions@), unit@)),
        decreases delcs@.len() - i,
    {
        proof {
            assert(delcs@.take(i + 1).drop_last() =~= delcs@.take(i as int));
            assert(delcs@.take(i + 1).last() == delcs@[i as int]);
        }
        if declares_function(&delcs[i]) {
            let ghost before = unit@;
            let ghost listed = crate::bytecodevm::program_view(functions@);
            match compile_delc(&globals, value_maps, entry, functions.len(), &delcs[i], &mut unit) {
                Err(err) => {
                    proof {
                        lemma_program_prefix_error(ctx, entry, delcs@, start, i + 1);
                    }
                    return Err(err);
                },
                Ok(()) => {},
            }
            let mut code: Vec<OpCode> = Vec::new();
            std::mem::swap(&mut unit.code, &mut code);
            functions.push(code);
            proof {
                assert(crate::bytecodevm::program_view(functions@) =~= listed.push(code@));
            }
        }
        i += 1;
    }
    proof {
        assert(delcs@.take(i as int) =~= delcs@);
    }
    let ghost top = crate::bytecodevm::program_view(functions@);
    let ghost lambdas = unit@.lambdas;
    let mut lambda_code = unit.lambdas;
    functions.append(&mut lambda_code);
    proof {
        assert(crate::bytecodevm::program_view(functions@) =~= top + lambdas);
        if value_maps.well_formed() {
            let ids = value_maps.ids();
            let pool = value_views(value_maps.constants());
            assert forall|k: int| 0 <= k < ids.len() implies match #[trigger] ids[k] {
                BuiltinId::Constant(i) => i < pool.len(),
                BuiltinId::Builtin(i) => i < value_maps.builtins().len(),
            } by {}
            lemma_compiled_program_is_closed(
                value_maps.names(),
                ids,
                pool,
                value_maps.builtins().len(),
                delcs@,
            );
        }
    }
    Ok((functions, unit.constants, entry))
}

/// A local binding shadows everything else of the same name: whatever the
/// top-level declarations and the registry hold, a name that a local binds
/// stands for the innermost local of that name.
pub proof fn lemma_local_shadows(scope: ScopeView, ctx: ContextView, name: Seq<char>)
    requires
        last_index(scope.names, name) is Some,
    ensures
        resolve_spec(scope, ctx, name) == Some(
            Location::Local(scope.slots[last_index(scope.names, name)->Some_0]),
        ),
        forall|j: int|
            last_index(scope.names, name)->Some_0 < j < scope.names.len() ==> scope.names[j]
                != name,
{
    crate::names::lemma_last_index(scope.names, name);
}

/// A binding is in sight as soon as it is made: after `name` is bound to the
/// value on top of the frame, it stands for that value, whatever it stood
/// for before.
pub proof fn lemma_binding_shadows(scope: ScopeView, ctx: ContextView, name: Seq<char>)
    requires
        scope.well_formed(),
        scope.height > 0,
    ensures
        resolve_spec(scope.bind_top(name), ctx, name) == Some(
            Location::Local((scope.height - 1) as usize),
        ),
{
    let bound = scope.bind_top(name);
    assert(bound.names.last() == name);
    assert(last_index(bound.names, name) == Some(scope.names.len() as int));
    assert(bound.slots[scope.names.len() as int] == (scope.height - 1) as usize);
}

/// Where no local binds a name, a top-level function or value of that name
/// comes before anything registered under it.
pub proof fn lemma_global_shadows_registry(scope: ScopeView, ctx: ContextView, name: Seq<char>)
    requires
        last_index(scope.names, name) is None,
        last_index(ctx.global_names, name) is Some,
    ensures
        resolve_spec(scope, ctx, name) == Some(
            Location::Function(
                last_index(ctx.global_names, name)->Some_0 as usize,
                ctx.arities[last_index(ctx.global_names, name)->Some_0],
            ),
        ),
{
}

/// A name that stands for nothing is reported: its use is refused, alone or
/// applied to arguments whose own code is accepted.
pub proof fn lemma_unresolved_name_fails(
    ctx: ContextView,
    scope: ScopeView,
    name: String,
    args: Vec<Rc<Expr>>,
    unit: UnitView,
)
    requires
        resolve_spec(scope, ctx, name@) is None,
    ensures
        expr_spec(ctx, scope, Expr::Variable(name), unit) == Err::<UnitView, CompileErrorView>(
            CompileErrorView::UnresolvedName(name@),
        ),
        args_spec(ctx, scope, args@, unit) is Ok ==> expr_spec(
            ctx,
            scope,
            Expr::Function(Rc::new(Expr::Variable(name)), args),
            unit,
        ) == Err::<UnitView, CompileErrorView>(CompileErrorView::UnresolvedName(name@)),
{
    assert(resolve_spec(scope.raised(args@.len()), ctx, name@) == resolve_spec(scope, ctx, name@));
}

/// A fault in one declaration refuses the whole program: where the code of
/// the declarations up to some point is refused, so is the program, for the
/// same reason.
pub proof fn lemma_all_or_nothing(
    registry_names: Seq<Seq<char>>,
    registry_ids: Seq<BuiltinId>,
    constants: Seq<ValueView>,
    decls: Seq<Decleration>,
    count: int,
)
    requires
        0 <= count <= decls.len(),
        globals_spec(decls) matches Ok(found) && entry_spec(found.names, found.arities) is Ok,
        program_spec(
            context_for(globals_spec(decls)->Ok_0, registry_names, registry_ids),
            entry_spec(globals_spec(decls)->Ok_0.names, globals_spec(decls)->Ok_0.arities)->Ok_0,
            decls.take(count),
            UnitView { code: Seq::empty(), constants, lambdas: Seq::empty() },
        ) is Err,
    ensures
        compile_spec(registry_names, registry_ids, constants, decls) is Err,
{
    let found = globals_spec(decls)->Ok_0;
    let ctx = context_for(found, registry_names, registry_ids);
    let start = UnitView { code: Seq::empty(), constants, lambdas: Seq::empty() };
    lemma_program_prefix_error(
        ctx,
        entry_spec(found.names, found.arities)->Ok_0,
        decls,
        start,
        count,
    );
}

/// A lambda compiles to a closure over its captured locals. The code at
/// its place ends with the instruction that makes the closure: from as many
/// values as the lambda has free names bound by enclosing locals, for a
/// function that takes as many more as the lambda declares. That function
/// is the last of the lambdas, and its code ends by dropping all of its
/// parameters and returning.
pub proof fn lemma_lambda_closure(
    ctx: ContextView,
    scope: ScopeView,
    params: Vec<String>,
    body: Rc<Expr>,
    unit: UnitView,
)
    requires
        expr_spec(ctx, scope, Expr::Lambda(params, body), unit) is Ok,
    ensures
        ({
            let u = expr_spec(ctx, scope, Expr::Lambda(params, body), unit)->Ok_0;
            let captured = free_spec(
                expr_of(body),
                name_views(params@),
                scope.names,
                Seq::empty(),
            );
            &&& u.lambdas.len() > 0
            &&& u.code.len() == unit.code.len() + captured.len() + 1
            &&& u.code.last() == OpCode::MakeClosure(
                (ctx.first_lambda + u.lambdas.len() - 1) as usize,
                params@.len() as usize,
                captured.len() as usize,
            )
            &&& u.lambdas.last().len() > 0
            &&& u.lambdas.last().last() == OpCode::Return
        }),
{
    let captured = free_spec(expr_of(body), name_views(params@), scope.names, Seq::empty());
    lemma_loads_extend(scope, captured, unit.code);
}

/// The limits that the code of a unit is held against: its own constants
/// and length, and the functions that have an index so far.
pub open spec fn unit_limits(ctx: ContextView, builtins: nat, unit: UnitView) -> Limits {
    Limits {
        constants: unit.constants.len(),
        builtins,
        functions: ctx.first_lambda + unit.lambdas.len(),
        code: unit.code.len(),
    }
}

/// Whether a unit names only what is there: the registered constants are
/// in its pool, its code stays within its limits, and each of its lambdas is
/// a finished function.
pub open spec fn unit_within(ctx: ContextView, builtins: nat, registered: nat, unit: UnitView) -> bool {
    &&& registered <= unit.constants.len()
    &&& code_within(unit.code, unit_limits(ctx, builtins, unit))
    &&& forall|j: int|
        0 <= j < unit.lambdas.len() ==> closed(
            #[trigger] unit.lambdas[j],
            unit_limits(ctx, builtins, unit),
        )
}

/// Whether the places that the registry gives lie in its tables, which
/// hold `registered` constants and `builtins` builtins.
pub open spec fn context_within(ctx: ContextView, builtins: nat, registered: nat) -> bool {
    &&& ctx.well_formed()
    &&& forall|k: int|
        0 <= k < ctx.registry_ids.len() ==> match #[trigger] ctx.registry_ids[k] {
            BuiltinId::Constant(i) => i < registered,
            BuiltinId::Builtin(i) => i < builtins,
        }
}

/// A unit stays within its limits when it grows by instructions that do.
pub proof fn lemma_unit_grows(
    ctx: ContextView,
    builtins: nat,
    registered: nat,
    earlier: UnitView,
    later: UnitView,
)
    requires
        unit_within(ctx, builtins, registered, earlier),
        earlier.code.len() <= later.code.len(),
        later.code.take(earlier.code.len() as int) == earlier.code,
        earlier.constants.len() <= later.constants.len(),
        later.lambdas == earlier.lambdas,
        forall|i: int|
            earlier.code.len() <= i < later.code.len() ==> refers_within(
                #[trigger] later.code[i],
                unit_limits(ctx, builtins, later),
            ),
    ensures
        unit_within(ctx, builtins, registered, later),
{
    let a = unit_limits(ctx, builtins, earlier);
    let b = unit_limits(ctx, builtins, later);
    assert forall|i: int| 0 <= i < later.code.len() implies refers_within(
        #[trigger] later.code[i],
        b,
    ) by {
        if i < earlier.code.len() {
            assert(later.code.take(earlier.code.len() as int)[i] == later.code[i]);
            assert(refers_within(earlier.code[i], a));
        }
    }
    assert forall|j: int| 0 <= j < later.lambdas.len() implies closed(
        #[trigger] later.lambdas[j],
        b,
    ) by {
        lemma_closed_grows(earlier.lambdas[j], a, b);
    }
}

/// The call of a name names only what is there.
pub proof fn lemma_call_within(
    ctx: ContextView,
    builtins: nat,
    registered: nat,
    scope: ScopeView,
    name: Seq<char>,
    count: nat,
    unit: UnitView,
)
    requires
        context_within(ctx, builtins, registered),
        unit_within(ctx, builtins, registered, unit),
    ensures
        call_spec(ctx, scope, name, count, unit) matches Ok(u) ==> unit_within(
            ctx,
            builtins,
            registered,
            u,
        ),
{
    if let Ok(u) = call_spec(ctx, scope, name, count, unit) {
        crate::names::lemma_last_index(ctx.global_names, name);
        crate::names::lemma_last_index(ctx.registry_names, name);
        assert(u.code.take(unit.code.len() as int) =~= unit.code);
        lemma_unit_grows(ctx, builtins, registered, unit, u);
    }
}

/// The loads of captured locals name nothing but locals.
pub proof fn lemma_loads_within(
    scope: ScopeView,
    names: Seq<Seq<char>>,
    code: Seq<OpCode>,
    limits: Limits,
)
    ensures
        loads_spec(scope, names, code) matches Ok(c) ==> forall|i: int|
            code.len() <= i < c.len() ==> refers_within(#[trigger] c[i], limits),
    decreases names.len(),
{
    if names.len() > 0 {
        lemma_loads_within(scope, names.drop_last(), code, limits);
        lemma_loads_extend(scope, names.drop_last(), code);
    }
}

/// Compiling an expression keeps a unit within its limits: the code that
/// is emitted names only constants of the pool, builtins of the registry,
/// functions that have an index and addresses up to its own end, and every
/// lambda is a finished function.
pub proof fn lemma_expr_within(
    ctx: ContextView,
    builtins: nat,
    registered: nat,
    scope: ScopeView,
    e: Expr,
    unit: UnitView,
)
    requires
        context_within(ctx, builtins, registered),
        unit_within(ctx, builtins, registered, unit),
    ensures
        expr_spec(ctx, scope, e, unit) matches Ok(u) ==> unit_within(ctx, builtins, registered, u),
    decreases e, 1nat,
{
    let result = expr_spec(ctx, scope, e, unit);
    if result is Ok {
        let u = result->Ok_0;
        match e {
            Expr::Variable(name) => {
                lemma_call_within(ctx, builtins, registered, scope, name@, 0, unit);
            },
            Expr::Function(callee, args) => {
                if is_conditional(ctx, scope, expr_of(callee)) {
                    let tested = expr_spec(ctx, scope, expr_of(args@[0]), unit)->Ok_0;
                    let branched = tested.emit(OpCode::If(0, 0));
                    let first = expr_spec(ctx, scope, expr_of(args@[1]), branched)->Ok_0;
                    let jumped = first.emit(OpCode::Jump(0));
                    let second = expr_spec(ctx, scope, expr_of(args@[2]), jumped)->Ok_0;
                    lemma_expr_within(ctx, builtins, registered, scope, expr_of(args@[0]), unit);
                    assert(branched.code.take(tested.code.len() as int) =~= tested.code);
                    lemma_unit_grows(ctx, builtins, registered, tested, branched);
                    lemma_expr_within(
                        ctx,
                        builtins,
                        registered,
                        scope,
                        expr_of(args@[1]),
                        branched,
                    );
                    assert(jumped.code.take(first.code.len() as int) =~= first.code);
                    lemma_unit_grows(ctx, builtins, registered, first, jumped);
                    lemma_expr_within(ctx, builtins, registered, scope, expr_of(args@[2]), jumped);
                    lemma_expr_extends(ctx, scope, expr_of(args@[1]), branched);
                    lemma_expr_extends(ctx, scope, expr_of(args@[2]), jumped);
                    let limits = unit_limits(ctx, builtins, second);
                    assert(unit_limits(ctx, builtins, u) == limits);
                    assert forall|i: int| 0 <= i < u.code.len() implies refers_within(
                        #[trigger] u.code[i],
                        limits,
                    ) by {
                        if i != tested.code.len() && i != first.code.len() {
                            assert(u.code[i] == second.code[i]);
                            assert(refers_within(second.code[i], limits));
                        }
                    }
                } else {
                    lemma_args_within(ctx, builtins, registered, scope, args@, unit);
                    let pushed = args_spec(ctx, scope, args@, unit)->Ok_0;
                    let raised = scope.raised(args@.len());
                    match expr_of(callee) {
                        Expr::Variable(name) => {
                            lemma_call_within(
                                ctx,
                                builtins,
                                registered,
                                raised,
                                name@,
                                args@.len(),
                                pushed,
                            );
                        },
                        _ => {
                            lemma_expr_within(
                                ctx,
                                builtins,
                                registered,
                                raised,
                                expr_of(callee),
                                pushed,
                            );
                            let loaded = expr_spec(ctx, raised, expr_of(callee), pushed)->Ok_0;
                            assert(u.code.take(loaded.code.len() as int) =~= loaded.code);
                            lemma_unit_grows(ctx, builtins, registered, loaded, u);
                        },
                    }
                }
            },
            Expr::GroupExpr(statements) => {
                lemma_stmts_within(ctx, builtins, registered, scope, statements@, unit);
                let done = stmts_spec(ctx, scope, statements@, unit)->Ok_0.1;
                assert(u.code.take(done.code.len() as int) =~= done.code);
                lemma_unit_grows(ctx, builtins, registered, done, u);
            },
            Expr::Lambda(_, _) => {
                lemma_lambda_within(ctx, builtins, registered, scope, e, unit);
            },
            Expr::Case(_) => {
                lemma_case_within(ctx, builtins, registered, scope, e, unit);
            },
            _ => {
                let v = literal_spec(e)->Some_0;
                lemma_intern_deduplicates(unit.constants, v);
                assert(u.code.take(unit.code.len() as int) =~= unit.code);
                let limits = unit_limits(ctx, builtins, u);
                assert forall|i: int| 0 <= i < u.code.len() implies refers_within(
                    #[trigger] u.code[i],
                    limits,
                ) by {
                    if i < unit.code.len() {
                        assert(refers_within(unit.code[i], unit_limits(ctx, builtins, unit)));
                    }
                }
                assert forall|j: int| 0 <= j < u.lambdas.len() implies closed(
                    #[trigger] u.lambdas[j],
                    limits,
                ) by {
                    lemma_closed_grows(unit.lambdas[j], unit_limits(ctx, builtins, unit), limits);
                }
            },
        }
    }
}

/// Setting branches keeps code within its limits, where each branch and
/// its target lie within them.
pub proof fn lemma_patch_ifs_within(
    code: Seq<OpCode>,
    places: Seq<int>,
    target: nat,
    limits: Limits,
)
    requires
        code_within(code, limits),
        target <= limits.code,
        forall|i: int|
            0 <= i < places.len() ==> 0 <= #[trigger] places[i] < code.len() && places[i] + 1
                <= limits.code,
    ensures
        code_within(patch_ifs(code, places, target), limits),
        patch_ifs(code, places, target).len() == code.len(),
    decreases places.len(),
{
    if places.len() > 0 {
        let shorter = places.drop_last();
        assert forall|i: int| 0 <= i < shorter.len() implies 0 <= #[trigger] shorter[i] < code.len()
            && shorter[i] + 1 <= limits.code by {
            assert(shorter[i] == places[i]);
        }
        lemma_patch_ifs_within(code, shorter, target, limits);
        let before = patch_ifs(code, shorter, target);
        let after = patch_ifs(code, places, target);
        assert(0 <= places[places.len() - 1] < code.len());
        assert forall|i: int| 0 <= i < after.len() implies refers_within(
            #[trigger] after[i],
            limits,
        ) by {
            if i != places.last() {
                assert(after[i] == before[i]);
                assert(refers_within(before[i], limits));
            }
        }
    }
}

/// Setting jumps keeps code within its limits, where the target lies
/// within them.
pub proof fn lemma_patch_jumps_within(
    code: Seq<OpCode>,
    places: Seq<int>,
    target: nat,
    limits: Limits,
)
    requires
        code_within(code, limits),
        target <= limits.code,
        forall|i: int| 0 <= i < places.len() ==> 0 <= #[trigger] places[i] < code.len(),
    ensures
        code_within(patch_jumps(code, places, target), limits),
        patch_jumps(code, places, target).len() == code.len(),
    decreases places.len(),
{
    if places.len() > 0 {
        let shorter = places.drop_last();
        assert forall|i: int| 0 <= i < shorter.len() implies 0 <= #[trigger] shorter[i]
            < code.len() by {
            assert(shorter[i] == places[i]);
        }
        lemma_patch_jumps_within(code, shorter, target, limits);
        let before = patch_jumps(code, shorter, target);
        let after = patch_jumps(code, places, target);
        assert(0 <= places[places.len() - 1] < code.len());
        assert forall|i: int| 0 <= i < after.len() implies refers_within(
            #[trigger] after[i],
            limits,
        ) by {
            if i != places.last() {
                assert(after[i] == before[i]);
                assert(refers_within(before[i], limits));
            }
        }
    }
}

/// Laying out an arm keeps a unit within its limits.
pub proof fn lemma_arm_within(
    ctx: ContextView,
    builtins: nat,
    registered: nat,
    frame: ScopeView,
    count: nat,
    arm: (String, Vec<CaseExprs>, Rc<Expr>),
    last: bool,
    unit: UnitView,
)
    requires
        context_within(ctx, builtins, registered),
        unit_within(ctx, builtins, registered, unit),
    ensures
        arm_spec(ctx, frame, count, arm, last, unit) matches Ok(found) ==> unit_within(
            ctx,
            builtins,
            registered,
            found.0,
        ),
    decreases arm, 0nat,
{
    if let Ok(found) = arm_spec(ctx, frame, count, arm, last, unit) {
        let first = (frame.height - count) as nat;
        let tested = if last {
            (unit.code, Seq::<int>::empty())
        } else {
            tests_spec(ctx, frame, first, arm.1@, unit.code)->Ok_0
        };
        lemma_tests_shape(ctx, frame, first, arm.1@, unit.code);
        assert(unit.code.take(unit.code.len() as int) =~= unit.code);
        let tested_unit = unit.with_code(tested.0);
        lemma_unit_grows(ctx, builtins, registered, unit, tested_unit);
        lemma_binds_shape(ctx, frame, first, arm.1@, tested.0);
        let bound = binds_spec(ctx, frame, first, arm.1@, tested.0)->Ok_0;
        let entered = unit.with_code(bound.1);
        lemma_unit_grows(ctx, builtins, registered, tested_unit, entered);
        lemma_expr_within(ctx, builtins, registered, bound.0, expr_of(arm.2), entered);
        lemma_expr_extends(ctx, bound.0, expr_of(arm.2), entered);
        let done = expr_spec(ctx, bound.0, expr_of(arm.2), entered)->Ok_0;
        let held = bound.0.height - frame.height;
        let dropped = if held > 0 {
            done.emit(OpCode::Slide(held as usize))
        } else {
            done
        };
        assert(dropped.code.take(done.code.len() as int) =~= done.code);
        lemma_unit_grows(ctx, builtins, registered, done, dropped);
        if !last {
            let jumped = dropped.emit(OpCode::Jump(0));
            assert(jumped.code.take(dropped.code.len() as int) =~= dropped.code);
            lemma_unit_grows(ctx, builtins, registered, dropped, jumped);
            let limits = unit_limits(ctx, builtins, jumped);
            assert forall|i: int| 0 <= i < tested.1.len() implies 0 <= #[trigger] tested.1[i]
                < jumped.code.len() && tested.1[i] + 1 <= limits.code by {}
            lemma_patch_ifs_within(jumped.code, tested.1, jumped.code.len(), limits);
            assert(unit_limits(ctx, builtins, found.0) == limits);
            assert forall|j: int| 0 <= j < found.0.lambdas.len() implies closed(
                #[trigger] found.0.lambdas[j],
                limits,
            ) by {
                assert(closed(jumped.lambdas[j], limits));
            }
        }
    }
}

/// Laying out the arms of a function by cases keeps a unit within its
/// limits.
pub proof fn lemma_arms_within(
    ctx: ContextView,
    builtins: nat,
    registered: nat,
    frame: ScopeView,
    count: nat,
    arms: Seq<(String, Vec<CaseExprs>, Rc<Expr>)>,
    total: nat,
    unit: UnitView,
)
    requires
        context_within(ctx, builtins, registered),
        unit_within(ctx, builtins, registered, unit),
    ensures
        arms_spec(ctx, frame, count, arms, total, unit) matches Ok(found) ==> unit_within(
            ctx,
            builtins,
            registered,
            found.0,
        ),
    decreases arms, 1nat,
{
    if arms.len() > 0 && arms_spec(ctx, frame, count, arms, total, unit) is Ok {
        lemma_arms_within(ctx, builtins, registered, frame, count, arms.drop_last(), total, unit);
        let before = arms_spec(ctx, frame, count, arms.drop_last(), total, unit)->Ok_0;
        lemma_arm_within(
            ctx,
            builtins,
            registered,
            frame,
            count,
            arms.last(),
            arms.len() == total,
            before.0,
        );
    }
}

/// Compiling a lambda keeps a unit within its limits.
pub proof fn lemma_lambda_within(
    ctx: ContextView,
    builtins: nat,
    registered: nat,
    scope: ScopeView,
    e: Expr,
    unit: UnitView,
)
    requires
        context_within(ctx, builtins, registered),
        unit_within(ctx, builtins, registered, unit),
        e is Lambda,
    ensures
        expr_spec(ctx, scope, e, unit) matches Ok(u) ==> unit_within(ctx, builtins, registered, u),
    decreases e, 0nat,
{
    let result = expr_spec(ctx, scope, e, unit);
    if result is Ok {
        let u = result->Ok_0;
        match e {
            Expr::Lambda(params, body) => {
                let captured = free_spec(
                    expr_of(body),
                    name_views(params@),
                    scope.names,
                    Seq::empty(),
                );
                let arity = captured.len() + params@.len();
                let start = unit.with_code(Seq::empty());
                let frame = frame_scope(captured + name_views(params@));
                assert(unit_within(ctx, builtins, registered, start)) by {
                    assert forall|j: int| 0 <= j < start.lambdas.len() implies closed(
                        #[trigger] start.lambdas[j],
                        unit_limits(ctx, builtins, start),
                    ) by {
                        lemma_closed_grows(
                            unit.lambdas[j],
                            unit_limits(ctx, builtins, unit),
                            unit_limits(ctx, builtins, start),
                        );
                    }
                }
                lemma_expr_within(ctx, builtins, registered, frame, expr_of(body), start);
                lemma_expr_extends(ctx, frame, expr_of(body), start);
                let inner = expr_spec(ctx, frame, expr_of(body), start)->Ok_0;
                let limits = unit_limits(ctx, builtins, u);
                lemma_loads_extend(scope, captured, unit.code);
                lemma_loads_within(scope, captured, unit.code, limits);
                let loaded = loads_spec(scope, captured, unit.code)->Ok_0;
                let body_code = inner.code + epilogue(arity);
                assert forall|i: int| 0 <= i < u.code.len() implies refers_within(
                    #[trigger] u.code[i],
                    limits,
                ) by {
                    if i < unit.code.len() {
                        assert(loaded.take(unit.code.len() as int)[i] == loaded[i]);
                        assert(refers_within(unit.code[i], unit_limits(ctx, builtins, unit)));
                    } else if i < loaded.len() {
                        assert(u.code[i] == loaded[i]);
                    }
                }
                assert forall|j: int| 0 <= j < u.lambdas.len() implies closed(
                    #[trigger] u.lambdas[j],
                    limits,
                ) by {
                    if j < inner.lambdas.len() {
                        lemma_closed_grows(
                            inner.lambdas[j],
                            unit_limits(ctx, builtins, inner),
                            limits,
                        );
                    } else {
                        let own = with_code_limit(limits, (body_code.len() - 1) as nat);
                        assert forall|i: int| 0 <= i < body_code.len() implies refers_within(
                            #[trigger] body_code[i],
                            own,
                        ) by {
                            if i < inner.code.len() {
                                assert(refers_within(
                                    inner.code[i],
                                    unit_limits(ctx, builtins, inner),
                                ));
                            }
                        }
                    }
                }
            },
            _ => {},
        }
    }
}

/// Compiling a function by cases keeps a unit within its limits.
pub proof fn lemma_case_within(
    ctx: ContextView,
    builtins: nat,
    registered: nat,
    scope: ScopeView,
    e: Expr,
    unit: UnitView,
)
    requires
        context_within(ctx, builtins, registered),
        unit_within(ctx, builtins, registered, unit),
        e is Case,
    ensures
        expr_spec(ctx, scope, e, unit) matches Ok(u) ==> unit_within(ctx, builtins, registered, u),
    decreases e, 0nat,
{
    let result = expr_spec(ctx, scope, e, unit);
    if result is Ok {
        let u = result->Ok_0;
        match e {
            Expr::Case(arms) => {
                let captured = free_arms_spec(arms@, Seq::empty(), scope.names, Seq::empty());
                let count = arms@[0].1@.len();
                let arity = captured.len() + count;
                let start = unit.with_code(Seq::empty());
                let frame = case_frame(captured, count);
                assert(unit_within(ctx, builtins, registered, start)) by {
                    assert forall|j: int| 0 <= j < start.lambdas.len() implies closed(
                        #[trigger] start.lambdas[j],
                        unit_limits(ctx, builtins, start),
                    ) by {
                        lemma_closed_grows(
                            unit.lambdas[j],
                            unit_limits(ctx, builtins, unit),
                            unit_limits(ctx, builtins, start),
                        );
                    }
                }
                lemma_arms_within(
                    ctx,
                    builtins,
                    registered,
                    frame,
                    count,
                    arms@,
                    arms@.len(),
                    start,
                );
                lemma_arms_grow(ctx, frame, count, arms@, arms@.len(), start);
                let found = arms_spec(ctx, frame, count, arms@, arms@.len(), start)->Ok_0;
                let inner = found.0;
                let patched = patch_jumps(inner.code, found.1, inner.code.len());
                lemma_patch_jumps_within(
                    inner.code,
                    found.1,
                    inner.code.len(),
                    unit_limits(ctx, builtins, inner),
                );
                let limits = unit_limits(ctx, builtins, u);
                lemma_loads_extend(scope, captured, unit.code);
                lemma_loads_within(scope, captured, unit.code, limits);
                let loaded = loads_spec(scope, captured, unit.code)->Ok_0;
                let body_code = patched + epilogue(arity);
                assert forall|i: int| 0 <= i < u.code.len() implies refers_within(
                    #[trigger] u.code[i],
                    limits,
                ) by {
                    if i < unit.code.len() {
                        assert(loaded.take(unit.code.len() as int)[i] == loaded[i]);
                        assert(refers_within(unit.code[i], unit_limits(ctx, builtins, unit)));
                    } else if i < loaded.len() {
                        assert(u.code[i] == loaded[i]);
                    }
                }
                assert forall|j: int| 0 <= j < u.lambdas.len() implies closed(
                    #[trigger] u.lambdas[j],
                    limits,
                ) by {
                    if j < inner.lambdas.len() {
                        lemma_closed_grows(
                            inner.lambdas[j],
                            unit_limits(ctx, builtins, inner),
                            limits,
                        );
                    } else {
                        let own = with_code_limit(limits, (body_code.len() - 1) as nat);
                        assert forall|i: int| 0 <= i < body_code.len() implies refers_within(
                            #[trigger] body_code[i],
                            own,
                        ) by {
                            if i < patched.len() {
                                assert(refers_within(
                                    patched[i],
                                    unit_limits(ctx, builtins, inner),
                                ));
                            }
                        }
                    }
                }
            },
            _ => {},
        }
    }
}

/// Compiling a list of expressions keeps a unit within its limits.
pub proof fn lemma_args_within(
    ctx: ContextView,
    builtins: nat,
    registered: nat,
    scope: ScopeView,
    items: Seq<Rc<Expr>>,
    unit: UnitView,
)
    requires
        context_within(ctx, builtins, registered),
        unit_within(ctx, builtins, registered, unit),
    ensures
        args_spec(ctx, scope, items, unit) matches Ok(u) ==> unit_within(
            ctx,
            builtins,
            registered,
            u,
        ),
    decreases items, 1nat,
{
    if items.len() > 0 && args_spec(ctx, scope, items, unit) is Ok {
        lemma_args_within(ctx, builtins, registered, scope, items.drop_last(), unit);
        let before = args_spec(ctx, scope, items.drop_last(), unit)->Ok_0;
        lemma_expr_within(
            ctx,
            builtins,
            registered,
            scope.raised((items.len() - 1) as nat),
            expr_of(items.last()),
            before,
        );
    }
}

/// Compiling a list of statements keeps a unit within its limits.
pub proof fn lemma_stmts_within(
    ctx: ContextView,
    builtins: nat,
    registered: nat,
    scope: ScopeView,
    statements: Seq<Rc<Statement>>,
    unit: UnitView,
)
    requires
        context_within(ctx, builtins, registered),
        unit_within(ctx, builtins, registered, unit),
    ensures
        stmts_spec(ctx, scope, statements, unit) matches Ok(done) ==> unit_within(
            ctx,
            builtins,
            registered,
            done.1,
        ),
    decreases statements, 1nat,
{
    if statements.len() > 0 && stmts_spec(ctx, scope, statements, unit) is Ok {
        lemma_stmts_within(ctx, builtins, registered, scope, statements.drop_last(), unit);
        let before = stmts_spec(ctx, scope, statements.drop_last(), unit)->Ok_0;
        match statement_of(statements.last()) {
            Statement::Return(e) => {
                lemma_expr_within(ctx, builtins, registered, before.0, e, before.1);
            },
            Statement::Assign(name, e) => {
                lemma_expr_within(ctx, builtins, registered, before.0, e, before.1);
            },
        }
    }
}

/// Declaring variants adds no function and keeps every name with what
/// belongs to it.
pub proof fn lemma_variants_aligned(found: GlobalsView, variants: Seq<EnumVariant>)
    requires
        found.aligned(),
    ensures
        variants_spec(found, variants) matches Ok(after) ==> after.aligned() && after.names
            == found.names && after.arities == found.arities,
    decreases variants.len(),
{
    if variants.len() > 0 {
        lemma_variants_aligned(found, variants.drop_last());
    }
}

/// Every top-level name has what belongs to it, and there are no more
/// functions than declarations.
pub proof fn lemma_globals_aligned(decls: Seq<Decleration>)
    ensures
        globals_spec(decls) matches Ok(found) ==> found.aligned() && found.names.len()
            <= decls.len(),
    decreases decls.len(),
{
    if decls.len() > 0 {
        lemma_globals_aligned(decls.drop_last());
        if let Ok(before) = globals_spec(decls.drop_last()) {
            if let DeclerationVal::Adt(_, variants) = decls.last().value {
                lemma_variants_aligned(before, variants@);
            }
        }
    }
}

/// There are as many compiled top-level functions as top-level names.
pub proof fn lemma_function_count(
    ctx: ContextView,
    entry: usize,
    decls: Seq<Decleration>,
    unit: UnitView,
)
    ensures
        (globals_spec(decls) matches Ok(found) && program_spec(ctx, entry, decls, unit) matches Ok(
            compiled,
        )) ==> program_spec(ctx, entry, decls, unit)->Ok_0.0.len() == globals_spec(
            decls,
        )->Ok_0.names.len(),
    decreases decls.len(),
{
    if decls.len() > 0 {
        lemma_function_count(ctx, entry, decls.drop_last(), unit);
        lemma_globals_aligned(decls.drop_last());
        if let Ok(before) = globals_spec(decls.drop_last()) {
            if let DeclerationVal::Adt(_, variants) = decls.last().value {
                lemma_variants_aligned(before, variants@);
            }
        }
    }
}

/// Compiling a function gives a finished function and keeps the unit
/// within its limits.
pub proof fn lemma_function_within(
    ctx: ContextView,
    builtins: nat,
    registered: nat,
    is_entry: bool,
    params: Seq<Seq<char>>,
    body: Expr,
    unit: UnitView,
)
    requires
        context_within(ctx, builtins, registered),
        unit_within(ctx, builtins, registered, unit),
    ensures
        function_spec(ctx, is_entry, params, body, unit) matches Ok(u) ==> {
            &&& closed(u.code, unit_limits(ctx, builtins, u))
            &&& unit_within(ctx, builtins, registered, u.with_code(Seq::empty()))
            &&& unit.constants.len() <= u.constants.len()
            &&& unit.lambdas.len() <= u.lambdas.len()
        },
{
    if let Ok(u) = function_spec(ctx, is_entry, params, body, unit) {
        let start = unit.with_code(Seq::empty());
        assert(unit_within(ctx, builtins, registered, start)) by {
            assert forall|j: int| 0 <= j < start.lambdas.len() implies closed(
                #[trigger] start.lambdas[j],
                unit_limits(ctx, builtins, start),
            ) by {
                lemma_closed_grows(
                    unit.lambdas[j],
                    unit_limits(ctx, builtins, unit),
                    unit_limits(ctx, builtins, start),
                );
            }
        }
        lemma_expr_within(ctx, builtins, registered, frame_scope(params), body, start);
        lemma_expr_extends(ctx, frame_scope(params), body, start);
        let inner = expr_spec(ctx, frame_scope(params), body, start)->Ok_0;
        let own = with_code_limit(unit_limits(ctx, builtins, u), (u.code.len() - 1) as nat);
        assert forall|i: int| 0 <= i < u.code.len() implies refers_within(
            #[trigger] u.code[i],
            own,
        ) by {
            if i < inner.code.len() {
                assert(refers_within(inner.code[i], unit_limits(ctx, builtins, inner)));
            }
        }
        let emptied = u.with_code(Seq::empty());
        assert forall|j: int| 0 <= j < emptied.lambdas.len() implies closed(
            #[trigger] emptied.lambdas[j],
            unit_limits(ctx, builtins, emptied),
        ) by {
            lemma_closed_grows(
                inner.lambdas[j],
                unit_limits(ctx, builtins, inner),
                unit_limits(ctx, builtins, emptied),
            );
        }
    }
}

/// Compiling the declarations gives finished functions only, and keeps the
/// unit within its limits.
pub proof fn lemma_program_within(
    ctx: ContextView,
    builtins: nat,
    registered: nat,
    entry: usize,
    decls: Seq<Decleration>,
    unit: UnitView,
)
    requires
        context_within(ctx, builtins, registered),
        unit_within(ctx, builtins, registered, unit),
    ensures
        program_spec(ctx, entry, decls, unit) matches Ok(compiled) ==> {
            &&& unit_within(ctx, builtins, registered, compiled.1)
            &&& unit.constants.len() <= compiled.1.constants.len()
            &&& unit.lambdas.len() <= compiled.1.lambdas.len()
            &&& forall|f: int|
                0 <= f < compiled.0.len() ==> closed(
                    #[trigger] compiled.0[f],
                    unit_limits(ctx, builtins, compiled.1),
                )
        },
    decreases decls.len(),
{
    if decls.len() > 0 && program_spec(ctx, entry, decls, unit) is Ok {
        lemma_program_within(ctx, builtins, registered, entry, decls.drop_last(), unit);
        let before = program_spec(ctx, entry, decls.drop_last(), unit)->Ok_0;
        let compiled = program_spec(ctx, entry, decls, unit)->Ok_0;
        if declared(decls.last()) is Some {
            let index = before.0.len();
            match decls.last().value {
                DeclerationVal::Function(_, params, body) => {
                    lemma_function_within(
                        ctx,
                        builtins,
                        registered,
                        index == entry,
                        name_views(params@),
                        body,
                        before.1,
                    );
                },
                DeclerationVal::Value(_, body) => {
                    lemma_function_within(
                        ctx,
                        builtins,
                        registered,
                        index == entry,
                        Seq::empty(),
                        body,
                        before.1,
                    );
                },
                _ => {},
            }
            let after = decl_spec(ctx, entry, index, decls.last(), before.1)->Ok_0;
            let limits = unit_limits(ctx, builtins, compiled.1);
            assert forall|f: int| 0 <= f < compiled.0.len() implies closed(
                #[trigger] compiled.0[f],
                limits,
            ) by {
                if f < before.0.len() {
                    lemma_closed_grows(before.0[f], unit_limits(ctx, builtins, before.1), limits);
                } else {
                    lemma_closed_grows(after.code, unit_limits(ctx, builtins, after), limits);
                }
            }
        }
    } else if decls.len() == 0 {
    }
}

/// A compiled program hangs together. Its entry point is one of its
/// functions. Every function ends with a `Return` or an `Exit`. Every
/// constant that is loaded is in the pool, every builtin that is run is in
/// the registry, every function that is called or closed over is in the
/// program, and every jump stays inside its function. (The registry's
/// places are taken to lie in its tables, as those of a registry that was
/// built from registrations do.)
pub proof fn lemma_compiled_program_is_closed(
    registry_names: Seq<Seq<char>>,
    registry_ids: Seq<BuiltinId>,
    constants: Seq<ValueView>,
    builtins: nat,
    decls: Seq<Decleration>,
)
    requires
        decls.len() <= usize::MAX,
        registry_names.len() == registry_ids.len(),
        forall|k: int|
            0 <= k < registry_ids.len() ==> match #[trigger] registry_ids[k] {
                BuiltinId::Constant(i) => i < constants.len(),
                BuiltinId::Builtin(i) => i < builtins,
            },
        compile_spec(registry_names, registry_ids, constants, decls) is Ok,
    ensures
        ({
            let compiled = compile_spec(registry_names, registry_ids, constants, decls)->Ok_0;
            &&& compiled.2 < compiled.0.len()
            &&& constants.len() <= compiled.1.len()
            &&& compiled.1.take(constants.len() as int) == constants
            &&& program_closed(compiled.0, compiled.1.len(), builtins)
        }),
{
    let found = globals_spec(decls)->Ok_0;
    let entry = entry_spec(found.names, found.arities)->Ok_0;
    let ctx = context_for(found, registry_names, registry_ids);
    let start = UnitView { code: Seq::empty(), constants, lambdas: Seq::empty() };
    lemma_globals_aligned(decls);
    crate::names::lemma_last_index(found.names, "main"@);
    lemma_program_within(ctx, builtins, constants.len(), entry, decls, start);
    lemma_function_count(ctx, entry, decls, start);
    lemma_program_keeps_pool(ctx, entry, decls, start);
    let compiled = program_spec(ctx, entry, decls, start)->Ok_0;
    let program = compiled.0 + compiled.1.lambdas;
    let limits = Limits {
        constants: compiled.1.constants.len(),
        builtins,
        functions: program.len(),
        code: 0,
    };
    assert forall|f: int| 0 <= f < program.len() implies closed(#[trigger] program[f], limits) by {
        if f < compiled.0.len() {
            lemma_closed_grows(compiled.0[f], unit_limits(ctx, builtins, compiled.1), limits);
        } else {
            lemma_closed_grows(
                compiled.1.lambdas[f - compiled.0.len()],
                unit_limits(ctx, builtins, compiled.1),
                limits,
            );
        }
    }
}

/// Compiling the declarations keeps the constants that were in the pool
/// where they were.
pub proof fn lemma_program_keeps_pool(
    ctx: ContextView,
    entry: usize,
    decls: Seq<Decleration>,
    unit: UnitView,
)
    ensures
        program_spec(ctx, entry, decls, unit) matches Ok(compiled) ==> unit.constants.len()
            <= compiled.1.constants.len() && compiled.1.constants.take(
            unit.constants.len() as int,
        ) == unit.constants,
    decreases decls.len(),
{
    assert(unit.constants.take(unit.constants.len() as int) =~= unit.constants);
    if decls.len() > 0 && program_spec(ctx, entry, decls, unit) is Ok {
        lemma_program_keeps_pool(ctx, entry, decls.drop_last(), unit);
        let before = program_spec(ctx, entry, decls.drop_last(), unit)->Ok_0;
        let compiled = program_spec(ctx, entry, decls, unit)->Ok_0;
        if declared(decls.last()) is Some {
            let start = before.1.with_code(Seq::empty());
            match decls.last().value {
                DeclerationVal::Function(_, params, body) => {
                    lemma_expr_extends(ctx, frame_scope(name_views(params@)), body, start);
                },
                DeclerationVal::Value(_, body) => {
                    lemma_expr_extends(ctx, frame_scope(Seq::empty()), body, start);
                },
                _ => {},
            }
            assert(compiled.1.constants.take(unit.constants.len() as int)
                =~= before.1.constants.take(unit.constants.len() as int));
        }
    }
}

/// The places of a list of instructions, as integers.
pub open spec fn places_view(places: Seq<usize>) -> Seq<int> {
    Seq::new(places.len(), |i: int| places[i] as int)
}

/// Patterns that begin with patterns whose tests are refused are refused
/// for the same reason.
pub proof fn lemma_tests_prefix_error(
    ctx: ContextView,
    frame: ScopeView,
    first: nat,
    patterns: Seq<CaseExprs>,
    code: Seq<OpCode>,
    count: int,
)
    requires
        0 <= count <= patterns.len(),
        tests_spec(ctx, frame, first, patterns.take(count), code) is Err,
    ensures
        tests_spec(ctx, frame, first, patterns, code) matches Err(err) && tests_spec(
            ctx,
            frame,
            first,
            patterns.take(count),
            code,
        ) == Err::<(Seq<OpCode>, Seq<int>), CompileErrorView>(err),
    decreases patterns.len() - count,
{
    if count < patterns.len() {
        assert(patterns.take(count + 1).drop_last() =~= patterns.take(count));
        lemma_tests_prefix_error(ctx, frame, first, patterns, code, count + 1);
    } else {
        assert(patterns.take(count) =~= patterns);
    }
}

/// Fields that begin with fields whose binding is refused are refused for
/// the same reason.
pub proof fn lemma_fields_prefix_error(
    scope: ScopeView,
    arg: nat,
    fields: Seq<Seq<char>>,
    code: Seq<OpCode>,
    count: int,
)
    requires
        0 <= count <= fields.len(),
        fields_spec(scope, arg, fields.take(count), code) is Err,
    ensures
        fields_spec(scope, arg, fields, code) == fields_spec(scope, arg, fields.take(count), code),
    decreases fields.len() - count,
{
    if count < fields.len() {
        assert(fields.take(count + 1).drop_last() =~= fields.take(count));
        lemma_fields_prefix_error(scope, arg, fields, code, count + 1);
    } else {
        assert(fields.take(count) =~= fields);
    }
}

/// Patterns that begin with patterns whose binding is refused are refused
/// for the same reason.
pub proof fn lemma_binds_prefix_error(
    ctx: ContextView,
    frame: ScopeView,
    first: nat,
    patterns: Seq<CaseExprs>,
    code: Seq<OpCode>,
    count: int,
)
    requires
        0 <= count <= patterns.len(),
        binds_spec(ctx, frame, first, patterns.take(count), code) is Err,
    ensures
        binds_spec(ctx, frame, first, patterns, code) == binds_spec(
            ctx,
            frame,
            first,
            patterns.take(count),
            code,
        ),
    decreases patterns.len() - count,
{
    if count < patterns.len() {
        assert(patterns.take(count + 1).drop_last() =~= patterns.take(count));
        lemma_binds_prefix_error(ctx, frame, first, patterns, code, count + 1);
    } else {
        assert(patterns.take(count) =~= patterns);
    }
}

/// Arms that begin with arms whose code is refused are refused for the
/// same reason.
pub proof fn lemma_arms_prefix_error(
    ctx: ContextView,
    frame: ScopeView,
    count: nat,
    arms: Seq<(String, Vec<CaseExprs>, Rc<Expr>)>,
    total: nat,
    unit: UnitView,
    done: int,
)
    requires
        0 <= done <= arms.len(),
        arms_spec(ctx, frame, count, arms.take(done), total, unit) is Err,
    ensures
        arms_spec(ctx, frame, count, arms, total, unit) matches Err(err) && arms_spec(
            ctx,
            frame,
            count,
            arms.take(done),
            total,
            unit,
        ) == Err::<(UnitView, Seq<int>), CompileErrorView>(err),
    decreases arms.len() - done,
{
    if done < arms.len() {
        assert(arms.take(done + 1).drop_last() =~= arms.take(done));
        lemma_arms_prefix_error(ctx, frame, count, arms, total, unit, done + 1);
    } else {
        assert(arms.take(done) =~= arms);
    }
}

/// Emits the tests of an arm and hands back the places of their branches.
#[verifier::loop_isolation(false)]
fn compile_tests<B>(
    globals: &Globals,
    registry: &BuiltinMaps<B>,
    frame: &Scope,
    first: usize,
    patterns: &Vec<CaseExprs>,
    code: &mut Vec<OpCode>,
) -> (r: Result<Vec<usize>, CompileError>)
    requires
        context_of(globals, registry).well_formed(),
        first + patterns@.len() <= frame@.height,
    ensures
        match tests_spec(
            context_of(globals, registry),
            frame@,
            first as nat,
            patterns@,
            old(code)@,
        ) {
            Ok((c, places)) => r matches Ok(found) && final(code)@ == c && places_view(found@)
                == places,
            Err(err) => r matches Err(x) && x@ == err,
        },
{
    let ghost ctx = context_of(globals, registry);
    let mut places: Vec<usize> = Vec::new();
    let mut i: usize = 0;
    proof {
        assert(patterns@.take(0) =~= Seq::<CaseExprs>::empty());
        assert(places_view(places@) =~= Seq::<int>::empty());
    }
    while i < patterns.len()
        invariant
            i <= patterns@.len(),
            tests_spec(ctx, frame@, first as nat, patterns@.take(i as int), old(code)@) == Ok::<
                (Seq<OpCode>, Seq<int>),
                CompileErrorView,
            >((code@, places_view(places@))),
        decreases patterns@.len() - i,
    {
        proof {
            assert(patterns@.take(i + 1).drop_last() =~= patterns@.take(i as int));
            assert(patterns@.take(i + 1).last() == patterns@[i as int]);
        }
        match &patterns[i] {
            CaseExprs::Variable(_) => {},
            CaseExprs::CaseSplit(constructor, fields) => {
                proof {
                    crate::names::lemma_last_index(ctx.constructors, constructor@);
                }
                match find_last(&globals.constructors, constructor) {
                    None => {
                        proof {
                            lemma_tests_prefix_error(
                                ctx,
                                frame@,
                                first as nat,
                                patterns@,
                                old(code)@,
                                i + 1,
                            );
                        }
                        return Err(CompileError::UnresolvedName(constructor.clone()));
                    },
                    Some(k) => {
                        if fields.len() != globals.fields[k] {
                            proof {
                                lemma_tests_prefix_error(
                                    ctx,
                                    frame@,
                                    first as nat,
                                    patterns@,
                                    old(code)@,
                                    i + 1,
                                );
                            }
                            return Err(CompileError::ArityMismatch(constructor.clone()));
                        }
                        let ghost before = places_view(places@);
                        code.push(OpCode::Local(frame.height - 1 - (first + i)));
                        code.push(OpCode::HasTag(globals.tags[k]));
                        let at = code.len();
                        code.push(OpCode::If(0, 0));
                        places.push(at);
                        proof {
                            assert(places_view(places@) =~= before.push(at as int));
                        }
                    },
                }
            },
        }
        i += 1;
    }
    proof {
        assert(patterns@.take(i as int) =~= patterns@);
    }
    Ok(places)
}

/// Emits the loads of the fields of the record in the slot `arg` and binds
/// them to the names `fields`.
#[verifier::loop_isolation(false)]
fn compile_fields(scope: &mut Scope, arg: usize, fields: &Vec<String>, code: &mut Vec<OpCode>) -> (r:
    Result<(), CompileError>)
    requires
        old(scope)@.well_formed(),
        arg < old(scope)@.height,
    ensures
        match fields_spec(old(scope)@, arg as nat, name_views(fields@), old(code)@) {
            Ok((s, c)) => r is Ok && final(scope)@ == s && final(code)@ == c,
            Err(err) => r matches Err(x) && x@ == err,
        },
        r is Ok ==> old(scope).names@.len() <= final(scope).names@.len(),
        r is Ok ==> final(scope).names@.take(old(scope).names@.len() as int) == old(scope).names@,
        r is Ok ==> final(scope).slots@.take(old(scope).slots@.len() as int) == old(scope).slots@,
        r is Ok ==> final(scope)@.well_formed() && old(scope)@.height <= final(scope)@.height,
{
    let ghost start = scope@;
    let ghost all = name_views(fields@);
    let depth = scope.names.len();
    let mut j: usize = 0;
    proof {
        assert(all.take(0) =~= Seq::<Seq<char>>::empty());
        assert(scope.names@.take(depth as int) =~= old(scope).names@);
        assert(scope.slots@.take(depth as int) =~= old(scope).slots@);
    }
    while j < fields.len()
        invariant
            j <= fields@.len(),
            scope@.well_formed(),
            arg < scope@.height,
            start.height <= scope@.height,
            depth <= scope.names@.len(),
            depth == old(scope).names@.len(),
            scope.names@.take(depth as int) == old(scope).names@,
            scope.slots@.take(depth as int) == old(scope).slots@,
            fields_spec(start, arg as nat, all.take(j as int), old(code)@) == Ok::<
                (ScopeView, Seq<OpCode>),
                CompileErrorView,
            >((scope@, code@)),
        decreases fields@.len() - j,
    {
        proof {
            assert(all.take(j + 1).drop_last() =~= all.take(j as int));
            assert(all.take(j + 1).last() == fields@[j as int]@);
        }
        if scope.height >= usize::MAX {
            proof {
                lemma_fields_prefix_error(start, arg as nat, all, old(code)@, j + 1);
            }
            return Err(CompileError::TooLarge);
        }
        let ghost before = scope@;
        code.push(OpCode::Local(scope.height - 1 - arg));
        code.push(OpCode::Field(j + 1));
        scope.height = scope.height + 1;
        scope.names.push(fields[j].clone());
        scope.slots.push(scope.height - 1);
        proof {
            assert(scope@.names =~= before.names.push(fields@[j as int]@));
            assert(scope.names@.take(depth as int) =~= old(scope).names@);
            assert(scope.slots@.take(depth as int) =~= old(scope).slots@);
        }
        j += 1;
    }
    proof {
        assert(all.take(j as int) =~= all);
    }
    Ok(())
}

/// Binds the names of the patterns of an arm.
#[verifier::loop_isolation(false)]
fn compile_binds<B>(
    globals: &Globals,
    registry: &BuiltinMaps<B>,
    scope: &mut Scope,
    first: usize,
    patterns: &Vec<CaseExprs>,
    code: &mut Vec<OpCode>,
) -> (r: Result<(), CompileError>)
    requires
        context_of(globals, registry).well_formed(),
        old(scope)@.well_formed(),
        first + patterns@.len() <= old(scope)@.height,
    ensures
        match binds_spec(
            context_of(globals, registry),
            old(scope)@,
            first as nat,
            patterns@,
            old(code)@,
        ) {
            Ok((s, c)) => r is Ok && final(scope)@ == s && final(code)@ == c && s.well_formed(),
            Err(err) => r matches Err(x) && x@ == err,
        },
        r is Ok ==> old(scope).names@.len() <= final(scope).names@.len(),
        r is Ok ==> final(scope).names@.take(old(scope).names@.len() as int) == old(scope).names@,
        r is Ok ==> final(scope).slots@.take(old(scope).slots@.len() as int) == old(scope).slots@,
        r is Ok ==> old(scope)@.height <= final(scope)@.height,
{
    let ghost ctx = context_of(globals, registry);
    let ghost start = scope@;
    let depth = scope.names.len();
    let mut i: usize = 0;
    proof {
        assert(patterns@.take(0) =~= Seq::<CaseExprs>::empty());
        assert(scope.names@.take(depth as int) =~= old(scope).names@);
        assert(scope.slots@.take(depth as int) =~= old(scope).slots@);
    }
    while i < patterns.len()
        invariant
            i <= patterns@.len(),
            scope@.well_formed(),
            start.height <= scope@.height,
            depth <= scope.names@.len(),
            depth == old(scope).names@.len(),
            scope.names@.take(depth as int) == old(scope).names@,
            scope.slots@.take(depth as int) == old(scope).slots@,
            binds_spec(ctx, start, first as nat, patterns@.take(i as int), old(code)@) == Ok::<
                (ScopeView, Seq<OpCode>),
                CompileErrorView,
            >((scope@, code@)),
        decreases patterns@.len() - i,
    {
        proof {
            assert(patterns@.take(i + 1).drop_last() =~= patterns@.take(i as int));
            assert(patterns@.take(i + 1).last() == patterns@[i as int]);
        }
        let ghost before = scope@;
        match &patterns[i] {
            CaseExprs::Variable(name) => {
                scope.names.push(name.clone());
                scope.slots.push(first + i);
                proof {
                    assert(scope@.names =~= before.names.push(name@));
                    assert(scope.names@.take(depth as int) =~= old(scope).names@);
                    assert(scope.slots@.take(depth as int) =~= old(scope).slots@);
                }
            },
            CaseExprs::CaseSplit(constructor, fields) => {
                proof {
                    crate::names::lemma_last_index(ctx.constructors, constructor@);
                }
                match find_last(&globals.constructors, constructor) {
                    None => {
                        proof {
                            lemma_binds_prefix_error(
                                ctx,
                                start,
                                first as nat,
                                patterns@,
                                old(code)@,
                                i + 1,
                            );
                        }
                        return Err(CompileError::UnresolvedName(constructor.clone()));
                    },
                    Some(k) => {
                        if fields.len() != globals.fields[k] {
                            proof {
                                lemma_binds_prefix_error(
                                    ctx,
                                    start,
                                    first as nat,
                                    patterns@,
                                    old(code)@,
                                    i + 1,
                                );
                            }
                            return Err(CompileError::ArityMismatch(constructor.clone()));
                        }
                        let ghost held = scope.names@;
                        let ghost slots = scope.slots@;
                        match compile_fields(scope, first + i, fields, code) {
                            Err(err) => {
                                proof {
                                    lemma_binds_prefix_error(
                                        ctx,
                                        start,
                                        first as nat,
                                        patterns@,
                                        old(code)@,
                                        i + 1,
                                    );
                                }
                                return Err(err);
                            },
                            Ok(()) => {},
                        }
                        proof {
                            assert forall|k: int| 0 <= k < depth implies scope.names@[k]
                                == held[k] by {
                                assert(scope.names@.take(held.len() as int)[k] == scope.names@[k]);
                            }
                            assert forall|k: int| 0 <= k < depth implies scope.slots@[k]
                                == slots[k] by {
                                assert(scope.slots@.take(slots.len() as int)[k] == scope.slots@[k]);
                            }
                            assert(scope.names@.take(depth as int) =~= held.take(depth as int));
                            assert(scope.slots@.take(depth as int) =~= slots.take(depth as int));
                        }
                    },
                }
            },
        }
        i += 1;
    }
    proof {
        assert(patterns@.take(i as int) =~= patterns@);
    }
    Ok(())
}

/// Sets the branch at each of the places: it goes on with the next
/// instruction where the test holds, and to `target` where it fails.
fn set_branches(code: &mut Vec<OpCode>, places: &Vec<usize>, target: usize)
    requires
        forall|i: int| 0 <= i < places@.len() ==> #[trigger] places@[i] < old(code)@.len(),
    ensures
        final(code)@ == patch_ifs(old(code)@, places_view(places@), target as nat),
        final(code)@.len() == old(code)@.len(),
{
    let ghost all = places_view(places@);
    let mut i: usize = 0;
    proof {
        assert(all.take(0) =~= Seq::<int>::empty());
        assert(code@.len() == code.len());
    }
    while i < places.len()
        invariant
            i <= places@.len(),
            all == places_view(places@),
            code@.len() == old(code)@.len(),
            code@.len() <= usize::MAX,
            forall|k: int| 0 <= k < places@.len() ==> #[trigger] places@[k] < old(code)@.len(),
            code@ == patch_ifs(old(code)@, all.take(i as int), target as nat),
        decreases places@.len() - i,
    {
        proof {
            assert(all.take(i + 1).drop_last() =~= all.take(i as int));
            assert(all.take(i + 1).last() == places@[i as int]);
        }
        let at = places[i];
        code.set(at, OpCode::If(at + 1, target));
        i += 1;
    }
    proof {
        assert(all.take(i as int) =~= all);
    }
}

/// Sets the jump at each of the places to `target`.
fn set_jumps(code: &mut Vec<OpCode>, places: &Vec<usize>, target: usize)
    requires
        forall|i: int| 0 <= i < places@.len() ==> #[trigger] places@[i] < old(code)@.len(),
    ensures
        final(code)@ == patch_jumps(old(code)@, places_view(places@), target as nat),
        final(code)@.len() == old(code)@.len(),
{
    let ghost all = places_view(places@);
    let mut i: usize = 0;
    proof {
        assert(all.take(0) =~= Seq::<int>::empty());
    }
    while i < places.len()
        invariant
            i <= places@.len(),
            all == places_view(places@),
            code@.len() == old(code)@.len(),
            forall|k: int| 0 <= k < places@.len() ==> #[trigger] places@[k] < old(code)@.len(),
            code@ == patch_jumps(old(code)@, all.take(i as int), target as nat),
        decreases places@.len() - i,
    {
        proof {
            assert(all.take(i + 1).drop_last() =~= all.take(i as int));
            assert(all.take(i + 1).last() == places@[i as int]);
        }
        code.set(places[i], OpCode::Jump(target));
        i += 1;
    }
    proof {
        assert(all.take(i as int) =~= all);
    }
}

/// Lays out one arm of a function by cases and hands back the place of
/// the jump that ends it, where it is not the last. The frame is handed
/// back as it was.
fn compile_arm<B>(
    globals: &Globals,
    registry: &BuiltinMaps<B>,
    frame: &mut Scope,
    count: usize,
    arm: &(String, Vec<CaseExprs>, Rc<Expr>),
    last: bool,
    unit: &mut Unit,
) -> (r: Result<Option<usize>, CompileError>)
    requires
        context_of(globals, registry).well_formed(),
        old(frame)@.well_formed(),
        count <= old(frame)@.height,
    ensures
        match arm_spec(
            context_of(globals, registry),
            old(frame)@,
            count as nat,
            *arm,
            last,
            old(unit)@,
        ) {
            Ok((u, jump)) => r matches Ok(found) && final(unit)@ == u && (match jump {
                Some(at) => found matches Some(place) && place == at,
                None => found is None,
            }),
            Err(err) => r matches Err(x) && x@ == err,
        },
        r is Ok ==> same_scope(final(frame), old(frame)),
    decreases arm, 0nat,
{
    let ghost ctx = context_of(globals, registry);
    let ghost start = unit@;
    let ghost frame_view = frame@;
    let depth = frame.names.len();
    let base = frame.height;
    let first = base - count;
    if arm.1.len() != count {
        return Err(CompileError::ArityMismatch(arm.0.clone()));
    }
    let places = if last {
        let empty: Vec<usize> = Vec::new();
        proof {
            assert(places_view(empty@) =~= Seq::<int>::empty());
        }
        empty
    } else {
        proof {
            lemma_tests_shape(ctx, frame_view, first as nat, arm.1@, unit.code@);
        }
        match compile_tests(globals, registry, frame, first, &arm.1, &mut unit.code) {
            Ok(places) => places,
            Err(err) => {
                return Err(err);
            },
        }
    };
    let ghost tested = unit.code@;
    proof {
        lemma_binds_code(ctx, frame_view, first as nat, arm.1@, tested);
        assert forall|i: int| 0 <= i < places@.len() implies #[trigger] places@[i] < tested.len() by {
            assert(places_view(places@)[i] == places@[i]);
        }
    }
    match compile_binds(globals, registry, frame, first, &arm.1, &mut unit.code) {
        Err(err) => {
            return Err(err);
        },
        Ok(()) => {},
    }
    let ghost bound_scope = frame@;
    let ghost entered = unit@;
    let body: &Expr = &arm.2;
    proof {
        lemma_expr_extends(ctx, bound_scope, *body, entered);
    }
    match compile_expr(globals, registry, frame, body, unit) {
        Err(err) => {
            return Err(err);
        },
        Ok(()) => {},
    }
    let held = frame.height - base;
    if held > 0 {
        unit.emit(OpCode::Slide(held));
    }
    frame.names.truncate(depth);
    frame.slots.truncate(depth);
    frame.height = base;
    if last {
        Ok(None)
    } else {
        let at = unit.code.len();
        unit.code.push(OpCode::Jump(0));
        let target = unit.code.len();
        set_branches(&mut unit.code, &places, target);
        Ok(Some(at))
    }
}

/// Emits a function by cases: its arms become a function of its own, whose
/// first parameters are the captured locals, and the code at this place
/// loads those locals and makes a closure of them.
#[verifier::loop_isolation(false)]
fn compile_case<B>(
    globals: &Globals,
    registry: &BuiltinMaps<B>,
    scope: &mut Scope,
    e: &Expr,
    unit: &mut Unit,
) -> (r: Result<(), CompileError>)
    requires
        old(scope)@.well_formed(),
        context_of(globals, registry).well_formed(),
        e is Case,
    ensures
        meets(
            expr_spec(context_of(globals, registry), old(scope)@, *e, old(unit)@),
            r,
            final(unit)@,
        ),
        r is Ok ==> same_scope(final(scope), old(scope)),
    decreases e, 0nat,
{
    let ghost ctx = context_of(globals, registry);
    match e {
        Expr::Case(arms) => {
            let mut captured: Vec<String> = Vec::new();
            let mut bound: Vec<String> = Vec::new();
            proof {
                assert(name_views(captured@) =~= Seq::<Seq<char>>::empty());
                assert(name_views(bound@) =~= Seq::<Seq<char>>::empty());
            }
            collect_free_arms(arms, &mut bound, &scope.names, &mut captured);
            if arms.len() == 0 {
                return Err(CompileError::EmptyCase);
            }
            let count = arms[0].1.len();
            let none: Vec<String> = Vec::new();
            proof {
                assert(name_views(captured@) + name_views(none@) =~= name_views(captured@));
                assert(captured@.len() == captured.len());
                assert(none@.len() == 0);
            }
            let mut frame = frame_for(&captured, &none).unwrap();
            let arity = match captured.len().checked_add(count) {
                Some(arity) => arity,
                None => {
                    return Err(CompileError::TooLarge);
                },
            };
            frame.height = arity;
            let ghost frame_view = frame@;
            proof {
                assert(frame_view == case_frame(name_views(captured@), count as nat));
            }
            let mut outer_code: Vec<OpCode> = Vec::new();
            std::mem::swap(&mut unit.code, &mut outer_code);
            let ghost start = unit@;
            let mut jumps: Vec<usize> = Vec::new();
            let mut a: usize = 0;
            proof {
                assert(arms@.take(0) =~= Seq::<(String, Vec<CaseExprs>, Rc<Expr>)>::empty());
                assert(places_view(jumps@) =~= Seq::<int>::empty());
            }
            while a < arms.len()
                invariant
                    a <= arms@.len(),
                    frame@ == frame_view,
                    frame_view.well_formed(),
                    count <= frame_view.height,
                    outer_code@ == old(unit)@.code,
                    forall|j: int| 0 <= j < jumps@.len() ==> #[trigger] jumps@[j] < unit.code@.len(),
                    arms_spec(ctx, frame_view, count as nat, arms@.take(a as int), arms@.len(), start)
                        == Ok::<(UnitView, Seq<int>), CompileErrorView>(
                        (unit@, places_view(jumps@)),
                    ),
                decreases arms@.len() - a,
            {
                proof {
                    assert(arms@.take(a + 1).drop_last() =~= arms@.take(a as int));
                    assert(arms@.take(a + 1).last() == arms@[a as int]);
                    lemma_arm_grow(
                        ctx,
                        frame_view,
                        count as nat,
                        arms@[a as int],
                        a + 1 == arms@.len(),
                        unit@,
                    );
                }
                let ghost kept = places_view(jumps@);
                match compile_arm(
                    globals,
                    registry,
                    &mut frame,
                    count,
                    &arms[a],
                    a + 1 == arms.len(),
                    unit,
                ) {
                    Err(err) => {
                        proof {
                            lemma_arms_prefix_error(
                                ctx,
                                frame_view,
                                count as nat,
                                arms@,
                                arms@.len(),
                                start,
                                a + 1,
                            );
                        }
                        return Err(err);
                    },
                    Ok(Some(at)) => {
                        jumps.push(at);
                        proof {
                            assert(places_view(jumps@) =~= kept.push(at as int));
                        }
                    },
                    Ok(None) => {},
                }
                a += 1;
            }
            proof {
                assert(arms@.take(a as int) =~= arms@);
            }
            let end = unit.code.len();
            set_jumps(&mut unit.code, &jumps, end);
            let ghost patched = unit.code@;
            if arity > 0 {
                unit.code.push(OpCode::Slide(arity));
            }
            unit.code.push(OpCode::Return);
            proof {
                assert(unit.code@ =~= patched + epilogue(arity as nat));
            }
            let index = match globals.names.len().checked_add(unit.lambdas.len()) {
                Some(index) => index,
                None => {
                    return Err(CompileError::TooLarge);
                },
            };
            std::mem::swap(&mut unit.code, &mut outer_code);
            let ghost lambdas = unit@.lambdas;
            unit.lambdas.push(outer_code);
            proof {
                assert(unit@.lambdas =~= lambdas.push(outer_code@));
            }
            match emit_loads(scope, &captured, &mut unit.code) {
                Err(err) => {
                    return Err(err);
                },
                Ok(()) => {},
            }
            unit.emit(OpCode::MakeClosure(index, count, captured.len()));
            Ok(())
        },
        _ => Err(CompileError::TooLarge),
    }
}

} // verus!
