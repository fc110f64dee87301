//! The syntax tree that the compiler takes, and the parser that reads a
//! text into it.
//!
//! Each tree has a shape, its mathematical content. The shape leaves out
//! the value of a floating-point literal, which the float unit decides. The
//! parser is proved to find in a text exactly what the grammar finds.

use crate::grammar::{
    advances, array_spec, char_spec, classify, decleration_spec, declerations_spec, digit_spec,
    digit_value, digits_value, expr1_spec, expr2_spec, expr3_spec, expr_spec, file_spec,
    function_spec, glyphs_spec, group_spec, import_spec, in_class, lambda_head_spec, letters,
    more_items_spec, more_names_spec, name_list_spec, name_spec, names_spec, number_spec,
    operator_token, paren_spec, run, skip_spaces, statement_spec, statements_spec, string_spec,
    symbol_spec, terms_spec, token_spec, value_spec, CharClass, Glyph,
};
use crate::names::name_views;
use crate::values::FloatUnit;
use std::rc::Rc;
use vstd::prelude::*;

verus! {

/// A top-level declaration, public or not.
#[derive(Debug, Clone)]
pub struct Decleration {
    pub public: bool,
    pub value: DeclerationVal,
}

/// What a declaration declares.
#[derive(Debug, Clone)]
pub enum DeclerationVal {
    /// An import, by the segments of its path.
    Import(Vec<String>),
    /// A function: name, parameters, body.
    Function(String, Vec<String>, Expr),
    /// A value: name and the expression that gives it.
    Value(String, Expr),
    /// An algebraic type: name and variants.
    Adt(String, Vec<EnumVariant>),
}

/// A statement of a block.
#[derive(Debug, Clone)]
pub enum Statement {
    /// An expression, evaluated for its value.
    Return(Expr),
    /// A binding of a name to the value of an expression.
    Assign(String, Expr),
}

/// An expression.
#[derive(Debug, Clone)]
pub enum Expr {
    /// An application: the callee and its arguments. Operators are stored as
    /// applications of the operator's token to two arguments.
    Function(Rc<Expr>, Vec<Rc<Expr>>),
    /// A block of statements.
    GroupExpr(Vec<Rc<Statement>>),
    /// A lambda: parameters and body.
    Lambda(Vec<String>, Rc<Expr>),
    /// Arms of a definition by cases: name, patterns, body.
    Case(Vec<(String, Vec<CaseExprs>, Rc<Expr>)>),
    Number(i64),
    /// A floating-point literal, as the bit pattern of an IEEE 754 binary64
    /// number.
    Float(u64),
    StrLiteral(String),
    Char(char),
    Array(Vec<Rc<Expr>>),
    Variable(String),
}

/// A pattern of a case arm.
#[derive(Debug, Clone)]
pub enum CaseExprs {
    /// Binds the whole argument.
    Variable(String),
    /// Takes a variant apart: its name and the names for its fields.
    CaseSplit(String, Vec<String>),
}

/// A variant of an algebraic type.
#[derive(Debug, Clone)]
pub struct EnumVariant {
    pub name: String,
    pub params: Vec<String>,
}

/// A source file: its declarations in order.
pub type File = Vec<Decleration>;

/// The content of an [`Expr`], without the values of its float literals.
pub enum ExprShape {
    Function(Box<ExprShape>, Seq<ExprShape>),
    GroupExpr(Seq<StatementShape>),
    Lambda(Seq<Seq<char>>, Box<ExprShape>),
    Case,
    Number(i64),
    Float,
    StrLiteral(Seq<char>),
    Char(char),
    Array(Seq<ExprShape>),
    Variable(Seq<char>),
}

/// The content of a [`Statement`].
pub enum StatementShape {
    Return(ExprShape),
    Assign(Seq<char>, ExprShape),
}

/// The content of a [`DeclerationVal`].
pub enum DeclerationValShape {
    Import(Seq<Seq<char>>),
    Function(Seq<char>, Seq<Seq<char>>, ExprShape),
    Value(Seq<char>, ExprShape),
    Adt,
}

/// The content of a [`Decleration`].
pub struct DeclerationShape {
    pub public: bool,
    pub value: DeclerationValShape,
}

/// The shape of an expression.
pub open spec fn expr_shape(e: Expr) -> ExprShape
    decreases e,
{
    match e {
        Expr::Function(callee, args) => ExprShape::Function(
            Box::new(expr_shape(*callee)),
            exprs_shape(args@),
        ),
        Expr::GroupExpr(statements) => ExprShape::GroupExpr(statements_shape(statements@)),
        Expr::Lambda(params, body) => ExprShape::Lambda(name_views(params@), Box::new(expr_shape(*body))),
        Expr::Case(_) => ExprShape::Case,
        Expr::Number(n) => ExprShape::Number(n),
        Expr::Float(_) => ExprShape::Float,
        Expr::StrLiteral(text) => ExprShape::StrLiteral(text@),
        Expr::Char(c) => ExprShape::Char(c),
        Expr::Array(items) => ExprShape::Array(exprs_shape(items@)),
        Expr::Variable(name) => ExprShape::Variable(name@),
    }
}

/// The shapes of a list of expressions.
pub open spec fn exprs_shape(items: Seq<Rc<Expr>>) -> Seq<ExprShape>
    decreases items,
{
    Seq::new(
        items.len(),
        |i: int| if 0 <= i < items.len() { expr_shape(*items[i]) } else { ExprShape::Case },
    )
}

/// The shapes of a list of statements.
pub open spec fn statements_shape(items: Seq<Rc<Statement>>) -> Seq<StatementShape>
    decreases items,
{
    Seq::new(
        items.len(),
        |i: int|
            if 0 <= i < items.len() {
                statement_shape(*items[i])
            } else {
                StatementShape::Return(ExprShape::Case)
            },
    )
}

/// The shape of a statement.
pub open spec fn statement_shape(s: Statement) -> StatementShape
    decreases s,
{
    match s {
        Statement::Return(e) => StatementShape::Return(expr_shape(e)),
        Statement::Assign(name, e) => StatementShape::Assign(name@, expr_shape(e)),
    }
}

/// The shape of a declaration.
pub open spec fn decleration_shape(d: Decleration) -> DeclerationShape {
    DeclerationShape {
        public: d.public,
        value: match d.value {
            DeclerationVal::Import(path) => DeclerationValShape::Import(name_views(path@)),
            DeclerationVal::Function(name, params, body) => DeclerationValShape::Function(
                name@,
                name_views(params@),
                expr_shape(body),
            ),
            DeclerationVal::Value(name, body) => DeclerationValShape::Value(name@, expr_shape(body)),
            DeclerationVal::Adt(_, _) => DeclerationValShape::Adt,
        },
    }
}

/// The shapes of the declarations of a file.
pub open spec fn file_shape(file: Seq<Decleration>) -> Seq<DeclerationShape> {
    Seq::new(file.len(), |i: int| decleration_shape(file[i]))
}

/// The text could not be read as a file.
#[derive(Debug, Clone, Copy, PartialEq, Eq)]
pub struct ParseError {
    /// How many characters were read as declarations before the fault.
    pub position: usize,
}

/// `String::push`: appends one character to the text.
#[verifier::external_body]
fn push_char(text: &mut String, c: char)
    ensures
        final(text)@ == old(text)@.push(c),
{
    text.push(c)
}

/// The characters of a text.
pub fn chars_of(text: &str) -> (r: Vec<char>)
    ensures
        r@ == text@,
{
    let mut out: Vec<char> = Vec::new();
    for c in it: text.chars()
        invariant
            it.seq() == text@,
            out@ == it.seq().take(it.index() as int),
    {
        out.push(c);
        proof {
            assert(out@ =~= it.seq().take(it.index() + 1));
        }
    }
    proof {
        assert(text@.take(text@.len() as int) =~= text@);
    }
    out
}

/// The glyphs of a text.
pub fn glyphs_of(text: &str) -> (r: Vec<Glyph>)
    ensures
        r@ == glyphs_spec(text@),
{
    let mut out: Vec<Glyph> = Vec::new();
    for c in it: text.chars()
        invariant
            it.seq() == text@,
            out@ == glyphs_spec(it.seq().take(it.index() as int)),
    {
        out.push(classify(c));
        proof {
            assert(out@ =~= glyphs_spec(it.seq().take(it.index() + 1)));
        }
    }
    proof {
        assert(text@.take(text@.len() as int) =~= text@);
    }
    out
}

/// The character at `i`.
fn char_at(s: &Vec<Glyph>, i: usize) -> (c: char)
    requires
        i < s@.len(),
    ensures
        c == s@[i as int].c,
{
    s[i].c
}

/// The text of the characters from `from` up to `to`.
fn text_of(s: &Vec<Glyph>, from: usize, to: usize) -> (r: String)
    requires
        from <= to <= s@.len(),
    ensures
        r@ == letters(s@.subrange(from as int, to as int)),
{
    let mut text = String::new();
    let mut i: usize = from;
    while i < to
        invariant
            from <= i <= to,
            to <= s@.len(),
            text@ == letters(s@.subrange(from as int, i as int)),
        decreases to - i,
    {
        push_char(&mut text, s[i].c);
        proof {
            assert(text@ =~= letters(s@.subrange(from as int, i + 1)));
        }
        i += 1;
    }
    text
}

/// Whether the glyph is of the class.
fn class_holds(class: CharClass, g: Glyph) -> (r: bool)
    ensures
        r == in_class(class, g),
{
    let c = g.c;
    match class {
        CharClass::Blank => g.blank,
        CharClass::Word => g.word,
        CharClass::Operator => c == '+' || c == '-' || c == '&' || c == '^' || c == '%' || c == '$'
            || c == '@' || c == '!' || c == '=' || c == ':' || c == '<' || c == '>' || c == '\\'
            || c == '/' || c == '*',
        CharClass::Digit => c >= '0' && c <= '9',
        CharClass::InString => c != '"',
    }
}

/// The place after the run of characters of the class at `pos`.
fn run_end(class: CharClass, s: &Vec<Glyph>, pos: usize) -> (r: usize)
    requires
        pos <= s@.len(),
    ensures
        r == pos + run(class, s@, pos as int),
        pos <= r <= s@.len(),
        forall|i: int| pos <= i < r ==> in_class(class, #[trigger] s@[i]),
{
    let mut i: usize = pos;
    while i < s.len()
        invariant
            pos <= i <= s@.len(),
            run(class, s@, pos as int) == (i - pos) + run(class, s@, i as int),
            forall|k: int| pos <= k < i ==> in_class(class, #[trigger] s@[k]),
        decreases s@.len() - i,
    {
        if !class_holds(class, s[i]) {
            return i;
        }
        i += 1;
    }
    i
}

/// The place after the blanks at `pos`.
fn skip(s: &Vec<Glyph>, pos: usize) -> (r: usize)
    requires
        pos <= s@.len(),
    ensures
        r == skip_spaces(s@, pos as int),
        pos <= r <= s@.len(),
{
    run_end(CharClass::Blank, s, pos)
}

/// The one-character token `c`, with the blanks after it.
fn symbol(s: &Vec<Glyph>, pos: usize, c: char) -> (r: Option<usize>)
    requires
        pos <= s@.len(),
    ensures
        match symbol_spec(s@, pos as int, c) {
            Some(next) => r matches Some(n) && n == next && pos < n <= s@.len(),
            None => r is None,
        },
{
    if pos < s.len() && s[pos].c == c {
        Some(skip(s, pos + 1))
    } else {
        None
    }
}

/// The token `text`, with the blanks after it.
fn keyword(s: &Vec<Glyph>, pos: usize, text: &str) -> (r: Option<usize>)
    requires
        pos <= s@.len(),
    ensures
        match token_spec(s@, pos as int, text@) {
            Some(next) => r matches Some(n) && n == next && pos <= n <= s@.len(),
            None => r is None,
        },
{
    let word = chars_of(text);
    if word.len() > s.len() - pos {
        return None;
    }
    let mut i: usize = 0;
    while i < word.len()
        invariant
            i <= word@.len(),
            pos + word@.len() <= s@.len(),
            s@.len() <= usize::MAX,
            word@ == text@,
            forall|k: int| 0 <= k < i ==> s@[pos + k].c == word@[k],
        decreases word@.len() - i,
    {
        if s[pos + i].c != word[i] {
            proof {
                assert(letters(s@.subrange(pos as int, pos + word@.len()))[i as int]
                    != word@[i as int]);
            }
            return None;
        }
        i += 1;
    }
    proof {
        assert(letters(s@.subrange(pos as int, pos + word@.len())) =~= word@);
    }
    Some(skip(s, pos + word.len()))
}

/// A name, with the blanks after it.
fn name(s: &Vec<Glyph>, pos: usize) -> (r: Option<(String, usize)>)
    requires
        pos <= s@.len(),
    ensures
        match name_spec(s@, pos as int) {
            Some((text, next)) => r matches Some((found, n)) && found@ == text && n == next && pos
                < n <= s@.len(),
            None => r is None,
        },
{
    if pos < s.len() && s[pos].letter {
        let end = run_end(CharClass::Word, s, pos + 1);
        Some((text_of(s, pos, end), skip(s, end)))
    } else {
        None
    }
}

/// An operator, with the blanks after it.
fn operator(s: &Vec<Glyph>, pos: usize) -> (r: Option<(String, usize)>)
    requires
        pos <= s@.len(),
    ensures
        match operator_token(s@, pos as int) {
            Some((text, next)) => r matches Some((found, n)) && found@ == text && n == next && pos
                < n <= s@.len(),
            None => r is None,
        },
{
    let end = run_end(CharClass::Operator, s, pos);
    if end > pos {
        Some((text_of(s, pos, end), skip(s, end)))
    } else {
        None
    }
}

/// A text between double quotes, with the blanks after it.
fn parse_string(s: &Vec<Glyph>, pos: usize) -> (r: Option<(Expr, usize)>)
    requires
        pos <= s@.len(),
    ensures
        yields(string_spec(s@, pos as int), r, s@, pos as int),
{
    if pos < s.len() && s[pos].c == '"' {
        let end = run_end(CharClass::InString, s, pos + 1);
        if end < s.len() && s[end].c == '"' {
            Some((Expr::StrLiteral(text_of(s, pos + 1, end)), skip(s, end + 1)))
        } else {
            None
        }
    } else {
        None
    }
}

/// A character between single quotes, with the blanks after it.
fn parse_char(s: &Vec<Glyph>, pos: usize) -> (r: Option<(Expr, usize)>)
    requires
        pos <= s@.len(),
    ensures
        yields(char_spec(s@, pos as int), r, s@, pos as int),
{
    if s.len() - pos <= 2 {
        return None;
    }
    let quote = '\'';
    if s[pos].c == quote && s[pos + 1].c != quote && s[pos + 2].c == quote {
        Some((Expr::Char(char_at(s, pos + 1)), skip(s, pos + 3)))
    } else {
        None
    }
}

/// What a function that reads an expression owes: where the grammar finds
/// one, an expression of that shape and the place after it, which lies after
/// `pos` and inside the text; where it finds none, nothing.
pub open spec fn yields(
    expected: Option<(ExprShape, int)>,
    r: Option<(Expr, usize)>,
    s: Seq<Glyph>,
    pos: int,
) -> bool {
    match expected {
        Some((shape, next)) => r matches Some((e, n)) && expr_shape(e) == shape && n == next
            && advances(s, pos, n as int),
        None => r is None,
    }
}

/// The number of a run of digits that begins with a shorter run is no
/// smaller than the number of that shorter run.
pub proof fn lemma_digits_grow(digits: Seq<char>, count: int)
    requires
        0 <= count <= digits.len(),
        forall|i: int| 0 <= i < digits.len() ==> digit_spec(#[trigger] digits[i]),
    ensures
        0 <= digits_value(digits.take(count)) <= digits_value(digits),
    decreases digits.len() - count,
{
    lemma_digits_nonnegative(digits.take(count));
    if count < digits.len() {
        let longer = digits.take(count + 1);
        assert(longer.drop_last() =~= digits.take(count));
        assert(longer.last() == digits[count]);
        lemma_digits_grow(digits, count + 1);
    } else {
        assert(digits.take(count) =~= digits);
    }
}

/// A run of digits denotes no negative number.
pub proof fn lemma_digits_nonnegative(digits: Seq<char>)
    requires
        forall|i: int| 0 <= i < digits.len() ==> digit_spec(#[trigger] digits[i]),
    ensures
        0 <= digits_value(digits),
    decreases digits.len(),
{
    if digits.len() > 0 {
        lemma_digits_nonnegative(digits.drop_last());
    }
}

/// A number, with the blanks after it. The float unit decides the value of
/// a float.
#[verifier::loop_isolation(false)]
fn number<F: FloatUnit>(floats: &F, s: &Vec<Glyph>, pos: usize) -> (r: Option<(Expr, usize)>)
    requires
        pos <= s@.len(),
    ensures
        yields(number_spec(s@, pos as int), r, s@, pos as int),
{
    let negative = pos < s.len() && s[pos].c == '-';
    let start = if negative {
        pos + 1
    } else {
        pos
    };
    let end = run_end(CharClass::Digit, s, start);
    if end == start {
        return None;
    }
    let ghost digits = letters(s@.subrange(start as int, end as int));
    let mut whole: i64 = 0;
    let mut i: usize = start;
    proof {
        assert(digits.take(0) =~= Seq::<char>::empty());
    }
    while i < end
        invariant
            start <= i <= end,
            end <= s@.len(),
            digits == letters(s@.subrange(start as int, end as int)),
            forall|k: int| 0 <= k < digits.len() ==> digit_spec(#[trigger] digits[k]),
            whole == digits_value(digits.take(i - start)),
            0 <= whole,
        decreases end - i,
    {
        proof {
            assert(digits.take(i - start + 1).drop_last() =~= digits.take(i - start));
            assert(digits.take(i - start + 1).last() == s@[i as int].c);
            assert(digit_spec(digits[i - start]));
            lemma_digits_grow(digits, i - start + 1);
        }
        let digit = (s[i].c as u32 - '0' as u32) as i64;
        proof {
            assert(digit == digit_value(s@[i as int].c));
            assert(digits_value(digits.take(i - start + 1)) == whole * 10 + digit);
        }
        if whole > (i64::MAX - digit) / 10 {
            proof {
                assert(whole * 10 + digit > i64::MAX);
                assert(digits_value(digits) > i64::MAX);
            }
            return None;
        }
        whole = whole * 10 + digit;
        i += 1;
    }
    proof {
        assert(digits.take(end - start) =~= digits);
    }
    let fraction_end = if end < s.len() && s[end].c == '.' {
        run_end(CharClass::Digit, s, end + 1)
    } else {
        end
    };
    if fraction_end > end && fraction_end - end > 1 {
        let mut fraction: Vec<u32> = Vec::new();
        let mut j: usize = end + 1;
        while j < fraction_end
            invariant
                end + 1 <= j <= fraction_end,
                fraction_end <= s@.len(),
                forall|k: int| end + 1 <= k < fraction_end ==> digit_spec((#[trigger] s@[k]).c),
                forall|k: int| 0 <= k < fraction@.len() ==> fraction@[k] <= 9,
            decreases fraction_end - j,
        {
            assert(digit_spec(s@[j as int].c));
            fraction.push(s[j].c as u32 - '0' as u32);
            j += 1;
        }
        let bits = floats.decimal(negative, whole, &fraction);
        Some((Expr::Float(bits), skip(s, fraction_end)))
    } else {
        let value = if negative {
            -whole
        } else {
            whole
        };
        Some((Expr::Number(value), skip(s, end)))
    }
}

/// One or more names, one after another.
#[verifier::loop_isolation(false)]
fn names(s: &Vec<Glyph>, pos: usize) -> (r: (Vec<String>, usize))
    requires
        pos <= s@.len(),
    ensures
        name_views(r.0@) == names_spec(s@, pos as int).0,
        r.1 == names_spec(s@, pos as int).1,
        pos <= r.1 <= s@.len(),
{
    let mut found: Vec<String> = Vec::new();
    let mut cur: usize = pos;
    let mut going = true;
    proof {
        assert(name_views(found@) + names_spec(s@, pos as int).0 =~= names_spec(s@, pos as int).0);
    }
    while going
        invariant
            pos <= cur <= s@.len(),
            going ==> names_spec(s@, pos as int) == (
                name_views(found@) + names_spec(s@, cur as int).0,
                names_spec(s@, cur as int).1,
            ),
            !going ==> names_spec(s@, pos as int) == (name_views(found@), cur as int),
        decreases s@.len() - cur, going as int,
    {
        match name(s, cur) {
            Some((text, next)) => {
                let ghost before = name_views(found@);
                let ghost rest = names_spec(s@, next as int).0;
                found.push(text);
                proof {
                    assert(name_views(found@) =~= before.push(text@));
                    assert(before + (seq![text@] + rest) =~= name_views(found@) + rest);
                }
                cur = next;
            },
            None => {
                proof {
                    assert(name_views(found@) + Seq::<Seq<char>>::empty() =~= name_views(found@));
                }
                going = false;
            },
        }
    }
    (found, cur)
}

/// One or more names with the separator between them.
#[verifier::loop_isolation(false)]
fn name_list(s: &Vec<Glyph>, pos: usize, separator: char) -> (r: Option<(Vec<String>, usize)>)
    requires
        pos <= s@.len(),
    ensures
        match name_list_spec(s@, pos as int, separator) {
            Some((expected, next)) => r matches Some((found, n)) && name_views(found@) == expected && n
                == next && pos < n <= s@.len(),
            None => r is None,
        },
{
    let (first, start) = match name(s, pos) {
        Some(found) => found,
        None => {
            return None;
        },
    };
    let mut found: Vec<String> = Vec::new();
    found.push(first);
    let mut cur: usize = start;
    let mut going = true;
    let ghost head = seq![first@];
    proof {
        assert(name_views(found@) =~= head);
    }
    while going
        invariant
            start <= cur <= s@.len(),
            going ==> head + more_names_spec(s@, start as int, separator).0 == name_views(found@)
                + more_names_spec(s@, cur as int, separator).0,
            going ==> more_names_spec(s@, start as int, separator).1 == more_names_spec(
                s@,
                cur as int,
                separator,
            ).1,
            !going ==> head + more_names_spec(s@, start as int, separator).0 == name_views(found@),
            !going ==> more_names_spec(s@, start as int, separator).1 == cur,
        decreases s@.len() - cur, going as int,
    {
        let next_name = match symbol(s, cur, separator) {
            Some(after) => name(s, after),
            None => None,
        };
        match next_name {
            Some((text, next)) => {
                let ghost before = name_views(found@);
                let ghost rest = more_names_spec(s@, next as int, separator).0;
                found.push(text);
                proof {
                    assert(name_views(found@) =~= before.push(text@));
                    assert(before + (seq![text@] + rest) =~= name_views(found@) + rest);
                }
                cur = next;
            },
            None => {
                proof {
                    assert(name_views(found@) + Seq::<Seq<char>>::empty() =~= name_views(found@));
                }
                going = false;
            },
        }
    }
    Some((found, cur))
}

/// The head of a lambda: a backslash, one or more parameters, an arrow.
fn lambda_head(s: &Vec<Glyph>, pos: usize) -> (r: Option<(Vec<String>, usize)>)
    requires
        pos <= s@.len(),
    ensures
        match lambda_head_spec(s@, pos as int) {
            Some((expected, next)) => r matches Some((found, n)) && name_views(found@) == expected && n
                == next && pos < n <= s@.len(),
            None => r is None,
        },
{
    let after = match symbol(s, pos, '\\') {
        Some(after) => after,
        None => {
            return None;
        },
    };
    let (params, arrow_at) = names(s, after);
    if params.len() == 0 {
        return None;
    }
    match keyword(s, arrow_at, "->") {
        Some(body_at) => Some((params, body_at)),
        None => None,
    }
}

/// An expression.
fn parse_expr<F: FloatUnit>(floats: &F, s: &Vec<Glyph>, pos: usize) -> (r: Option<(Expr, usize)>)
    requires
        pos <= s@.len(),
    ensures
        yields(expr_spec(s@, pos as int), r, s@, pos as int),
    decreases s@.len() - pos, 4int,
{
    match lambda_head(s, pos) {
        Some((params, body_at)) => {
            match parse_expr(floats, s, body_at) {
                Some((body, next)) => {
                    return Some((Expr::Lambda(params, Rc::new(body)), next));
                },
                None => {},
            }
        },
        None => {},
    }
    parse_expr1(floats, s, pos)
}

/// An operator expression.
fn parse_expr1<F: FloatUnit>(floats: &F, s: &Vec<Glyph>, pos: usize) -> (r: Option<(Expr, usize)>)
    requires
        pos <= s@.len(),
    ensures
        yields(expr1_spec(s@, pos as int), r, s@, pos as int),
    decreases s@.len() - pos, 3int,
{
    let (left, next) = match parse_expr2(floats, s, pos) {
        Some(found) => found,
        None => {
            return None;
        },
    };
    let (token, after) = match operator(s, next) {
        Some(found) => found,
        None => {
            return Some((left, next));
        },
    };
    match parse_expr1(floats, s, after) {
        Some((right, end)) => {
            let mut args: Vec<Rc<Expr>> = Vec::new();
            args.push(Rc::new(left));
            args.push(Rc::new(right));
            proof {
                assert(exprs_shape(args@) =~= seq![expr_shape(left), expr_shape(right)]);
                assert(expr_shape(Expr::Variable(token)) == ExprShape::Variable(token@));
            }
            Some((Expr::Function(Rc::new(Expr::Variable(token)), args), end))
        },
        None => Some((left, next)),
    }
}

/// An application.
#[verifier::loop_isolation(false)]
fn parse_expr2<F: FloatUnit>(floats: &F, s: &Vec<Glyph>, pos: usize) -> (r: Option<(Expr, usize)>)
    requires
        pos <= s@.len(),
    ensures
        yields(expr2_spec(s@, pos as int), r, s@, pos as int),
    decreases s@.len() - pos, 2int,
{
    let (callee, start) = match parse_expr3(floats, s, pos) {
        Some(found) => found,
        None => {
            return None;
        },
    };
    let mut args: Vec<Rc<Expr>> = Vec::new();
    let mut cur: usize = start;
    let mut going = true;
    proof {
        assert(exprs_shape(args@) + terms_spec(s@, start as int).0 =~= terms_spec(
            s@,
            start as int,
        ).0);
    }
    while going
        invariant
            start <= cur <= s@.len(),
            going ==> terms_spec(s@, start as int) == (
                exprs_shape(args@) + terms_spec(s@, cur as int).0,
                terms_spec(s@, cur as int).1,
            ),
            !going ==> terms_spec(s@, start as int) == (exprs_shape(args@), cur as int),
        decreases s@.len() - cur, going as int,
    {
        match parse_expr3(floats, s, cur) {
            Some((term, next)) => {
                let ghost before = exprs_shape(args@);
                let ghost rest = terms_spec(s@, next as int).0;
                args.push(Rc::new(term));
                proof {
                    assert(exprs_shape(args@) =~= before.push(expr_shape(term)));
                    assert(before + (seq![expr_shape(term)] + rest) =~= exprs_shape(args@) + rest);
                }
                cur = next;
            },
            None => {
                proof {
                    assert(exprs_shape(args@) + Seq::<ExprShape>::empty() =~= exprs_shape(args@));
                }
                going = false;
            },
        }
    }
    if args.len() == 0 {
        Some((callee, start))
    } else {
        Some((Expr::Function(Rc::new(callee), args), cur))
    }
}

/// A term.
fn parse_expr3<F: FloatUnit>(floats: &F, s: &Vec<Glyph>, pos: usize) -> (r: Option<(Expr, usize)>)
    requires
        pos <= s@.len(),
    ensures
        yields(expr3_spec(s@, pos as int), r, s@, pos as int),
    decreases s@.len() - pos, 1int,
{
    if let Some(found) = parse_paren(floats, s, pos) {
        return Some(found);
    }
    if let Some((text, next)) = name(s, pos) {
        return Some((Expr::Variable(text), next));
    }
    if let Some(found) = parse_array(floats, s, pos) {
        return Some(found);
    }
    if let Some(found) = number(floats, s, pos) {
        return Some(found);
    }
    if let Some(found) = parse_string(s, pos) {
        return Some(found);
    }
    parse_char(s, pos)
}

/// An expression in parentheses.
fn parse_paren<F: FloatUnit>(floats: &F, s: &Vec<Glyph>, pos: usize) -> (r: Option<(Expr, usize)>)
    requires
        pos <= s@.len(),
    ensures
        yields(paren_spec(s@, pos as int), r, s@, pos as int),
    decreases s@.len() - pos, 0int,
{
    let inside = match symbol(s, pos, '(') {
        Some(inside) => inside,
        None => {
            return None;
        },
    };
    let (e, next) = match parse_expr(floats, s, inside) {
        Some(found) => found,
        None => {
            return None;
        },
    };
    match symbol(s, next, ')') {
        Some(after) => Some((e, after)),
        None => None,
    }
}

/// An array.
#[verifier::loop_isolation(false)]
fn parse_array<F: FloatUnit>(floats: &F, s: &Vec<Glyph>, pos: usize) -> (r: Option<(Expr, usize)>)
    requires
        pos <= s@.len(),
    ensures
        yields(array_spec(s@, pos as int), r, s@, pos as int),
    decreases s@.len() - pos, 0int,
{
    let inside = match symbol(s, pos, '[') {
        Some(inside) => inside,
        None => {
            return None;
        },
    };
    let mut items: Vec<Rc<Expr>> = Vec::new();
    let mut cur: usize = inside;
    match parse_expr(floats, s, inside) {
        Some((first, start)) => {
            items.push(Rc::new(first));
            cur = start;
            let mut going = true;
            let ghost head = seq![expr_shape(first)];
            proof {
                assert(exprs_shape(items@) =~= head);
            }
            while going
                invariant
                    start <= cur <= s@.len(),
                    going ==> head + more_items_spec(s@, start as int).0 == exprs_shape(items@)
                        + more_items_spec(s@, cur as int).0,
                    going ==> more_items_spec(s@, start as int).1 == more_items_spec(
                        s@,
                        cur as int,
                    ).1,
                    !going ==> head + more_items_spec(s@, start as int).0 == exprs_shape(items@),
                    !going ==> more_items_spec(s@, start as int).1 == cur,
                decreases s@.len() - cur, going as int,
            {
                let next_item = match symbol(s, cur, ',') {
                    Some(after) => parse_expr(floats, s, after),
                    None => None,
                };
                match next_item {
                    Some((item, next)) => {
                        let ghost before = exprs_shape(items@);
                        let ghost rest = more_items_spec(s@, next as int).0;
                        items.push(Rc::new(item));
                        proof {
                            assert(exprs_shape(items@) =~= before.push(expr_shape(item)));
                            assert(before + (seq![expr_shape(item)] + rest) =~= exprs_shape(items@)
                                + rest);
                        }
                        cur = next;
                    },
                    None => {
                        proof {
                            assert(exprs_shape(items@) + Seq::<ExprShape>::empty() =~= exprs_shape(
                                items@,
                            ));
                        }
                        going = false;
                    },
                }
            }
        },
        None => {
            proof {
                assert(exprs_shape(items@) =~= Seq::<ExprShape>::empty());
            }
        },
    }
    match symbol(s, cur, ']') {
        Some(after) => Some((Expr::Array(items), after)),
        None => None,
    }
}

/// What a function that reads a declaration's content owes.
pub open spec fn yields_value(
    expected: Option<(DeclerationValShape, int)>,
    r: Option<(DeclerationVal, usize)>,
    s: Seq<Glyph>,
    pos: int,
) -> bool {
    match expected {
        Some((shape, next)) => r matches Some((value, n)) && decleration_shape(
            Decleration { public: false, value },
        ).value == shape && n == next && advances(s, pos, n as int),
        None => r is None,
    }
}

/// A statement.
fn statement<F: FloatUnit>(floats: &F, s: &Vec<Glyph>, pos: usize) -> (r: Option<
    (Statement, usize),
>)
    requires
        pos <= s@.len(),
    ensures
        match statement_spec(s@, pos as int) {
            Some((shape, next)) => r matches Some((found, n)) && statement_shape(found) == shape
                && n == next && pos < n <= s@.len(),
            None => r is None,
        },
{
    match keyword(s, pos, "let") {
        Some(after) => {
            let (text, next) = match name(s, after) {
                Some(found) => found,
                None => {
                    return None;
                },
            };
            let value_at = match symbol(s, next, '=') {
                Some(value_at) => value_at,
                None => {
                    return None;
                },
            };
            match parse_expr(floats, s, value_at) {
                Some((value, end)) => Some((Statement::Assign(text, value), end)),
                None => None,
            }
        },
        None => match parse_expr(floats, s, pos) {
            Some((value, end)) => Some((Statement::Return(value), end)),
            None => None,
        },
    }
}

/// A block.
#[verifier::loop_isolation(false)]
fn group_expr<F: FloatUnit>(floats: &F, s: &Vec<Glyph>, pos: usize) -> (r: Option<(Expr, usize)>)
    requires
        pos <= s@.len(),
    ensures
        yields(group_spec(s@, pos as int), r, s@, pos as int),
{
    let inside = match symbol(s, pos, '{') {
        Some(inside) => inside,
        None => {
            return None;
        },
    };
    let mut found: Vec<Rc<Statement>> = Vec::new();
    let mut cur: usize = inside;
    let mut going = true;
    proof {
        assert(statements_shape(found@) + statements_spec(s@, inside as int).0
            =~= statements_spec(s@, inside as int).0);
    }
    while going
        invariant
            inside <= cur <= s@.len(),
            going ==> statements_spec(s@, inside as int) == (
                statements_shape(found@) + statements_spec(s@, cur as int).0,
                statements_spec(s@, cur as int).1,
            ),
            !going ==> statements_spec(s@, inside as int) == (statements_shape(found@), cur as int),
        decreases s@.len() - cur, going as int,
    {
        let next_statement = match statement(floats, s, cur) {
            Some((one, next)) => match symbol(s, next, ';') {
                Some(after) => Some((one, after)),
                None => None,
            },
            None => None,
        };
        match next_statement {
            Some((one, after)) => {
                let ghost before = statements_shape(found@);
                let ghost rest = statements_spec(s@, after as int).0;
                found.push(Rc::new(one));
                proof {
                    assert(statements_shape(found@) =~= before.push(statement_shape(one)));
                    assert(before + (seq![statement_shape(one)] + rest) =~= statements_shape(found@)
                        + rest);
                }
                cur = after;
            },
            None => {
                proof {
                    assert(statements_shape(found@) + Seq::<StatementShape>::empty()
                        =~= statements_shape(found@));
                }
                going = false;
            },
        }
    }
    if found.len() == 0 {
        return None;
    }
    match symbol(s, cur, '}') {
        Some(after) => Some((Expr::GroupExpr(found), after)),
        None => None,
    }
}

/// An import.
fn import(s: &Vec<Glyph>, pos: usize) -> (r: Option<(DeclerationVal, usize)>)
    requires
        pos <= s@.len(),
    ensures
        yields_value(import_spec(s@, pos as int), r, s@, pos as int),
{
    let after = match keyword(s, pos, "use") {
        Some(after) => after,
        None => {
            return None;
        },
    };
    let (path, next) = match name_list(s, after, '.') {
        Some(found) => found,
        None => {
            return None;
        },
    };
    match symbol(s, next, ';') {
        Some(end) => Some((DeclerationVal::Import(path), end)),
        None => None,
    }
}

/// A function.
fn function<F: FloatUnit>(floats: &F, s: &Vec<Glyph>, pos: usize) -> (r: Option<
    (DeclerationVal, usize),
>)
    requires
        pos <= s@.len(),
    ensures
        yields_value(function_spec(s@, pos as int), r, s@, pos as int),
{
    let after = match keyword(s, pos, "fun") {
        Some(after) => after,
        None => {
            return None;
        },
    };
    let (text, next) = match name(s, after) {
        Some(found) => found,
        None => {
            return None;
        },
    };
    let inside = match symbol(s, next, '(') {
        Some(inside) => inside,
        None => {
            return None;
        },
    };
    let (params, close_at) = match name_list(s, inside, ',') {
        Some(found) => found,
        None => {
            return None;
        },
    };
    let body_at = match symbol(s, close_at, ')') {
        Some(body_at) => body_at,
        None => {
            return None;
        },
    };
    match group_expr(floats, s, body_at) {
        Some((body, end)) => Some((DeclerationVal::Function(text, params, body), end)),
        None => None,
    }
}

/// A value.
fn value<F: FloatUnit>(floats: &F, s: &Vec<Glyph>, pos: usize) -> (r: Option<
    (DeclerationVal, usize),
>)
    requires
        pos <= s@.len(),
    ensures
        yields_value(value_spec(s@, pos as int), r, s@, pos as int),
{
    let after = match keyword(s, pos, "let") {
        Some(after) => after,
        None => {
            return None;
        },
    };
    let (text, next) = match name(s, after) {
        Some(found) => found,
        None => {
            return None;
        },
    };
    let body_at = match symbol(s, next, '=') {
        Some(body_at) => body_at,
        None => {
            return None;
        },
    };
    match group_expr(floats, s, body_at) {
        Some((body, end)) => Some((DeclerationVal::Value(text, body), end)),
        None => None,
    }
}

/// A declaration.
fn decleration<F: FloatUnit>(floats: &F, s: &Vec<Glyph>, pos: usize) -> (r: Option<
    (Decleration, usize),
>)
    requires
        pos <= s@.len(),
    ensures
        match decleration_spec(s@, pos as int) {
            Some((shape, next)) => r matches Some((found, n)) && decleration_shape(found) == shape
                && n == next && pos < n <= s@.len(),
            None => r is None,
        },
{
    let marked = keyword(s, pos, "pub");
    let (public, at) = match marked {
        Some(after) => (true, after),
        None => (false, pos),
    };
    let found = match import(s, at) {
        Some(found) => Some(found),
        None => match function(floats, s, at) {
            Some(found) => Some(found),
            None => value(floats, s, at),
        },
    };
    match found {
        Some((value, end)) => Some((Decleration { public, value }, end)),
        None => None,
    }
}

/// Reads a text as a file. The characters are classified first; the
/// grammar is then applied to the glyphs.
pub fn parser<F: FloatUnit>(floats: &F, input: &str) -> (r: Result<File, ParseError>)
    ensures
        match file_spec(glyphs_spec(input@)) {
            Some(shapes) => r matches Ok(file) && file_shape(file@) == shapes,
            None => r matches Err(fault) && fault.position == declerations_spec(
                glyphs_spec(input@),
                skip_spaces(glyphs_spec(input@), 0),
            ).1,
        },
{
    let glyphs = glyphs_of(input);
    parse_file(floats, &glyphs)
}

/// Reads a file: blanks, then declarations up to the end of the text. The
/// float unit decides the value of each float literal. A fault names the
/// place where the declarations ended.
#[verifier::loop_isolation(false)]
pub fn parse_file<F: FloatUnit>(floats: &F, s: &Vec<Glyph>) -> (r: Result<File, ParseError>)
    ensures
        match file_spec(s@) {
            Some(shapes) => r matches Ok(file) && file_shape(file@) == shapes,
            None => r matches Err(fault) && fault.position == declerations_spec(
                s@,
                skip_spaces(s@, 0),
            ).1,
        },
{
    let start = skip(s, 0);
    let mut file: Vec<Decleration> = Vec::new();
    let mut cur: usize = start;
    let mut going = true;
    proof {
        assert(file_shape(file@) + declerations_spec(s@, start as int).0 =~= declerations_spec(
            s@,
            start as int,
        ).0);
    }
    while going
        invariant
            start <= cur <= s@.len(),
            going ==> declerations_spec(s@, start as int) == (
                file_shape(file@) + declerations_spec(s@, cur as int).0,
                declerations_spec(s@, cur as int).1,
            ),
            !going ==> declerations_spec(s@, start as int) == (file_shape(file@), cur as int),
        decreases s@.len() - cur, going as int,
    {
        match decleration(floats, s, cur) {
            Some((one, next)) => {
                let ghost before = file_shape(file@);
                let ghost rest = declerations_spec(s@, next as int).0;
                file.push(one);
                proof {
                    assert(file_shape(file@) =~= before.push(decleration_shape(one)));
                    assert(before + (seq![decleration_shape(one)] + rest) =~= file_shape(file@)
                        + rest);
                }
                cur = next;
            },
            None => {
                proof {
                    assert(file_shape(file@) + Seq::<DeclerationShape>::empty() =~= file_shape(
                        file@,
                    ));
                }
                going = false;
            },
        }
    }
    if cur == s.len() {
        Ok(file)
    } else {
        Err(ParseError { position: cur })
    }
}

} // verus!
