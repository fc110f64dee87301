//! The grammar of the language, as functions on a sequence of glyphs.
//!
//! A glyph is a character together with what the grammar asks of it: whether
//! it is a blank, a letter, a letter or digit. Each function takes the text
//! and a place in it, and gives what stands at that place and the place
//! after it, or nothing. A choice takes the first alternative that succeeds;
//! a repetition takes as many items as it can. Every token takes the blanks
//! after it with it.

use crate::parser::{DeclerationShape, DeclerationValShape, ExprShape, StatementShape};
use vstd::prelude::*;

verus! {

/// What `char::is_whitespace` gives for a character.
pub uninterp spec fn whitespace_spec(c: char) -> bool;

/// What `char::is_alphabetic` gives for a character.
pub uninterp spec fn alphabetic_spec(c: char) -> bool;

/// What `char::is_alphanumeric` gives for a character.
pub uninterp spec fn alphanumeric_spec(c: char) -> bool;

/// `char::is_whitespace`: whether the character has the Unicode property
/// `White_Space`. The contract only names the result.
#[verifier::external_body]
fn is_whitespace(c: char) -> (r: bool)
    ensures
        r == whitespace_spec(c),
{
    c.is_whitespace()
}

/// `char::is_alphabetic`: whether the character has the Unicode property
/// `Alphabetic`. The contract only names the result.
#[verifier::external_body]
fn is_alphabetic(c: char) -> (r: bool)
    ensures
        r == alphabetic_spec(c),
{
    c.is_alphabetic()
}

/// `char::is_alphanumeric`: whether the character is alphabetic or numeric.
/// The contract only names the result.
#[verifier::external_body]
fn is_alphanumeric(c: char) -> (r: bool)
    ensures
        r == alphanumeric_spec(c),
{
    c.is_alphanumeric()
}

/// A character with what the grammar asks of it.
#[derive(Clone, Copy, Debug, PartialEq, Eq)]
pub struct Glyph {
    pub c: char,
    /// Whether it separates tokens.
    pub blank: bool,
    /// Whether a name may begin with it.
    pub letter: bool,
    /// Whether a name may go on with it.
    pub word: bool,
}

/// The glyph of a character: the character with its Unicode classes.
pub open spec fn glyph_spec(c: char) -> Glyph {
    Glyph { c, blank: whitespace_spec(c), letter: alphabetic_spec(c), word: alphanumeric_spec(c) }
}

/// The glyphs of a text.
pub open spec fn glyphs_spec(text: Seq<char>) -> Seq<Glyph> {
    Seq::new(text.len(), |i: int| glyph_spec(text[i]))
}

/// The characters of a sequence of glyphs.
pub open spec fn letters(s: Seq<Glyph>) -> Seq<char> {
    Seq::new(s.len(), |i: int| s[i].c)
}

/// The glyph of a character.
pub fn classify(c: char) -> (g: Glyph)
    ensures
        g == glyph_spec(c),
{
    Glyph { c, blank: is_whitespace(c), letter: is_alphabetic(c), word: is_alphanumeric(c) }
}

/// Whether `c` is one of the ten decimal digits.
pub open spec fn digit_spec(c: char) -> bool {
    '0' <= c && c <= '9'
}

/// The value of a decimal digit.
pub open spec fn digit_value(c: char) -> int {
    c as u32 - '0' as u32
}

/// Whether an operator may hold `c`.
pub open spec fn operator_char(c: char) -> bool {
    c == '+' || c == '-' || c == '&' || c == '^' || c == '%' || c == '$' || c == '@' || c == '!'
        || c == '=' || c == ':' || c == '<' || c == '>' || c == '\\' || c == '/' || c == '*'
}

/// The classes of characters that the grammar takes runs of.
#[derive(Clone, Copy, Debug, PartialEq, Eq)]
pub enum CharClass {
    Blank,
    Word,
    Operator,
    Digit,
    /// Anything but a double quote.
    InString,
}

/// Whether the glyph is of the class.
pub open spec fn in_class(class: CharClass, g: Glyph) -> bool {
    match class {
        CharClass::Blank => g.blank,
        CharClass::Word => g.word,
        CharClass::Operator => operator_char(g.c),
        CharClass::Digit => digit_spec(g.c),
        CharClass::InString => g.c != '"',
    }
}

/// How many characters of the class stand at `pos`, one after another.
pub open spec fn run(class: CharClass, s: Seq<Glyph>, pos: int) -> nat
    decreases s.len() - pos,
{
    if 0 <= pos < s.len() && in_class(class, s[pos]) {
        1 + run(class, s, pos + 1)
    } else {
        0
    }
}

/// The place after the blanks at `pos`.
pub open spec fn skip_spaces(s: Seq<Glyph>, pos: int) -> int {
    pos + run(CharClass::Blank, s, pos)
}

/// Whether `text` stands at `pos`.
pub open spec fn starts_with(s: Seq<Glyph>, pos: int, text: Seq<char>) -> bool {
    0 <= pos && pos + text.len() <= s.len() && letters(s.subrange(pos, pos + text.len())) == text
}

/// The place after the token `text` and the blanks that follow it.
pub open spec fn token_spec(s: Seq<Glyph>, pos: int, text: Seq<char>) -> Option<int> {
    if starts_with(s, pos, text) {
        Some(skip_spaces(s, pos + text.len()))
    } else {
        None
    }
}

/// The place after the one-character token `c` and the blanks that follow.
pub open spec fn symbol_spec(s: Seq<Glyph>, pos: int, c: char) -> Option<int> {
    if 0 <= pos < s.len() && s[pos].c == c {
        Some(skip_spaces(s, pos + 1))
    } else {
        None
    }
}

/// A name: a letter, then letters and digits.
pub open spec fn name_spec(s: Seq<Glyph>, pos: int) -> Option<(Seq<char>, int)> {
    if 0 <= pos < s.len() && s[pos].letter {
        let end = pos + 1 + run(CharClass::Word, s, pos + 1);
        Some((letters(s.subrange(pos, end)), skip_spaces(s, end)))
    } else {
        None
    }
}

/// An operator: one or more operator characters.
pub open spec fn operator_token(s: Seq<Glyph>, pos: int) -> Option<(Seq<char>, int)> {
    let count = run(CharClass::Operator, s, pos);
    if count >= 1 {
        Some((letters(s.subrange(pos, pos + count)), skip_spaces(s, pos + count)))
    } else {
        None
    }
}

/// The number that a run of digits denotes.
pub open spec fn digits_value(digits: Seq<char>) -> int
    decreases digits.len(),
{
    if digits.len() == 0 {
        0
    } else {
        digits_value(digits.drop_last()) * 10 + digit_value(digits.last())
    }
}

/// A number: an optional minus sign, digits, and optionally a point and
/// more digits, which make it a float. The digits before the point must
/// denote a number that a signed 64-bit integer holds.
pub open spec fn number_spec(s: Seq<Glyph>, pos: int) -> Option<(ExprShape, int)> {
    let negative = 0 <= pos < s.len() && s[pos].c == '-';
    let start = if negative {
        pos + 1
    } else {
        pos
    };
    let count = run(CharClass::Digit, s, start);
    let end = start + count;
    let whole = digits_value(letters(s.subrange(start, end)));
    let fraction = if 0 <= end < s.len() && s[end].c == '.' {
        run(CharClass::Digit, s, end + 1)
    } else {
        0
    };
    if pos < 0 || count == 0 || whole > i64::MAX {
        None
    } else if fraction >= 1 {
        Some((ExprShape::Float, skip_spaces(s, end + 1 + fraction)))
    } else {
        Some(
            (
                ExprShape::Number(
                    if negative {
                        (-whole) as i64
                    } else {
                        whole as i64
                    },
                ),
                skip_spaces(s, end),
            ),
        )
    }
}

/// A text between double quotes.
pub open spec fn string_spec(s: Seq<Glyph>, pos: int) -> Option<(ExprShape, int)> {
    if 0 <= pos < s.len() && s[pos].c == '"' {
        let end = pos + 1 + run(CharClass::InString, s, pos + 1);
        if end < s.len() && s[end].c == '"' {
            Some(
                (ExprShape::StrLiteral(letters(s.subrange(pos + 1, end))), skip_spaces(s, end + 1)),
            )
        } else {
            None
        }
    } else {
        None
    }
}

/// A character between single quotes.
pub open spec fn char_spec(s: Seq<Glyph>, pos: int) -> Option<(ExprShape, int)> {
    if 0 <= pos && pos + 2 < s.len() && s[pos].c == '\'' && s[pos + 1].c != '\'' && s[pos
        + 2].c == '\'' {
        Some((ExprShape::Char(s[pos + 1].c), skip_spaces(s, pos + 3)))
    } else {
        None
    }
}

/// Whether `next` lies after `pos` and inside the text.
pub open spec fn advances(s: Seq<Glyph>, pos: int, next: int) -> bool {
    0 <= pos < next <= s.len()
}

/// One or more names, one after another.
pub open spec fn names_spec(s: Seq<Glyph>, pos: int) -> (Seq<Seq<char>>, int)
    decreases s.len() - pos,
{
    match name_spec(s, pos) {
        Some((name, next)) => if advances(s, pos, next) {
            let rest = names_spec(s, next);
            (seq![name] + rest.0, rest.1)
        } else {
            (Seq::empty(), pos)
        },
        None => (Seq::empty(), pos),
    }
}

/// The names that follow the first of a list, each after the separator.
pub open spec fn more_names_spec(s: Seq<Glyph>, pos: int, separator: char) -> (Seq<Seq<char>>, int)
    decreases s.len() - pos,
{
    match symbol_spec(s, pos, separator) {
        Some(after) => match name_spec(s, after) {
            Some((name, next)) => if advances(s, pos, next) {
                let rest = more_names_spec(s, next, separator);
                (seq![name] + rest.0, rest.1)
            } else {
                (Seq::empty(), pos)
            },
            None => (Seq::empty(), pos),
        },
        None => (Seq::empty(), pos),
    }
}

/// One or more names with the separator between them.
pub open spec fn name_list_spec(s: Seq<Glyph>, pos: int, separator: char) -> Option<
    (Seq<Seq<char>>, int),
> {
    match name_spec(s, pos) {
        Some((name, next)) => {
            let rest = more_names_spec(s, next, separator);
            Some((seq![name] + rest.0, rest.1))
        },
        None => None,
    }
}

/// An expression: a lambda, or an operator expression.
pub open spec fn expr_spec(s: Seq<Glyph>, pos: int) -> Option<(ExprShape, int)>
    decreases s.len() - pos, 4int,
{
    match lambda_head_spec(s, pos) {
        Some((params, body_at)) => if advances(s, pos, body_at) {
            match expr_spec(s, body_at) {
                Some((body, next)) => Some((ExprShape::Lambda(params, Box::new(body)), next)),
                None => expr1_spec(s, pos),
            }
        } else {
            expr1_spec(s, pos)
        },
        None => expr1_spec(s, pos),
    }
}

/// The head of a lambda: a backslash, one or more parameters, an arrow.
pub open spec fn lambda_head_spec(s: Seq<Glyph>, pos: int) -> Option<(Seq<Seq<char>>, int)> {
    match symbol_spec(s, pos, '\\') {
        Some(after) => {
            let params = names_spec(s, after);
            if params.0.len() >= 1 {
                match token_spec(s, params.1, "->"@) {
                    Some(body_at) => Some((params.0, body_at)),
                    None => None,
                }
            } else {
                None
            }
        },
        None => None,
    }
}

/// An operator expression: an application, and optionally an operator and
/// another operator expression. Operators group to the right.
pub open spec fn expr1_spec(s: Seq<Glyph>, pos: int) -> Option<(ExprShape, int)>
    decreases s.len() - pos, 3int,
{
    match expr2_spec(s, pos) {
        None => None,
        Some((left, next)) => match operator_token(s, next) {
            Some((operator, after)) => if advances(s, pos, after) {
                match expr1_spec(s, after) {
                    Some((right, end)) => Some(
                        (
                            ExprShape::Function(
                                Box::new(ExprShape::Variable(operator)),
                                seq![left, right],
                            ),
                            end,
                        ),
                    ),
                    None => Some((left, next)),
                }
            } else {
                Some((left, next))
            },
            None => Some((left, next)),
        },
    }
}

/// An application: a term, and the terms that follow it as its arguments.
pub open spec fn expr2_spec(s: Seq<Glyph>, pos: int) -> Option<(ExprShape, int)>
    decreases s.len() - pos, 2int,
{
    match expr3_spec(s, pos) {
        None => None,
        Some((callee, next)) => {
            let args = if advances(s, pos, next) {
                terms_spec(s, next)
            } else {
                (Seq::empty(), next)
            };
            if args.0.len() == 0 {
                Some((callee, next))
            } else {
                Some((ExprShape::Function(Box::new(callee), args.0), args.1))
            }
        },
    }
}

/// As many terms as stand at `pos`, one after another.
pub open spec fn terms_spec(s: Seq<Glyph>, pos: int) -> (Seq<ExprShape>, int)
    decreases s.len() - pos, 2int,
{
    match expr3_spec(s, pos) {
        Some((term, next)) => if advances(s, pos, next) {
            let rest = terms_spec(s, next);
            (seq![term] + rest.0, rest.1)
        } else {
            (Seq::empty(), pos)
        },
        None => (Seq::empty(), pos),
    }
}

/// A term: an expression in parentheses, a name, an array, a number, a
/// text or a character.
pub open spec fn expr3_spec(s: Seq<Glyph>, pos: int) -> Option<(ExprShape, int)>
    decreases s.len() - pos, 1int,
{
    match paren_spec(s, pos) {
        Some(found) => Some(found),
        None => match name_spec(s, pos) {
            Some((name, next)) => Some((ExprShape::Variable(name), next)),
            None => match array_spec(s, pos) {
                Some(found) => Some(found),
                None => match number_spec(s, pos) {
                    Some(found) => Some(found),
                    None => match string_spec(s, pos) {
                        Some(found) => Some(found),
                        None => char_spec(s, pos),
                    },
                },
            },
        },
    }
}

/// An expression in parentheses.
pub open spec fn paren_spec(s: Seq<Glyph>, pos: int) -> Option<(ExprShape, int)>
    decreases s.len() - pos, 0int,
{
    match symbol_spec(s, pos, '(') {
        Some(inside) => if advances(s, pos, inside) {
            match expr_spec(s, inside) {
                Some((e, next)) => match symbol_spec(s, next, ')') {
                    Some(after) => Some((e, after)),
                    None => None,
                },
                None => None,
            }
        } else {
            None
        },
        None => None,
    }
}

/// An array: expressions between brackets, with commas between them.
pub open spec fn array_spec(s: Seq<Glyph>, pos: int) -> Option<(ExprShape, int)>
    decreases s.len() - pos, 0int,
{
    match symbol_spec(s, pos, '[') {
        Some(inside) => if advances(s, pos, inside) {
            let items = items_spec(s, inside);
            match symbol_spec(s, items.1, ']') {
                Some(after) => Some((ExprShape::Array(items.0), after)),
                None => None,
            }
        } else {
            None
        },
        None => None,
    }
}

/// Expressions with commas between them, none or more.
pub open spec fn items_spec(s: Seq<Glyph>, pos: int) -> (Seq<ExprShape>, int)
    decreases s.len() - pos, 5int,
{
    match expr_spec(s, pos) {
        Some((first, next)) => {
            let rest = if advances(s, pos, next) {
                more_items_spec(s, next)
            } else {
                (Seq::empty(), next)
            };
            (seq![first] + rest.0, rest.1)
        },
        None => (Seq::empty(), pos),
    }
}

/// The expressions that follow the first of a list, each after a comma.
pub open spec fn more_items_spec(s: Seq<Glyph>, pos: int) -> (Seq<ExprShape>, int)
    decreases s.len() - pos, 5int,
{
    match symbol_spec(s, pos, ',') {
        Some(after) => if advances(s, pos, after) {
            match expr_spec(s, after) {
                Some((item, next)) => if advances(s, pos, next) {
                    let rest = more_items_spec(s, next);
                    (seq![item] + rest.0, rest.1)
                } else {
                    (Seq::empty(), pos)
                },
                None => (Seq::empty(), pos),
            }
        } else {
            (Seq::empty(), pos)
        },
        None => (Seq::empty(), pos),
    }
}

/// A statement. What begins with `let` is a binding or nothing; anything
/// else is an expression.
pub open spec fn statement_spec(s: Seq<Glyph>, pos: int) -> Option<(StatementShape, int)> {
    match token_spec(s, pos, "let"@) {
        Some(after) => match name_spec(s, after) {
            Some((name, next)) => match symbol_spec(s, next, '=') {
                Some(value_at) => match expr_spec(s, value_at) {
                    Some((value, end)) => Some((StatementShape::Assign(name, value), end)),
                    None => None,
                },
                None => None,
            },
            None => None,
        },
        None => match expr_spec(s, pos) {
            Some((value, end)) => Some((StatementShape::Return(value), end)),
            None => None,
        },
    }
}

/// As many statements as stand at `pos`, each with a semicolon after it.
pub open spec fn statements_spec(s: Seq<Glyph>, pos: int) -> (Seq<StatementShape>, int)
    decreases s.len() - pos,
{
    match statement_spec(s, pos) {
        Some((statement, next)) => match symbol_spec(s, next, ';') {
            Some(after) => if advances(s, pos, after) {
                let rest = statements_spec(s, after);
                (seq![statement] + rest.0, rest.1)
            } else {
                (Seq::empty(), pos)
            },
            None => (Seq::empty(), pos),
        },
        None => (Seq::empty(), pos),
    }
}

/// A block: one or more statements between braces.
pub open spec fn group_spec(s: Seq<Glyph>, pos: int) -> Option<(ExprShape, int)> {
    match symbol_spec(s, pos, '{') {
        Some(inside) => {
            let statements = statements_spec(s, inside);
            if statements.0.len() >= 1 {
                match symbol_spec(s, statements.1, '}') {
                    Some(after) => Some((ExprShape::GroupExpr(statements.0), after)),
                    None => None,
                }
            } else {
                None
            }
        },
        None => None,
    }
}

/// An import: `use`, a path of names with dots between them, a semicolon.
pub open spec fn import_spec(s: Seq<Glyph>, pos: int) -> Option<(DeclerationValShape, int)> {
    match token_spec(s, pos, "use"@) {
        Some(after) => match name_list_spec(s, after, '.') {
            Some((path, next)) => match symbol_spec(s, next, ';') {
                Some(end) => Some((DeclerationValShape::Import(path), end)),
                None => None,
            },
            None => None,
        },
        None => None,
    }
}

/// A function: `fun`, a name, parameters between parentheses with commas
/// between them, a block.
pub open spec fn function_spec(s: Seq<Glyph>, pos: int) -> Option<(DeclerationValShape, int)> {
    match token_spec(s, pos, "fun"@) {
        Some(after) => match name_spec(s, after) {
            Some((name, next)) => match symbol_spec(s, next, '(') {
                Some(inside) => match name_list_spec(s, inside, ',') {
                    Some((params, close_at)) => match symbol_spec(s, close_at, ')') {
                        Some(body_at) => match group_spec(s, body_at) {
                            Some((body, end)) => Some(
                                (DeclerationValShape::Function(name, params, body), end),
                            ),
                            None => None,
                        },
                        None => None,
                    },
                    None => None,
                },
                None => None,
            },
            None => None,
        },
        None => None,
    }
}

/// A value: `let`, a name, an equals sign, a block.
pub open spec fn value_spec(s: Seq<Glyph>, pos: int) -> Option<(DeclerationValShape, int)> {
    match token_spec(s, pos, "let"@) {
        Some(after) => match name_spec(s, after) {
            Some((name, next)) => match symbol_spec(s, next, '=') {
                Some(body_at) => match group_spec(s, body_at) {
                    Some((body, end)) => Some((DeclerationValShape::Value(name, body), end)),
                    None => None,
                },
                None => None,
            },
            None => None,
        },
        None => None,
    }
}

/// A declaration: optionally `pub`, then an import, a function or a value.
pub open spec fn decleration_spec(s: Seq<Glyph>, pos: int) -> Option<(DeclerationShape, int)> {
    let marked = token_spec(s, pos, "pub"@);
    let at = match marked {
        Some(after) => after,
        None => pos,
    };
    let found = match import_spec(s, at) {
        Some(found) => Some(found),
        None => match function_spec(s, at) {
            Some(found) => Some(found),
            None => value_spec(s, at),
        },
    };
    match found {
        Some((value, end)) => Some((DeclerationShape { public: marked is Some, value }, end)),
        None => None,
    }
}

/// As many declarations as stand at `pos`, one after another.
pub open spec fn declerations_spec(s: Seq<Glyph>, pos: int) -> (Seq<DeclerationShape>, int)
    decreases s.len() - pos,
{
    match decleration_spec(s, pos) {
        Some((decleration, next)) => if advances(s, pos, next) {
            let rest = declerations_spec(s, next);
            (seq![decleration] + rest.0, rest.1)
        } else {
            (Seq::empty(), pos)
        },
        None => (Seq::empty(), pos),
    }
}

/// A file: blanks, then declarations up to the end of the text.
pub open spec fn file_spec(s: Seq<Glyph>) -> Option<Seq<DeclerationShape>> {
    let found = declerations_spec(s, skip_spaces(s, 0));
    if found.1 == s.len() {
        Some(found.0)
    } else {
        None
    }
}

} // verus!
