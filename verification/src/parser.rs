//! The parser: turns one line of text into an expression tree.
//!
//! Grammar (left-associative, `*` and `/` binding tighter than `+` and `-`):
//! ```text
//! expression := term ( ('+' | '-') term )*
//! term       := number ( ('*' | '/') number )*
//! number     := whitespace* digit+
//! ```
//! Whitespace is also skipped before operators and after the last token. A
//! literal is one or more decimal digits; a literal above `i64::MAX` is
//! rejected rather than wrapped. Unconsumed trailing input is an error. The
//! whole grammar is written out as spec functions over the input bytes, and
//! every executable function is proved to return exactly what they say.
use vstd::prelude::*;

use vstd::string::StringSliceAdditionalSpecFns;

use crate::ast::{Node, Operator};

verus! {

/// A position in the input: a 1-based line, and — in the `offset` field — a
/// 1-based, byte-counted column within that line.
#[derive(Clone, Copy, Debug, Default, Eq, Hash, PartialEq, Structural)]
pub struct Position {
    pub line: u32,
    pub offset: usize,
}

impl Position {
    pub fn new(line: u32, offset: usize) -> (p: Position)
        ensures
            p == (Position { line, offset }),
    {
        Position { line, offset }
    }

    pub fn new_empty() -> (p: Position)
        ensures
            p == (Position { line: 0, offset: 0 }),
    {
        Position { line: 0, offset: 0 }
    }
}

/// A syntax error. Every variant carries the position (line and 1-based
/// column) of the offending byte and its 0-based index `at` into the input,
/// from which a host can render the remaining fragment.
///
/// - `Syntax`: a digit was expected at `at` and something else (or the end of
///   the input) stands there.
/// - `LiteralOverflow`: the literal starting at `at` does not fit in a 64-bit
///   signed integer.
/// - `TrailingInput`: a complete expression ends before `at`, and `at` holds
///   the first byte that is neither part of it nor whitespace.
#[derive(Clone, Copy, Debug, Eq, PartialEq, Structural)]
pub enum ParseError {
    Syntax { position: Position, at: usize },
    LiteralOverflow { position: Position, at: usize },
    TrailingInput { position: Position, at: usize },
}

/// Whitespace: space, tab, line feed, carriage return.
pub open spec fn is_space(b: u8) -> bool {
    b == 32 || b == 9 || b == 10 || b == 13
}

/// A decimal digit.
pub open spec fn is_digit(b: u8) -> bool {
    48 <= b && b <= 57
}

/// How many whitespace bytes stand at `i`.
pub open spec fn ws_len(s: Seq<u8>, i: int) -> nat
    decreases s.len() - i,
{
    if 0 <= i < s.len() && is_space(s[i]) {
        1 + ws_len(s, i + 1)
    } else {
        0
    }
}

/// How many digit bytes stand at `i`.
pub open spec fn digits_len(s: Seq<u8>, i: int) -> nat
    decreases s.len() - i,
{
    if 0 <= i < s.len() && is_digit(s[i]) {
        1 + digits_len(s, i + 1)
    } else {
        0
    }
}

/// The value of the decimal digits `s[i..j)`, most significant first.
pub open spec fn digits_value(s: Seq<u8>, i: int, j: int) -> int
    decreases j - i,
{
    if i < j {
        digits_value(s, i, j - 1) * 10 + (s[j - 1] - 48)
    } else {
        0
    }
}

/// The 1-based line number of byte `pos`: one more than the number of line
/// feeds before it.
pub open spec fn line_of(s: Seq<u8>, pos: int) -> nat
    decreases pos,
{
    if pos <= 0 {
        1
    } else {
        line_of(s, pos - 1) + (if s[pos - 1] == 10 { 1nat } else { 0nat })
    }
}

/// The index of the first byte of the line that byte `pos` lies on: the index
/// right after the last line feed before `pos`.
pub open spec fn line_start_of(s: Seq<u8>, pos: int) -> int
    decreases pos,
{
    if pos <= 0 {
        0
    } else if s[pos - 1] == 10 {
        pos
    } else {
        line_start_of(s, pos - 1)
    }
}

/// The position of byte `pos`: its line, and its 1-based column within that
/// line. Both saturate at their type's maximum on absurdly long input.
pub open spec fn spec_position(s: Seq<u8>, pos: int) -> Position {
    Position {
        line: (if line_of(s, pos) > u32::MAX { u32::MAX as nat } else { line_of(s, pos) }) as u32,
        offset: (if pos - line_start_of(s, pos) + 1 > usize::MAX {
            usize::MAX as int
        } else {
            pos - line_start_of(s, pos) + 1
        }) as usize,
    }
}

pub open spec fn syntax_error(s: Seq<u8>, pos: int) -> ParseError {
    ParseError::Syntax { position: spec_position(s, pos), at: pos as usize }
}

pub open spec fn overflow_error(s: Seq<u8>, pos: int) -> ParseError {
    ParseError::LiteralOverflow { position: spec_position(s, pos), at: pos as usize }
}

pub open spec fn trailing_error(s: Seq<u8>, pos: int) -> ParseError {
    ParseError::TrailingInput { position: spec_position(s, pos), at: pos as usize }
}

/// `number := whitespace* digit+`, starting at `i`. On success: the leaf and
/// the index right after its digits. A missing digit is a syntax error at the
/// first non-whitespace byte; a literal above `i64::MAX` is an overflow error
/// at its first digit.
pub open spec fn spec_number(s: Seq<u8>, i: int) -> Result<(Node, int), ParseError> {
    let w = i + ws_len(s, i);
    let d = digits_len(s, w);
    if d == 0 {
        Err(syntax_error(s, w))
    } else if digits_value(s, w, w + d) > i64::MAX {
        Err(overflow_error(s, w))
    } else {
        Ok((Node::Number(digits_value(s, w, w + d) as i64), w + d))
    }
}

/// The `( ('*' | '/') number )*` tail of a term, folded onto `acc` left to
/// right. Stops before the first byte that opens no such pair; whitespace
/// before a stopping byte is left unconsumed.
pub open spec fn spec_term_rest(s: Seq<u8>, acc: Node, i: int) -> Result<(Node, int), ParseError>
    decreases s.len() - i,
    when 0 <= i <= s.len()
    via spec_term_rest_decreases
{
    let w = i + ws_len(s, i);
    if w < s.len() && (s[w] == 42 || s[w] == 47) {
        let op = if s[w] == 42 {
            Operator::Multiply
        } else {
            Operator::Divide
        };
        match spec_number(s, w + 1) {
            Ok((rhs, j)) => spec_term_rest(
                s,
                Node::BinaryOperator { operator: op, left: Box::new(acc), right: Box::new(rhs) },
                j,
            ),
            Err(e) => Err(e),
        }
    } else {
        Ok((acc, i))
    }
}

#[via_fn]
proof fn spec_term_rest_decreases(s: Seq<u8>, acc: Node, i: int) {
    lemma_ws_len_bound(s, i);
    let w = i + ws_len(s, i);
    if w < s.len() && (s[w] == 42 || s[w] == 47) {
        lemma_spec_number_bounds(s, w + 1);
    }
}

/// `term := number ( ('*' | '/') number )*`, starting at `i`.
pub open spec fn spec_term(s: Seq<u8>, i: int) -> Result<(Node, int), ParseError> {
    match spec_number(s, i) {
        Ok((n, j)) => spec_term_rest(s, n, j),
        Err(e) => Err(e),
    }
}

/// The `( ('+' | '-') term )*` tail of an expression, folded onto `acc` left
/// to right.
pub open spec fn spec_expr_rest(s: Seq<u8>, acc: Node, i: int) -> Result<(Node, int), ParseError>
    decreases s.len() - i,
    when 0 <= i <= s.len()
    via spec_expr_rest_decreases
{
    let w = i + ws_len(s, i);
    if w < s.len() && (s[w] == 43 || s[w] == 45) {
        let op = if s[w] == 43 {
            Operator::Plus
        } else {
            Operator::Minus
        };
        match spec_term(s, w + 1) {
            Ok((rhs, j)) => spec_expr_rest(
                s,
                Node::BinaryOperator { operator: op, left: Box::new(acc), right: Box::new(rhs) },
                j,
            ),
            Err(e) => Err(e),
        }
    } else {
        Ok((acc, i))
    }
}

#[via_fn]
proof fn spec_expr_rest_decreases(s: Seq<u8>, acc: Node, i: int) {
    lemma_ws_len_bound(s, i);
    let w = i + ws_len(s, i);
    if w < s.len() && (s[w] == 43 || s[w] == 45) {
        lemma_spec_term_bounds(s, w + 1);
    }
}

/// `expression := term ( ('+' | '-') term )*`, starting at `i`.
pub open spec fn spec_expr(s: Seq<u8>, i: int) -> Result<(Node, int), ParseError> {
    match spec_term(s, i) {
        Ok((n, j)) => spec_expr_rest(s, n, j),
        Err(e) => Err(e),
    }
}

/// A whole input line: an expression, then optional whitespace, then the end
/// of the input. Anything else after the expression is a trailing-input error
/// at the first such byte.
pub open spec fn spec_parse(s: Seq<u8>) -> Result<Node, ParseError> {
    match spec_expr(s, 0) {
        Ok((n, j)) => {
            let w = j + ws_len(s, j);
            if w == s.len() {
                Ok(n)
            } else {
                Err(trailing_error(s, w))
            }
        },
        Err(e) => Err(e),
    }
}

/// Skipping whitespace never leaves the input.
pub proof fn lemma_ws_len_bound(s: Seq<u8>, i: int)
    requires
        0 <= i <= s.len(),
    ensures
        i + ws_len(s, i) <= s.len(),
    decreases s.len() - i,
{
    if i < s.len() && is_space(s[i]) {
        lemma_ws_len_bound(s, i + 1);
    }
}

/// A digit run never leaves the input.
pub proof fn lemma_digits_len_bound(s: Seq<u8>, i: int)
    requires
        0 <= i <= s.len(),
    ensures
        i + digits_len(s, i) <= s.len(),
    decreases s.len() - i,
{
    if i < s.len() && is_digit(s[i]) {
        lemma_digits_len_bound(s, i + 1);
    }
}

/// A parsed number ends after where it starts and inside the input.
pub proof fn lemma_spec_number_bounds(s: Seq<u8>, i: int)
    requires
        0 <= i <= s.len(),
    ensures
        spec_number(s, i) matches Ok((n, j)) ==> i < j <= s.len(),
{
    lemma_ws_len_bound(s, i);
    let w = i + ws_len(s, i);
    lemma_digits_len_bound(s, w);
}

/// A parsed term tail never moves backwards and stays inside the input.
pub proof fn lemma_spec_term_rest_bounds(s: Seq<u8>, acc: Node, i: int)
    requires
        0 <= i <= s.len(),
    ensures
        spec_term_rest(s, acc, i) matches Ok((n, j)) ==> i <= j <= s.len(),
    decreases s.len() - i,
{
    lemma_ws_len_bound(s, i);
    let w = i + ws_len(s, i);
    if w < s.len() && (s[w] == 42 || s[w] == 47) {
        lemma_spec_number_bounds(s, w + 1);
        let op = if s[w] == 42 {
            Operator::Multiply
        } else {
            Operator::Divide
        };
        match spec_number(s, w + 1) {
            Ok((rhs, j)) => {
                lemma_spec_term_rest_bounds(
                    s,
                    Node::BinaryOperator {
                        operator: op,
                        left: Box::new(acc),
                        right: Box::new(rhs),
                    },
                    j,
                );
            },
            Err(_) => {},
        }
    }
}

/// A parsed term ends after where it starts and inside the input.
pub proof fn lemma_spec_term_bounds(s: Seq<u8>, i: int)
    requires
        0 <= i <= s.len(),
    ensures
        spec_term(s, i) matches Ok((n, j)) ==> i < j <= s.len(),
{
    lemma_spec_number_bounds(s, i);
    match spec_number(s, i) {
        Ok((n, j)) => {
            lemma_spec_term_rest_bounds(s, n, j);
        },
        Err(_) => {},
    }
}

/// Every byte of `s` is a decimal digit.
pub open spec fn all_digits(s: Seq<u8>) -> bool {
    forall|k: int| 0 <= k < s.len() ==> is_digit(#[trigger] s[k])
}

/// Every byte of `s` is whitespace.
pub open spec fn all_spaces(s: Seq<u8>) -> bool {
    forall|k: int| 0 <= k < s.len() ==> is_space(#[trigger] s[k])
}

/// A whitespace run's length is exact: all spaces up to a non-space boundary.
proof fn lemma_ws_len_exact(s: Seq<u8>, i: int, j: int)
    requires
        0 <= i <= j <= s.len(),
        forall|k: int| i <= k < j ==> is_space(#[trigger] s[k]),
        j == s.len() || !is_space(s[j]),
    ensures
        ws_len(s, i) == j - i,
    decreases j - i,
{
    if i < j {
        lemma_ws_len_exact(s, i + 1, j);
    }
}

/// The value of a whole digit string.
pub open spec fn seq_value(s: Seq<u8>) -> int {
    digits_value(s, 0, s.len() as int)
}

/// A digit run's length is exact: all digits up to a non-digit boundary.
proof fn lemma_digits_len_exact(s: Seq<u8>, i: int, j: int)
    requires
        0 <= i <= j <= s.len(),
        forall|k: int| i <= k < j ==> is_digit(#[trigger] s[k]),
        j == s.len() || !is_digit(s[j]),
    ensures
        digits_len(s, i) == j - i,
    decreases j - i,
{
    if i < j {
        lemma_digits_len_exact(s, i + 1, j);
    }
}

/// The value of a digit run is never negative.
proof fn lemma_digits_value_nonneg(s: Seq<u8>, i: int, j: int)
    requires
        i <= j,
        forall|k: int| i <= k < j ==> is_digit(#[trigger] s[k]),
    ensures
        digits_value(s, i, j) >= 0,
    decreases j - i,
{
    if i < j {
        lemma_digits_value_nonneg(s, i, j - 1);
    }
}

/// A digit run's value depends only on the bytes of the run.
proof fn lemma_digits_value_sub(s: Seq<u8>, i: int, j: int)
    requires
        0 <= i <= j <= s.len(),
    ensures
        digits_value(s, i, j) == seq_value(s.subrange(i, j)),
    decreases j - i,
{
    if i < j {
        lemma_digits_value_sub(s, i, j - 1);
        let sub = s.subrange(i, j);
        assert(sub.subrange(0, j - i - 1) =~= s.subrange(i, j - 1));
        lemma_digits_value_sub(sub, 0, j - i - 1);
        assert(sub[j - i - 1] == s[j - 1]);
    }
}

/// A number at `i`: exactly the digits `s[i..j)`, ending at the boundary `j`.
proof fn lemma_spec_number_exact(s: Seq<u8>, i: int, j: int)
    requires
        0 <= i < j <= s.len(),
        forall|k: int| i <= k < j ==> is_digit(#[trigger] s[k]),
        j == s.len() || !is_digit(s[j]),
        digits_value(s, i, j) <= i64::MAX,
    ensures
        spec_number(s, i) == Ok::<(Node, int), ParseError>(
            (Node::Number(digits_value(s, i, j) as i64), j),
        ),
{
    assert(is_digit(s[i]));
    assert(ws_len(s, i) == 0);
    lemma_digits_len_exact(s, i, j);
    lemma_digits_value_nonneg(s, i, j);
}

/// A term that is a single number: the digits `s[i..j)`, with a boundary that
/// opens no `('*' | '/') number` pair.
proof fn lemma_spec_term_number(s: Seq<u8>, i: int, j: int)
    requires
        0 <= i < j <= s.len(),
        forall|k: int| i <= k < j ==> is_digit(#[trigger] s[k]),
        j == s.len() || (!is_digit(s[j]) && !is_space(s[j]) && s[j] != 42 && s[j] != 47),
        digits_value(s, i, j) <= i64::MAX,
    ensures
        spec_term(s, i) == Ok::<(Node, int), ParseError>(
            (Node::Number(digits_value(s, i, j) as i64), j),
        ),
{
    lemma_spec_number_exact(s, i, j);
    assert(ws_len(s, j) == 0);
}

/// A term of exactly two numbers: digits `s[i..j)`, a `'*'` or `'/'` at `j`,
/// digits `s[j+1..k)`, and a boundary at `k` that opens no further pair.
#[verifier::rlimit(30)]
proof fn lemma_spec_term_pair(s: Seq<u8>, i: int, j: int, k: int)
    requires
        0 <= i < j < s.len(),
        j + 1 < k <= s.len(),
        forall|m: int| i <= m < j ==> is_digit(#[trigger] s[m]),
        s[j] == 42 || s[j] == 47,
        forall|m: int| j + 1 <= m < k ==> is_digit(#[trigger] s[m]),
        k == s.len() || (!is_digit(s[k]) && !is_space(s[k]) && s[k] != 42 && s[k] != 47),
        digits_value(s, i, j) <= i64::MAX,
        digits_value(s, j + 1, k) <= i64::MAX,
    ensures
        spec_term(s, i) == Ok::<(Node, int), ParseError>(
            (
                Node::BinaryOperator {
                    operator: if s[j] == 42 {
                        Operator::Multiply
                    } else {
                        Operator::Divide
                    },
                    left: Box::new(Node::Number(digits_value(s, i, j) as i64)),
                    right: Box::new(Node::Number(digits_value(s, j + 1, k) as i64)),
                },
                k,
            ),
        ),
{
    reveal_with_fuel(spec_term_rest, 3);
    lemma_spec_number_exact(s, i, j);
    assert(ws_len(s, j) == 0);
    lemma_spec_number_exact(s, j + 1, k);
    assert(ws_len(s, k) == 0);
}

/// Precedence: in `a + b * c` the multiplication binds tighter — the parse is
/// `a + (b * c)`, for every three digit-string literals `a`, `b`, `c`.
#[verifier::rlimit(30)]
pub proof fn lemma_precedence_add_mul(a: Seq<u8>, b: Seq<u8>, c: Seq<u8>)
    requires
        a.len() > 0 && all_digits(a) && seq_value(a) <= i64::MAX,
        b.len() > 0 && all_digits(b) && seq_value(b) <= i64::MAX,
        c.len() > 0 && all_digits(c) && seq_value(c) <= i64::MAX,
    ensures
        spec_parse(a + seq![43u8] + b + seq![42u8] + c) == Ok::<Node, ParseError>(
            Node::BinaryOperator {
                operator: Operator::Plus,
                left: Box::new(Node::Number(seq_value(a) as i64)),
                right: Box::new(
                    Node::BinaryOperator {
                        operator: Operator::Multiply,
                        left: Box::new(Node::Number(seq_value(b) as i64)),
                        right: Box::new(Node::Number(seq_value(c) as i64)),
                    },
                ),
            },
        ),
{
    reveal_with_fuel(spec_expr_rest, 4);
    reveal_with_fuel(spec_term_rest, 4);
    let t = a + seq![43u8] + b + seq![42u8] + c;
    let la = a.len() as int;
    let lb = b.len() as int;
    let n = t.len() as int;
    assert(t.subrange(0, la) =~= a);
    assert(t.subrange(la + 1, la + 1 + lb) =~= b);
    assert(t.subrange(la + 2 + lb, n) =~= c);
    lemma_digits_value_sub(t, 0, la);
    lemma_digits_value_sub(t, la + 1, la + 1 + lb);
    lemma_digits_value_sub(t, la + 2 + lb, n);
    assert(t[la] == 43);
    assert(t[la + 1 + lb] == 42);
    lemma_spec_term_number(t, 0, la);
    assert(ws_len(t, la) == 0);
    lemma_spec_term_pair(t, la + 1, la + 1 + lb, n);
    assert(ws_len(t, n) == 0);
}

/// Precedence: in `a * b + c` the multiplication binds tighter — the parse is
/// `(a * b) + c`, for every three digit-string literals `a`, `b`, `c`.
#[verifier::rlimit(30)]
pub proof fn lemma_precedence_mul_add(a: Seq<u8>, b: Seq<u8>, c: Seq<u8>)
    requires
        a.len() > 0 && all_digits(a) && seq_value(a) <= i64::MAX,
        b.len() > 0 && all_digits(b) && seq_value(b) <= i64::MAX,
        c.len() > 0 && all_digits(c) && seq_value(c) <= i64::MAX,
    ensures
        spec_parse(a + seq![42u8] + b + seq![43u8] + c) == Ok::<Node, ParseError>(
            Node::BinaryOperator {
                operator: Operator::Plus,
                left: Box::new(
                    Node::BinaryOperator {
                        operator: Operator::Multiply,
                        left: Box::new(Node::Number(seq_value(a) as i64)),
                        right: Box::new(Node::Number(seq_value(b) as i64)),
                    },
                ),
                right: Box::new(Node::Number(seq_value(c) as i64)),
            },
        ),
{
    reveal_with_fuel(spec_expr_rest, 4);
    let t = a + seq![42u8] + b + seq![43u8] + c;
    let la = a.len() as int;
    let lb = b.len() as int;
    let n = t.len() as int;
    assert(t.subrange(0, la) =~= a);
    assert(t.subrange(la + 1, la + 1 + lb) =~= b);
    assert(t.subrange(la + 2 + lb, n) =~= c);
    lemma_digits_value_sub(t, 0, la);
    lemma_digits_value_sub(t, la + 1, la + 1 + lb);
    lemma_digits_value_sub(t, la + 2 + lb, n);
    assert(t[la] == 42);
    assert(t[la + 1 + lb] == 43);
    lemma_spec_term_pair(t, 0, la, la + 1 + lb);
    assert(ws_len(t, la + 1 + lb) == 0);
    lemma_spec_term_number(t, la + 2 + lb, n);
    assert(ws_len(t, n) == 0);
}

/// Left-associativity: `a - b - c` parses as `(a - b) - c`, never as
/// `a - (b - c)`, for every three digit-string literals `a`, `b`, `c`.
#[verifier::rlimit(30)]
pub proof fn lemma_left_associativity(a: Seq<u8>, b: Seq<u8>, c: Seq<u8>)
    requires
        a.len() > 0 && all_digits(a) && seq_value(a) <= i64::MAX,
        b.len() > 0 && all_digits(b) && seq_value(b) <= i64::MAX,
        c.len() > 0 && all_digits(c) && seq_value(c) <= i64::MAX,
    ensures
        spec_parse(a + seq![45u8] + b + seq![45u8] + c) == Ok::<Node, ParseError>(
            Node::BinaryOperator {
                operator: Operator::Minus,
                left: Box::new(
                    Node::BinaryOperator {
                        operator: Operator::Minus,
                        left: Box::new(Node::Number(seq_value(a) as i64)),
                        right: Box::new(Node::Number(seq_value(b) as i64)),
                    },
                ),
                right: Box::new(Node::Number(seq_value(c) as i64)),
            },
        ),
{
    reveal_with_fuel(spec_expr_rest, 4);
    let t = a + seq![45u8] + b + seq![45u8] + c;
    let la = a.len() as int;
    let lb = b.len() as int;
    let n = t.len() as int;
    assert(t.subrange(0, la) =~= a);
    assert(t.subrange(la + 1, la + 1 + lb) =~= b);
    assert(t.subrange(la + 2 + lb, n) =~= c);
    lemma_digits_value_sub(t, 0, la);
    lemma_digits_value_sub(t, la + 1, la + 1 + lb);
    lemma_digits_value_sub(t, la + 2 + lb, n);
    assert(t[la] == 45);
    assert(t[la + 1 + lb] == 45);
    lemma_spec_term_number(t, 0, la);
    assert(ws_len(t, la) == 0);
    lemma_spec_term_number(t, la + 1, la + 1 + lb);
    assert(ws_len(t, la + 1 + lb) == 0);
    lemma_spec_term_number(t, la + 2 + lb, n);
    assert(ws_len(t, n) == 0);
}

/// Whitespace tolerance: around the literals and the operator of `a op b`,
/// any amount of whitespace may stand — the parse is the tree of the tokens
/// alone, whatever the spacing. In particular, a spaced input and its tight
/// form parse to the same tree.
#[verifier::rlimit(50)]
pub proof fn lemma_whitespace_tolerance(
    w0: Seq<u8>,
    a: Seq<u8>,
    w1: Seq<u8>,
    op: u8,
    w2: Seq<u8>,
    b: Seq<u8>,
    w3: Seq<u8>,
)
    requires
        all_spaces(w0) && all_spaces(w1) && all_spaces(w2) && all_spaces(w3),
        a.len() > 0 && all_digits(a) && seq_value(a) <= i64::MAX,
        b.len() > 0 && all_digits(b) && seq_value(b) <= i64::MAX,
        op == 43 || op == 45 || op == 42 || op == 47,
    ensures
        spec_parse(w0 + a + w1 + seq![op] + w2 + b + w3) == Ok::<Node, ParseError>(
            Node::BinaryOperator {
                operator: if op == 43 {
                    Operator::Plus
                } else if op == 45 {
                    Operator::Minus
                } else if op == 42 {
                    Operator::Multiply
                } else {
                    Operator::Divide
                },
                left: Box::new(Node::Number(seq_value(a) as i64)),
                right: Box::new(Node::Number(seq_value(b) as i64)),
            },
        ),
{
    reveal_with_fuel(spec_term_rest, 4);
    reveal_with_fuel(spec_expr_rest, 4);
    let t = w0 + a + w1 + seq![op] + w2 + b + w3;
    let p0 = w0.len() as int;
    let p1 = p0 + a.len();
    let p2 = p1 + w1.len();
    let p3 = p2 + 1;
    let p4 = p3 + w2.len();
    let p5 = p4 + b.len();
    let n = t.len() as int;
    assert(t.subrange(p0, p1) =~= a);
    assert(t.subrange(p4, p5) =~= b);
    lemma_digits_value_sub(t, p0, p1);
    lemma_digits_value_sub(t, p4, p5);
    assert(t[p2] == op);
    assert(forall|k: int| 0 <= k < p0 ==> is_space(#[trigger] t[k]));
    assert(forall|k: int| p0 <= k < p1 ==> is_digit(#[trigger] t[k]));
    assert(forall|k: int| p1 <= k < p2 ==> is_space(#[trigger] t[k]));
    assert(forall|k: int| p3 <= k < p4 ==> is_space(#[trigger] t[k]));
    assert(forall|k: int| p4 <= k < p5 ==> is_digit(#[trigger] t[k]));
    assert(forall|k: int| p5 <= k < n ==> is_space(#[trigger] t[k]));
    lemma_ws_len_exact(t, 0, p0);
    lemma_digits_len_exact(t, p0, p1);
    lemma_digits_value_nonneg(t, p0, p1);
    lemma_ws_len_exact(t, p1, p2);
    lemma_ws_len_exact(t, p3, p4);
    lemma_digits_len_exact(t, p4, p5);
    lemma_digits_value_nonneg(t, p4, p5);
    lemma_ws_len_exact(t, p5, n);
    let va = Node::Number(digits_value(t, p0, p1) as i64);
    let vb = Node::Number(digits_value(t, p4, p5) as i64);
    assert(spec_number(t, 0) == Ok::<(Node, int), ParseError>((va, p1)));
    assert(spec_number(t, p3) == Ok::<(Node, int), ParseError>((vb, p5)));
    if op == 42 || op == 47 {
        let pair = Node::BinaryOperator {
            operator: if op == 42 {
                Operator::Multiply
            } else {
                Operator::Divide
            },
            left: Box::new(va),
            right: Box::new(vb),
        };
        assert(spec_term_rest(t, pair, p5) == Ok::<(Node, int), ParseError>((pair, p5)));
        assert(spec_term(t, 0) == Ok::<(Node, int), ParseError>((pair, p5)));
        assert(spec_expr_rest(t, pair, p5) == Ok::<(Node, int), ParseError>((pair, p5)));
    } else {
        let sum = Node::BinaryOperator {
            operator: if op == 43 {
                Operator::Plus
            } else {
                Operator::Minus
            },
            left: Box::new(va),
            right: Box::new(vb),
        };
        assert(spec_term_rest(t, va, p1) == Ok::<(Node, int), ParseError>((va, p1)));
        assert(spec_term_rest(t, vb, p5) == Ok::<(Node, int), ParseError>((vb, p5)));
        assert(spec_term(t, p3) == Ok::<(Node, int), ParseError>((vb, p5)));
        assert(spec_expr_rest(t, sum, p5) == Ok::<(Node, int), ParseError>((sum, p5)));
    }
}

/// Compute the line and column of byte `pos`, as [`spec_position`] says.
fn position_of(s: &[u8], pos: usize) -> (p: Position)
    requires
        pos <= s@.len(),
    ensures
        p == spec_position(s@, pos as int),
{
    let mut line: u32 = 1;
    let mut start: usize = 0;
    let mut j: usize = 0;
    while j < pos
        invariant
            j <= pos <= s@.len(),
            line_of(s@, j as int) > u32::MAX ==> line == u32::MAX,
            line_of(s@, j as int) <= u32::MAX ==> line == line_of(s@, j as int),
            start as int == line_start_of(s@, j as int),
            start <= j,
        decreases pos - j,
    {
        if s[j] == 10 {
            if line < u32::MAX {
                line = line + 1;
            }
            start = j + 1;
        }
        j = j + 1;
    }
    let diff = pos - start;
    let offset = if diff < usize::MAX {
        diff + 1
    } else {
        usize::MAX
    };
    Position { line, offset }
}

/// The index of the first non-whitespace byte at or after `from`.
fn skip_whitespace(s: &[u8], from: usize) -> (r: usize)
    requires
        from <= s@.len(),
    ensures
        r as int == from as int + ws_len(s@, from as int),
        from <= r <= s@.len(),
{
    let mut j = from;
    while j < s.len() && (s[j] == 32 || s[j] == 9 || s[j] == 10 || s[j] == 13)
        invariant
            from <= j <= s@.len(),
            ws_len(s@, from as int) == (j - from) + ws_len(s@, j as int),
        decreases s@.len() - j,
    {
        j = j + 1;
    }
    j
}

/// Parse `number := whitespace* digit+` at `from`, exactly as
/// [`spec_number`] says.
fn parse_number(s: &[u8], from: usize) -> (r: Result<(Node, usize), ParseError>)
    requires
        from <= s@.len(),
    ensures
        (match (r, spec_number(s@, from as int)) {
            (Ok((n, j)), Ok((sn, sj))) => n == sn && j as int == sj,
            (Err(e), Err(se)) => e == se,
            _ => false,
        }),
        r matches Ok((_, j)) ==> from < j <= s@.len(),
{
    let w = skip_whitespace(s, from);
    let mut j = w;
    let mut value: i64 = 0;
    let mut overflow = false;
    while j < s.len() && s[j] >= 48 && s[j] <= 57
        invariant
            w <= j <= s@.len(),
            digits_len(s@, w as int) == (j - w) + digits_len(s@, j as int),
            !overflow ==> value == digits_value(s@, w as int, j as int),
            overflow ==> digits_value(s@, w as int, j as int) > i64::MAX,
            value >= 0,
        decreases s@.len() - j,
    {
        let dg = (s[j] - 48) as i64;
        if !overflow {
            value = match value.checked_mul(10) {
                Some(v) => match v.checked_add(dg) {
                    Some(v2) => v2,
                    None => {
                        overflow = true;
                        0
                    },
                },
                None => {
                    overflow = true;
                    0
                },
            };
        } else {
            proof {
                assert(digits_value(s@, w as int, j + 1) == digits_value(
                    s@,
                    w as int,
                    j as int,
                ) * 10 + (s@[j as int] - 48));
            }
        }
        j = j + 1;
    }
    if j == w {
        Err(ParseError::Syntax { position: position_of(s, w), at: w })
    } else if overflow {
        Err(ParseError::LiteralOverflow { position: position_of(s, w), at: w })
    } else {
        Ok((Node::Number(value), j))
    }
}

/// Parse `term := number ( ('*' | '/') number )*` at `from`, exactly as
/// [`spec_term`] says.
fn parse_term(s: &[u8], from: usize) -> (r: Result<(Node, usize), ParseError>)
    requires
        from <= s@.len(),
    ensures
        (match (r, spec_term(s@, from as int)) {
            (Ok((n, j)), Ok((sn, sj))) => n == sn && j as int == sj,
            (Err(e), Err(se)) => e == se,
            _ => false,
        }),
        r matches Ok((_, j)) ==> from < j <= s@.len(),
{
    let first = match parse_number(s, from) {
        Ok(p) => p,
        Err(e) => {
            return Err(e);
        },
    };
    let mut node = first.0;
    let mut pos = first.1;
    loop
        invariant
            from < pos <= s@.len(),
            spec_term(s@, from as int) == spec_term_rest(s@, node, pos as int),
        ensures
            from < pos <= s@.len(),
            spec_term(s@, from as int) == spec_term_rest(s@, node, pos as int),
            ({
                let w = pos as int + ws_len(s@, pos as int);
                !(w < s@.len() && (s@[w] == 42 || s@[w] == 47))
            }),
        decreases s@.len() - pos,
    {
        let w = skip_whitespace(s, pos);
        if w >= s.len() {
            break;
        }
        let b = s[w];
        if b != 42 && b != 47 {
            break;
        }
        let op = if b == 42 {
            Operator::Multiply
        } else {
            Operator::Divide
        };
        match parse_number(s, w + 1) {
            Ok((rhs, j)) => {
                node = Node::BinaryOperator {
                    operator: op,
                    left: Box::new(node),
                    right: Box::new(rhs),
                };
                pos = j;
            },
            Err(e) => {
                return Err(e);
            },
        }
    }
    Ok((node, pos))
}

/// Parse `expression := term ( ('+' | '-') term )*` at `from`, exactly as
/// [`spec_expr`] says.
fn parse_expression(s: &[u8], from: usize) -> (r: Result<(Node, usize), ParseError>)
    requires
        from <= s@.len(),
    ensures
        (match (r, spec_expr(s@, from as int)) {
            (Ok((n, j)), Ok((sn, sj))) => n == sn && j as int == sj,
            (Err(e), Err(se)) => e == se,
            _ => false,
        }),
        r matches Ok((_, j)) ==> from < j <= s@.len(),
{
    let first = match parse_term(s, from) {
        Ok(p) => p,
        Err(e) => {
            return Err(e);
        },
    };
    let mut node = first.0;
    let mut pos = first.1;
    loop
        invariant
            from < pos <= s@.len(),
            spec_expr(s@, from as int) == spec_expr_rest(s@, node, pos as int),
        ensures
            from < pos <= s@.len(),
            spec_expr(s@, from as int) == spec_expr_rest(s@, node, pos as int),
            ({
                let w = pos as int + ws_len(s@, pos as int);
                !(w < s@.len() && (s@[w] == 43 || s@[w] == 45))
            }),
        decreases s@.len() - pos,
    {
        let w = skip_whitespace(s, pos);
        if w >= s.len() {
            break;
        }
        let b = s[w];
        if b != 43 && b != 45 {
            break;
        }
        let op = if b == 43 {
            Operator::Plus
        } else {
            Operator::Minus
        };
        match parse_term(s, w + 1) {
            Ok((rhs, j)) => {
                node = Node::BinaryOperator {
                    operator: op,
                    left: Box::new(node),
                    right: Box::new(rhs),
                };
                pos = j;
            },
            Err(e) => {
                return Err(e);
            },
        }
    }
    Ok((node, pos))
}

/// Parse one expression from the front of `input`. On success, the tree and
/// the number of bytes consumed; trailing input is the caller's concern.
pub fn parse(input: &[u8]) -> (r: Result<(Node, usize), ParseError>)
    ensures
        (match (r, spec_expr(input@, 0)) {
            (Ok((n, j)), Ok((sn, sj))) => n == sn && j as int == sj,
            (Err(e), Err(se)) => e == se,
            _ => false,
        }),
{
    parse_expression(input, 0)
}

/// Parse one line of text into an expression tree, exactly as [`spec_parse`]
/// says: the whole input must be one expression, up to whitespace.
pub fn parse_str(s: &str) -> (r: Result<Node, ParseError>)
    ensures
        r == spec_parse(s.spec_bytes()),
{
    let bytes = s.as_bytes();
    match parse_expression(bytes, 0) {
        Ok((node, end)) => {
            let w = skip_whitespace(bytes, end);
            if w == bytes.len() {
                Ok(node)
            } else {
                Err(ParseError::TrailingInput { position: position_of(bytes, w), at: w })
            }
        },
        Err(e) => Err(e),
    }
}

} // verus!
