//! The assembler: walks the front end's token stream, resolves each
//! number leaf through the literal resolver, and hands the stream of
//! sub-results and operators to the tree builder.
//!
//! [`parse_result_matches`] is the contract of the whole pipeline: it
//! says, for every input, whether parsing yields a tree (and which
//! one), a syntax error (and at which position), or a literal error
//! (and for which literal text).  Front-end errors take precedence
//! over literal errors, because no leaf is resolved before the whole
//! input has parsed.

use vstd::prelude::*;

use crate::ast::Expression;
use crate::ast::InfixOp;
use crate::ast::ParseError;
use crate::ast::leaf_count;
use crate::ast::op_count;
use crate::builder::climb;
use crate::builder::lemma_climb_consumes_all;
use crate::builder::lemma_climb_counts;
use crate::builder::lemma_sum_leaf_items;
use crate::builder::spec_climb;
use crate::lexer::Tok;
use crate::lexer::lemma_lex_wf;
use crate::lexer::lex;
use crate::lexer::spec_lex;
use crate::lexer::tok_pos;
use crate::lexer::tok_wf;
use crate::literal::digits_value;
use crate::literal::is_literal_error_for;
use crate::literal::lemma_digits_value_nonneg;
use crate::literal::resolve_literal;
use crate::precedence::LOWEST_LEVEL;

verus! {

/// Whether the token at index `k` is of the kind the alternation
/// `number (operator number)*` expects there: numbers at even indices,
/// operators at odd ones.
pub open spec fn parity_ok(t: Tok, k: int) -> bool {
    match t {
        Tok::Num { start: _, end: _ } => k % 2 == 0,
        Tok::Op { op: _, pos: _ } => k % 2 == 1,
    }
}

/// The position of the first front-end token, from index `k` on, that
/// breaks the alternation, or the end position `n` when the stream
/// stops where a number was still expected; `None` when the stream
/// from `k` on completes the alternation.
pub open spec fn shape_err(n: int, ts: Seq<Tok>, k: int) -> Option<int>
    decreases ts.len() - k,
{
    if k >= ts.len() {
        if k % 2 == 1 {
            None
        } else {
            Some(n)
        }
    } else if parity_ok(ts[k], k) {
        shape_err(n, ts, k + 1)
    } else {
        Some(tok_pos(ts[k]))
    }
}

/// The source text a number token captured.
pub open spec fn num_text(s: Seq<char>, t: Tok) -> Seq<char> {
    match t {
        Tok::Num { start, end } => s.subrange(start as int, end as int),
        Tok::Op { op: _, pos: _ } => Seq::empty(),
    }
}

/// The numeric value of a number token's text.
pub open spec fn num_value(s: Seq<char>, t: Tok) -> int {
    digits_value(num_text(s, t))
}

/// The index of the leftmost number token, at an even index from `k`
/// on, whose value does not fit in an `i32`.
pub open spec fn first_literal_err(s: Seq<char>, ts: Seq<Tok>, k: int) -> Option<int>
    decreases ts.len() + 1 - k,
{
    if !(0 <= k < ts.len()) {
        None
    } else if num_value(s, ts[k]) > i32::MAX as int {
        Some(k)
    } else {
        first_literal_err(s, ts, k + 2)
    }
}

/// The operator a token carries; only applied to operator tokens.
pub open spec fn op_of_tok(t: Tok) -> InfixOp {
    match t {
        Tok::Op { op, pos: _ } => op,
        Tok::Num { start: _, end: _ } => InfixOp::Plus,
    }
}

/// The first sub-result of a well-shaped token stream.
pub open spec fn first_item(s: Seq<char>, ts: Seq<Tok>) -> Expression {
    Expression::Number(num_value(s, ts[0]) as i32)
}

/// The (operator, sub-result) pairs of a well-shaped token stream, in
/// source order.
pub open spec fn rest_items(s: Seq<char>, ts: Seq<Tok>) -> Seq<(InfixOp, Expression)> {
    if ts.len() == 0 {
        Seq::empty()
    } else {
        Seq::new(
            ((ts.len() - 1) / 2) as nat,
            |m: int|
                (
                    op_of_tok(ts[2 * m + 1]),
                    Expression::Number(num_value(s, ts[2 * m + 2]) as i32),
                ),
        )
    }
}

/// The tree built for a well-shaped token stream whose literals all
/// fit: the full climb from the lowest table level.
pub open spec fn spec_build(s: Seq<char>, ts: Seq<Tok>) -> Expression {
    spec_climb(rest_items(s, ts), 0, first_item(s, ts), 1).0
}

/// Whether `r` is a syntax error at position `p`.
pub open spec fn is_syntax_error_at(r: Result<Expression, ParseError>, p: int) -> bool {
    match r {
        Err(ParseError::SyntaxError { message: _, position }) => position as int == p,
        _ => false,
    }
}

/// Whether `r` is a literal error carrying exactly the text `t`.
pub open spec fn is_literal_error_with(r: Result<Expression, ParseError>, t: Seq<char>) -> bool {
    match r {
        Err(e) => is_literal_error_for(e, t),
        Ok(_) => false,
    }
}

/// The contract of `do_parse`: what parsing the text `s` must return.
/// The front end decides first: a character that fits no token, or a
/// token that breaks the alternation, is a syntax error at the pinned
/// position.  Otherwise the leftmost too-large literal, if any, is a
/// literal error carrying its text.  Otherwise the result is exactly
/// the climbed tree.
pub open spec fn parse_result_matches(s: Seq<char>, r: Result<Expression, ParseError>) -> bool {
    match spec_lex(s) {
        Err(p) => is_syntax_error_at(r, p),
        Ok(ts) => match shape_err(s.len() as int, ts, 0) {
            Some(p) => is_syntax_error_at(r, p),
            None => match first_literal_err(s, ts, 0) {
                Some(k) => is_literal_error_with(r, num_text(s, ts[k])),
                None => r == Ok::<Expression, ParseError>(spec_build(s, ts)),
            },
        },
    }
}

/// A number token that the front end guarantees: a non-empty all-digit
/// span inside the input.
pub open spec fn num_tok_wf(s: Seq<char>, t: Tok) -> bool {
    t is Num && tok_wf(s, t)
}

/// Builds one syntax error.
fn syntax_error(position: usize) -> (e: ParseError)
    ensures
        e matches ParseError::SyntaxError { message: _, position: p } && p == position,
{
    ParseError::SyntaxError {
        message: "the expression is malformed here".to_owned(),
        position,
    }
}

/// The position at which a token starts.
fn tok_position(t: Tok) -> (p: usize)
    ensures
        p as int == tok_pos(t),
{
    match t {
        Tok::Num { start, end: _ } => start,
        Tok::Op { op: _, pos } => pos,
    }
}

/// The operator an operator token carries.
fn op_from_tok(t: Tok) -> (r: InfixOp)
    requires
        t is Op,
    ensures
        r == op_of_tok(t),
{
    match t {
        Tok::Op { op, pos: _ } => op,
        Tok::Num { start: _, end: _ } => {
            // The precondition excludes number tokens, so this arm is
            // proved dead.
            proof {
                assert(false);
            }
            InfixOp::Plus
        },
    }
}

/// Resolves one number leaf of the parse stream: hands its captured
/// text to the literal resolver and wraps the value.  Succeeds exactly
/// when the value fits in an `i32`.
pub fn consume(input: &str, t: Tok) -> (r: Result<Expression, ParseError>)
    requires
        num_tok_wf(input@, t),
    ensures
        match r {
            Ok(e) => num_value(input@, t) <= i32::MAX as int && e == Expression::Number(
                num_value(input@, t) as i32,
            ),
            Err(e) => num_value(input@, t) > i32::MAX as int && is_literal_error_for(
                e,
                num_text(input@, t),
            ),
        },
{
    match t {
        Tok::Num { start, end } => {
            let txt = input.substring_char(start, end);
            proof {
                lemma_digits_value_nonneg(txt@);
            }
            match resolve_literal(txt) {
                Ok(v) => Ok(Expression::Number(v)),
                Err(e) => Err(e),
            }
        },
        Tok::Op { op: _, pos: _ } => {
            // Handing an operator token to leaf resolution would mean the
            // assembler and the front end disagree about the grammar.  The
            // precondition excludes it, so this arm is proved dead rather
            // than wrapped into a `ParseError`.
            proof {
                assert(false);
            }
            Err(syntax_error(0))
        },
    }
}

/// Assembles the front end's token stream into the tree, or into the
/// error that `parse_result_matches` pins for this input.
pub fn into_expression(input: &str, toks: &Vec<Tok>) -> (r: Result<Expression, ParseError>)
    requires
        spec_lex(input@) == Ok::<Seq<Tok>, int>(toks@),
    ensures
        parse_result_matches(input@, r),
{
    let n: usize = input.unicode_len();
    let len: usize = toks.len();
    let mut k: usize = 0;
    while k < len
        invariant
            len == toks@.len(),
            n == input@.len(),
            spec_lex(input@) == Ok::<Seq<Tok>, int>(toks@),
            k <= len,
            forall|j: int| 0 <= j < k ==> parity_ok(#[trigger] toks@[j], j),
            shape_err(n as int, toks@, 0) == shape_err(n as int, toks@, k as int),
        decreases len - k,
    {
        let t = toks[k];
        let ok: bool = match t {
            Tok::Num { start: _, end: _ } => k % 2 == 0,
            Tok::Op { op: _, pos: _ } => k % 2 == 1,
        };
        if !ok {
            proof {
                assert(shape_err(n as int, toks@, k as int) == Some(tok_pos(toks@[k as int])));
            }
            return Err(syntax_error(tok_position(t)));
        }
        k = k + 1;
    }
    if len % 2 == 0 {
        // The stream is empty or stops after an operator: a number was
        // still expected at the end of the input.
        return Err(syntax_error(n));
    }
    proof {
        lemma_lex_wf(input@, 0, toks@);
    }
    let first = match consume(input, toks[0]) {
        Ok(e) => e,
        Err(e) => {
            return Err(e);
        },
    };
    let mut rest: Vec<(InfixOp, Expression)> = Vec::new();
    let mut k2: usize = 1;
    while k2 < len
        invariant
            len == toks@.len(),
            n == input@.len(),
            len % 2 == 1,
            k2 % 2 == 1,
            1 <= k2 <= len + 1,
            spec_lex(input@) == Ok::<Seq<Tok>, int>(toks@),
            shape_err(n as int, toks@, 0) is None,
            forall|j: int| 0 <= j < len ==> parity_ok(#[trigger] toks@[j], j),
            first_literal_err(input@, toks@, 0) == first_literal_err(
                input@,
                toks@,
                k2 as int + 1,
            ),
            rest@.len() == (k2 - 1) / 2,
            forall|m: int|
                0 <= m < rest@.len() ==> #[trigger] rest@[m] == rest_items(input@, toks@)[m],
        decreases len - k2,
    {
        proof {
            lemma_lex_wf(input@, 0, toks@);
            assert(k2 + 1 < len);
            assert(parity_ok(toks@[k2 as int], k2 as int));
            assert(parity_ok(toks@[k2 as int + 1], k2 as int + 1));
        }
        let op = op_from_tok(toks[k2]);
        let prim = match consume(input, toks[k2 + 1]) {
            Ok(e) => e,
            Err(e) => {
                return Err(e);
            },
        };
        rest.push((op, prim));
        k2 = k2 + 2;
    }
    proof {
        assert(rest@ =~= rest_items(input@, toks@));
    }
    let r = climb(&rest, 0, first, LOWEST_LEVEL);
    Ok(r.0)
}

/// Parses expression text into its abstract syntax tree, or reports
/// why it cannot be parsed.  `parse_result_matches` pins the outcome
/// for every input.
pub fn do_parse(input: &str) -> (r: Result<Expression, ParseError>)
    ensures
        parse_result_matches(input@, r),
{
    match lex(input) {
        Ok(toks) => into_expression(input, &toks),
        Err(p) => Err(ParseError::SyntaxError {
            message: "this character fits no token of the expression grammar".to_owned(),
            position: p,
        }),
    }
}

/// How many number tokens the stream holds.
pub open spec fn count_num_toks(ts: Seq<Tok>) -> nat
    decreases ts.len(),
{
    if ts.len() == 0 {
        0
    } else {
        count_num_toks(ts.drop_last()) + if ts.last() is Num {
            1nat
        } else {
            0nat
        }
    }
}

/// How many operator tokens the stream holds.
pub open spec fn count_op_toks(ts: Seq<Tok>) -> nat
    decreases ts.len(),
{
    if ts.len() == 0 {
        0
    } else {
        count_op_toks(ts.drop_last()) + if ts.last() is Op {
            1nat
        } else {
            0nat
        }
    }
}

proof fn lemma_shape_none(n: int, ts: Seq<Tok>, k: int)
    requires
        0 <= k <= ts.len(),
        shape_err(n, ts, k) is None,
    ensures
        ts.len() % 2 == 1,
        forall|j: int| k <= j < ts.len() ==> parity_ok(#[trigger] ts[j], j),
    decreases ts.len() - k,
{
    if k < ts.len() {
        lemma_shape_none(n, ts, k + 1);
    }
}

proof fn lemma_shape_counts(ts: Seq<Tok>)
    requires
        ts.len() % 2 == 1,
        forall|j: int| 0 <= j < ts.len() ==> parity_ok(#[trigger] ts[j], j),
    ensures
        count_num_toks(ts) * 2 == ts.len() + 1,
        count_op_toks(ts) * 2 == ts.len() - 1,
    decreases ts.len(),
{
    let len = ts.len() as int;
    reveal_with_fuel(count_num_toks, 3);
    reveal_with_fuel(count_op_toks, 3);
    if len == 1 {
        assert(parity_ok(ts[0], 0));
        assert(ts.drop_last().len() == 0);
    } else {
        let ts2 = ts.drop_last().drop_last();
        assert forall|j: int| 0 <= j < ts2.len() implies parity_ok(#[trigger] ts2[j], j) by {
            assert(ts2[j] == ts[j]);
        }
        lemma_shape_counts(ts2);
        assert(parity_ok(ts[len - 1], len - 1));
        assert(parity_ok(ts[len - 2], len - 2));
        assert(ts.last() == ts[len - 1]);
        assert(ts.drop_last().last() == ts[len - 2]);
    }
}

/// Structural law: for a syntactically valid input whose literals all
/// fit, the built tree has exactly one leaf per number token of the
/// input and one operator node per operator token the climb consumed.
pub proof fn lemma_parse_structure(s: Seq<char>, ts: Seq<Tok>, e: Expression)
    requires
        spec_lex(s) == Ok::<Seq<Tok>, int>(ts),
        parse_result_matches(s, Ok::<Expression, ParseError>(e)),
    ensures
        leaf_count(e) == count_num_toks(ts),
        op_count(e) == count_op_toks(ts),
{
    let n = s.len() as int;
    assert(shape_err(n, ts, 0) is None);
    lemma_shape_none(n, ts, 0);
    assert(e == spec_build(s, ts));
    let items = rest_items(s, ts);
    let first = first_item(s, ts);
    assert forall|m: int|
        0 <= m < items.len() implies leaf_count(#[trigger] items[m].1) == 1 && op_count(
        items[m].1,
    ) == 0 by {
        assert(items[m].1 is Number);
    }
    lemma_climb_consumes_all(items, 0, first, 1);
    lemma_climb_counts(items, 0, first, 1);
    lemma_sum_leaf_items(items, 0, items.len() as int);
    lemma_shape_counts(ts);
}

/// Determinism: the parse outcome is a function of the input text
/// alone, so two results for the same text that satisfy the parsing
/// contract agree whenever either one is a tree.  (Error results agree
/// up to their human-readable wording, which the contract leaves
/// open.)
pub proof fn lemma_parse_deterministic(
    s: Seq<char>,
    r1: Result<Expression, ParseError>,
    r2: Result<Expression, ParseError>,
)
    requires
        parse_result_matches(s, r1),
        parse_result_matches(s, r2),
    ensures
        r1 is Ok || r2 is Ok ==> r1 == r2,
{
}

} // verus!
