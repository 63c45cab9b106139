//! The grammar front end: turns expression text into a flat stream of
//! tagged tokens, or reports the position of the first character that
//! fits no token.
//!
//! A token is either a number (a maximal non-empty run of ASCII
//! digits, kept as its span so the literal resolver sees the exact
//! source text) or one of the six operators.  ASCII spaces between
//! tokens are skipped.  Positions are character offsets into the
//! input.

use vstd::prelude::*;

use crate::ast::InfixOp;
use crate::literal::all_digits;
use crate::literal::digit_char;
use crate::literal::is_digit;

verus! {

/// One token of the input: a number literal's span, or an operator and
/// its position.
#[derive(Debug, Clone, Copy, PartialEq, Eq, Structural)]
pub enum Tok {
    Num { start: usize, end: usize },
    Op { op: InfixOp, pos: usize },
}

/// The position at which a token starts.
pub open spec fn tok_pos(t: Tok) -> int {
    match t {
        Tok::Num { start, end: _ } => start as int,
        Tok::Op { op: _, pos } => pos as int,
    }
}

/// Whether `c` separates tokens without being one.
pub open spec fn is_space(c: char) -> bool {
    c == ' '
}

/// The operator written as the character `c`, if any.
pub open spec fn op_of_char(c: char) -> Option<InfixOp> {
    if c == '+' {
        Some(InfixOp::Plus)
    } else if c == '-' {
        Some(InfixOp::Minus)
    } else if c == '*' {
        Some(InfixOp::Times)
    } else if c == '/' {
        Some(InfixOp::Divide)
    } else if c == '%' {
        Some(InfixOp::Modulus)
    } else if c == '^' {
        Some(InfixOp::Power)
    } else {
        None
    }
}

/// The end of the digit run that starts at `i`: the first index at or
/// after `i` that is past the input or holds a non-digit.
pub open spec fn num_end(s: Seq<char>, i: int) -> int
    decreases s.len() - i,
{
    if 0 <= i < s.len() && is_digit(s[i]) {
        num_end(s, i + 1)
    } else {
        i
    }
}

/// Bounds and content of a digit run.
pub proof fn lemma_num_end(s: Seq<char>, i: int)
    requires
        0 <= i <= s.len(),
    ensures
        i <= num_end(s, i) <= s.len(),
        forall|k: int| i <= k < num_end(s, i) ==> is_digit(#[trigger] s[k]),
        num_end(s, i) < s.len() ==> !is_digit(s[num_end(s, i)]),
    decreases s.len() - i,
{
    if i < s.len() && is_digit(s[i]) {
        lemma_num_end(s, i + 1);
    }
}

/// A digit run's end is the same seen from any index inside the run.
pub proof fn lemma_num_end_run(s: Seq<char>, i: int, j: int)
    requires
        0 <= i <= j <= s.len(),
        forall|k: int| i <= k < j ==> is_digit(#[trigger] s[k]),
    ensures
        num_end(s, i) == num_end(s, j),
    decreases j - i,
{
    if i < j {
        lemma_num_end_run(s, i + 1, j);
    }
}

/// The token stream of the input from position `i` on, or the position
/// of the first character that fits no token.
pub open spec fn spec_lex_from(s: Seq<char>, i: int) -> Result<Seq<Tok>, int>
    decreases s.len() - i,
{
    if !(0 <= i < s.len()) {
        Ok(Seq::empty())
    } else if is_space(s[i]) {
        spec_lex_from(s, i + 1)
    } else if is_digit(s[i]) {
        let j = num_end(s, i);
        if i < j <= s.len() {
            match spec_lex_from(s, j) {
                Ok(rest) => Ok(seq![Tok::Num { start: i as usize, end: j as usize }] + rest),
                Err(p) => Err(p),
            }
        } else {
            // A digit run is non-empty and ends within the input, so this
            // branch is never reached; it closes the termination measure.
            Err(i)
        }
    } else {
        match op_of_char(s[i]) {
            Some(op) => match spec_lex_from(s, i + 1) {
                Ok(rest) => Ok(seq![Tok::Op { op, pos: i as usize }] + rest),
                Err(p) => Err(p),
            },
            None => Err(i),
        }
    }
}

/// The token stream of the whole input.
pub open spec fn spec_lex(s: Seq<char>) -> Result<Seq<Tok>, int> {
    spec_lex_from(s, 0)
}

/// What the front end guarantees of a single token: a number token is
/// a non-empty all-digit span inside the input; an operator token sits
/// on the character that spells it.
pub open spec fn tok_wf(s: Seq<char>, t: Tok) -> bool {
    match t {
        Tok::Num { start, end } => 0 <= start < end <= s.len() && all_digits(
            s.subrange(start as int, end as int),
        ),
        Tok::Op { op, pos } => pos < s.len() && op_of_char(s[pos as int]) == Some(op),
    }
}

/// Every token the front end emits is well-formed.
pub proof fn lemma_lex_wf(s: Seq<char>, i: int, ts: Seq<Tok>)
    requires
        0 <= i <= s.len(),
        s.len() <= usize::MAX,
        spec_lex_from(s, i) == Ok::<Seq<Tok>, int>(ts),
    ensures
        forall|k: int| 0 <= k < ts.len() ==> tok_wf(s, #[trigger] ts[k]),
    decreases s.len() - i,
{
    if !(0 <= i < s.len()) {
    } else if is_space(s[i]) {
        lemma_lex_wf(s, i + 1, ts);
    } else if is_digit(s[i]) {
        lemma_num_end(s, i);
        let j = num_end(s, i);
        if let Ok(rest) = spec_lex_from(s, j) {
            lemma_lex_wf(s, j, rest);
            let head = Tok::Num { start: i as usize, end: j as usize };
            assert(all_digits(s.subrange(i, j)));
            assert(tok_wf(s, head));
            assert(ts == seq![head] + rest);
            assert forall|k: int| 0 <= k < ts.len() implies tok_wf(s, #[trigger] ts[k]) by {
                if k == 0 {
                    assert(ts[k] == head);
                } else {
                    assert(ts[k] == rest[k - 1]);
                }
            }
        }
    } else {
        if let Some(op) = op_of_char(s[i]) {
            if let Ok(rest) = spec_lex_from(s, i + 1) {
                lemma_lex_wf(s, i + 1, rest);
                let head = Tok::Op { op, pos: i as usize };
                assert(tok_wf(s, head));
                assert(ts == seq![head] + rest);
                assert forall|k: int| 0 <= k < ts.len() implies tok_wf(s, #[trigger] ts[k]) by {
                    if k == 0 {
                        assert(ts[k] == head);
                    } else {
                        assert(ts[k] == rest[k - 1]);
                    }
                }
            }
        }
    }
}

/// Maps one character to its operator token, if it spells one.
fn op_char(c: char) -> (r: Option<InfixOp>)
    ensures
        r == op_of_char(c),
{
    if c == '+' {
        Some(InfixOp::Plus)
    } else if c == '-' {
        Some(InfixOp::Minus)
    } else if c == '*' {
        Some(InfixOp::Times)
    } else if c == '/' {
        Some(InfixOp::Divide)
    } else if c == '%' {
        Some(InfixOp::Modulus)
    } else if c == '^' {
        Some(InfixOp::Power)
    } else {
        None
    }
}

/// Runs the front end over the whole input.  On success the returned
/// tokens are exactly the input's token stream; on failure the
/// returned position is the first character that fits no token.
pub fn lex(input: &str) -> (r: Result<Vec<Tok>, usize>)
    ensures
        match r {
            Ok(v) => spec_lex(input@) == Ok::<Seq<Tok>, int>(v@),
            Err(p) => spec_lex(input@) == Err::<Seq<Tok>, int>(p as int),
        },
{
    let n: usize = input.unicode_len();
    let mut toks: Vec<Tok> = Vec::new();
    let mut i: usize = 0;
    while i < n
        invariant
            n == input@.len(),
            i <= n,
            match spec_lex_from(input@, i as int) {
                Ok(rest) => spec_lex(input@) == Ok::<Seq<Tok>, int>(toks@ + rest),
                Err(p) => spec_lex(input@) == Err::<Seq<Tok>, int>(p),
            },
        decreases n - i,
    {
        let c = input.get_char(i);
        if c == ' ' {
            i = i + 1;
        } else if digit_char(c) {
            let mut j: usize = i + 1;
            let mut stop: bool = false;
            while j < n && !stop
                invariant
                    n == input@.len(),
                    i < j <= n,
                    forall|k: int| i <= k < j ==> is_digit(#[trigger] input@[k]),
                    stop ==> j < n && !is_digit(input@[j as int]),
                decreases n - j + (if stop { 0int } else { 1int }),
            {
                let d = input.get_char(j);
                if digit_char(d) {
                    j = j + 1;
                } else {
                    stop = true;
                }
            }
            proof {
                lemma_num_end_run(input@, i as int, j as int);
                assert(num_end(input@, i as int) == j as int);
                let head = Tok::Num { start: i, end: j };
                if let Ok(rest) = spec_lex_from(input@, j as int) {
                    assert(toks@.push(head) + rest =~= toks@ + (seq![head] + rest));
                }
            }
            toks.push(Tok::Num { start: i, end: j });
            i = j;
        } else {
            match op_char(c) {
                Some(op) => {
                    proof {
                        let head = Tok::Op { op, pos: i };
                        if let Ok(rest) = spec_lex_from(input@, i as int + 1) {
                            assert(toks@.push(head) + rest =~= toks@ + (seq![head] + rest));
                        }
                    }
                    toks.push(Tok::Op { op, pos: i });
                    i = i + 1;
                },
                None => {
                    return Err(i);
                },
            }
        }
    }
    proof {
        assert(toks@ + Seq::<Tok>::empty() =~= toks@);
    }
    Ok(toks)
}

} // verus!
