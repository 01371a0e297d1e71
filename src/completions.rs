//! Where on its line a cursor stands: in the command slot, or among the
//! arguments of a command.
use vstd::prelude::*;
use vstd::string::StringSliceAdditionalSpecFns;

use crate::lexer::{
    find_line_containing, lemma_logical_line, line_containing, line_tokens, lines, logical_lines,
    token_bytes, token_fits, tokens, Location,
    Token,
};

verus! {

/// The token ends before `column`: the cursor is past it, not on it or just
/// after it.
pub open spec fn ends_before(tok: Token, column: usize) -> bool {
    tok.location_in_file.column + (tok.end - tok.start) < column
}

/// The tokens of `ts` that end before `column`, in order.
pub open spec fn tokens_ending_before(ts: Seq<Token>, column: usize) -> Seq<Token>
    decreases ts.len(),
{
    if ts.len() == 0 {
        seq![]
    } else {
        let prev = tokens_ending_before(ts.drop_last(), column);
        if ends_before(ts.last(), column) {
            prev.push(ts.last())
        } else {
            prev
        }
    }
}

/// The tokens before the cursor at `location`: every token of the logical
/// line that holds the cursor's line that ends before the cursor's column.
/// None where the text has no such line.
pub open spec fn tokens_before_cursor(t: Seq<u8>, location: Location) -> Option<Seq<Token>> {
    match line_containing(t, location.line as int) {
        Some(k) => Some(tokens_ending_before(line_tokens(t, logical_lines(t)[k]), location.column)),
        None => None,
    }
}

/// A cursor among the arguments of a command.
#[derive(Debug, PartialEq)]
pub struct CompletionPositionArg<'a> {
    /// The command the argument is passed to.
    pub command: &'a str,
    /// The arguments before the one under the cursor, which is not included:
    /// it is the one being completed.
    pub leading_args: Vec<&'a str>,
}

/// Where on its line a cursor stands.
#[derive(Debug, PartialEq)]
pub enum CompletionPosition<'a> {
    /// No complete token stands before the cursor on its line.
    Command,
    /// The cursor follows a command and maybe some of its arguments.
    Arg(CompletionPositionArg<'a>),
}

/// `a` holds the texts of `ts`: the first as the command, the rest as its
/// leading arguments.
pub open spec fn arg_matches(t: Seq<u8>, a: CompletionPositionArg, ts: Seq<Token>) -> bool {
    &&& ts.len() > 0
    &&& a.command.spec_bytes() == token_bytes(t, ts[0])
    &&& a.leading_args@.len() == ts.len() - 1
    &&& forall|i: int|
        0 <= i < a.leading_args@.len() ==> (#[trigger] a.leading_args@[i]).spec_bytes()
            == token_bytes(t, ts[i + 1])
}

/// `p` is the position that the tokens `ts` before the cursor give.
pub open spec fn position_matches(t: Seq<u8>, p: CompletionPosition, ts: Seq<Token>) -> bool {
    match p {
        CompletionPosition::Command => ts.len() == 0,
        CompletionPosition::Arg(a) => arg_matches(t, a, ts),
    }
}

impl<'a> CompletionPosition<'a> {
    /// Where the cursor at `cursor_position` stands in `script`; see
    /// `tokens_before_cursor`. None where the script has no line for the
    /// cursor.
    pub fn new(script: &'a str, cursor_position: Location) -> (r: Option<Self>)
        ensures
            (match tokens_before_cursor(script.spec_bytes(), cursor_position) {
                Some(ts) => match r {
                    Some(p) => position_matches(script.spec_bytes(), p, ts),
                    None => false,
                },
                None => r is None,
            }),
    {
        let ghost t = script.spec_bytes();
        let bytes = script.as_bytes();
        assert(t.len() == bytes.len());
        let all_lines = lines(script);
        let k = match find_line_containing(script, &all_lines, cursor_position.line) {
            Some(k) => k,
            None => {
                return None;
            },
        };
        proof {
            lemma_logical_line(t, k as int);
        }
        let toks = tokens(script, &all_lines[k]);
        let column = cursor_position.column;
        let mut before: Vec<Token> = Vec::new();
        let mut n: usize = 0;
        while n < toks.len()
            invariant
                n <= toks@.len(),
                forall|j: int| 0 <= j < toks@.len() ==> token_fits(t, #[trigger] toks@[j]),
                forall|j: int| 0 <= j < before@.len() ==> token_fits(t, #[trigger] before@[j]),
                before@ == tokens_ending_before(toks@.subrange(0, n as int), column),
            decreases toks@.len() - n,
        {
            let tok = toks[n];
            proof {
                let pre = toks@.subrange(0, n + 1);
                assert(pre.drop_last() =~= toks@.subrange(0, n as int));
                assert(pre.last() == tok);
                assert(token_fits(t, toks@[n as int]));
            }
            if tok.end - tok.start < column && tok.location_in_file.column < column - (tok.end
                - tok.start) {
                before.push(tok);
            }
            n = n + 1;
        }
        proof {
            assert(toks@.subrange(0, n as int) =~= toks@);
        }
        let ghost ts = before@;
        assert(tokens_before_cursor(t, cursor_position) == Some(ts));
        if before.len() == 0 {
            return Some(CompletionPosition::Command);
        }
        assert(token_fits(t, before@[0]));
        let command = before[0].text(script);
        let mut leading_args: Vec<&'a str> = Vec::new();
        let mut j: usize = 1;
        while j < before.len()
            invariant
                1 <= j <= before@.len(),
                t == script.spec_bytes(),
                ts == before@,
                forall|i: int| 0 <= i < before@.len() ==> token_fits(t, #[trigger] before@[i]),
                leading_args@.len() == j - 1,
                forall|i: int|
                    0 <= i < leading_args@.len() ==> (#[trigger] leading_args@[i]).spec_bytes()
                        == token_bytes(t, ts[i + 1]),
            decreases before@.len() - j,
        {
            assert(token_fits(t, before@[j as int]));
            let s = before[j].text(script);
            leading_args.push(s);
            proof {
                assert(leading_args@[j - 1] == s);
            }
            j = j + 1;
        }
        Some(CompletionPosition::Arg(CompletionPositionArg { command, leading_args }))
    }

    /// The argument position, where the cursor stands among arguments.
    pub fn into_arg(self) -> (r: Option<CompletionPositionArg<'a>>)
        ensures
            (match self {
                CompletionPosition::Arg(a) => r == Some(a),
                CompletionPosition::Command => r is None,
            }),
    {
        match self {
            CompletionPosition::Arg(a) => Some(a),
            CompletionPosition::Command => None,
        }
    }
}

} // verus!
