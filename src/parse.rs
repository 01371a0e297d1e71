//! Parsing logical lines into a tree of commands.
use vstd::prelude::*;
use vstd::string::StringSliceAdditionalSpecFns;

use crate::lexer::{
    lemma_logical_line, line_tokens, lines, logical_lines, token_bytes, token_fits, tokens,
    CommandLine, Token,
};

verus! {

broadcast use vstd::std_specs::vec::group_vec_axioms, vstd::seq::group_seq_axioms;

/// The bytes of `define`.
pub open spec fn define_word() -> Seq<u8> {
    seq![100u8, 101u8, 102u8, 105u8, 110u8, 101u8]
}

/// The bytes of `end`.
pub open spec fn end_word() -> Seq<u8> {
    seq![101u8, 110u8, 100u8]
}

/// The bytes of `source`.
pub open spec fn source_word() -> Seq<u8> {
    seq![115u8, 111u8, 117u8, 114u8, 99u8, 101u8]
}

/// The text of `tok` in `t` is exactly `w`.
pub open spec fn is_word(t: Seq<u8>, tok: Token, w: Seq<u8>) -> bool {
    tok.start <= tok.end <= t.len() && token_bytes(t, tok) == w
}

/// One parsed command.
pub enum Command {
    /// A `define` block; the name and the closing `end` may not be written yet.
    Define { define: Token, identifier: Option<Token>, body: Vec<Command>, end: Option<Token> },
    /// A `source` line, which includes another script.
    Source { source: Token, file_path: Option<Token> },
    /// Any other command line.
    Other { command: Token, args: Vec<Token> },
}

/// What a `Command` stands for, with its nested commands as a sequence.
pub enum CommandModel {
    Define {
        define: Token,
        identifier: Option<Token>,
        body: Seq<CommandModel>,
        end: Option<Token>,
    },
    Source { source: Token, file_path: Option<Token> },
    Other { command: Token, args: Seq<Token> },
}

pub open spec fn command_view(c: Command) -> CommandModel
    decreases c,
{
    match c {
        Command::Define { define, identifier, body, end } => CommandModel::Define {
            define,
            identifier,
            body: commands_view(body@),
            end,
        },
        Command::Source { source, file_path } => CommandModel::Source { source, file_path },
        Command::Other { command, args } => CommandModel::Other { command, args: args@ },
    }
}

pub open spec fn commands_view(cs: Seq<Command>) -> Seq<CommandModel>
    decreases cs,
{
    if cs.len() == 0 {
        seq![]
    } else {
        commands_view(cs.drop_last()).push(command_view(cs.last()))
    }
}

pub open spec fn token_at(ts: Seq<Token>, k: int) -> Option<Token> {
    if 0 <= k < ts.len() {
        Some(ts[k])
    } else {
        None
    }
}

/// The commands of the logical lines from line `k` on. With `until_end` the
/// parse stops at the first line whose first token is `end`; a stray `end`
/// outside a block is skipped. Returns the commands, the index of the line
/// after the last one read, and the `end` token that stopped the parse.
pub open spec fn parse_block(t: Seq<u8>, k: int, until_end: bool) -> (Seq<CommandModel>, int, Option<Token>)
    decreases logical_lines(t).len() - k,
{
    let ls = logical_lines(t);
    if k < 0 || k >= ls.len() {
        (seq![], ls.len() as int, None)
    } else {
        let toks = line_tokens(t, ls[k]);
        if toks.len() == 0 {
            parse_block(t, k + 1, until_end)
        } else if is_word(t, toks[0], define_word()) {
            let (body, after, end) = parse_block(t, k + 1, true);
            let c = CommandModel::Define {
                define: toks[0],
                identifier: token_at(toks, 1),
                body,
                end,
            };
            if k < after <= ls.len() {
                let (rest, next, stop) = parse_block(t, after, until_end);
                (seq![c] + rest, next, stop)
            } else {
                (seq![c], after, None)
            }
        } else if is_word(t, toks[0], end_word()) {
            if until_end {
                (seq![], k + 1, Some(toks[0]))
            } else {
                parse_block(t, k + 1, until_end)
            }
        } else if is_word(t, toks[0], source_word()) {
            let (rest, next, stop) = parse_block(t, k + 1, until_end);
            (
                seq![CommandModel::Source { source: toks[0], file_path: token_at(toks, 1) }] + rest,
                next,
                stop,
            )
        } else {
            let (rest, next, stop) = parse_block(t, k + 1, until_end);
            (
                seq![CommandModel::Other { command: toks[0], args: toks.drop_first() }] + rest,
                next,
                stop,
            )
        }
    }
}

/// The top-level commands of a script, in source order.
pub open spec fn parse_script(t: Seq<u8>) -> Seq<CommandModel> {
    parse_block(t, 0, false).0
}

pub open spec fn opt_fits(t: Seq<u8>, o: Option<Token>) -> bool {
    o is Some ==> token_fits(t, o->0)
}

pub open spec fn command_fits(t: Seq<u8>, c: CommandModel) -> bool
    decreases c,
{
    match c {
        CommandModel::Define { define, identifier, body, end } => {
            &&& token_fits(t, define)
            &&& opt_fits(t, identifier)
            &&& opt_fits(t, end)
            &&& commands_fit(t, body)
        },
        CommandModel::Source { source, file_path } => token_fits(t, source) && opt_fits(
            t,
            file_path,
        ),
        CommandModel::Other { command, args } => token_fits(t, command) && forall|i: int|
            0 <= i < args.len() ==> token_fits(t, #[trigger] args[i]),
    }
}

/// Every token of the commands lies in `t` on whitespace boundaries.
pub open spec fn commands_fit(t: Seq<u8>, cs: Seq<CommandModel>) -> bool
    decreases cs,
{
    if cs.len() == 0 {
        true
    } else {
        commands_fit(t, cs.drop_last()) && command_fits(t, cs.last())
    }
}

proof fn lemma_push(t: Seq<u8>, cs: Seq<Command>, c: Command)
    ensures
        commands_view(cs.push(c)) == commands_view(cs).push(command_view(c)),
        commands_fit(t, commands_view(cs.push(c))) == (commands_fit(t, commands_view(cs))
            && command_fits(t, command_view(c))),
{
    assert(cs.push(c).drop_last() =~= cs);
    let v = commands_view(cs).push(command_view(c));
    assert(v.drop_last() =~= commands_view(cs));
}

/// Whether the text of `tok` in `t` is exactly `w`.
pub(crate) fn token_is(t: &[u8], tok: &Token, w: &[u8]) -> (r: bool)
    ensures
        r == is_word(t@, *tok, w@),
{
    if tok.start > tok.end || tok.end > t.len() {
        return false;
    }
    if tok.end - tok.start != w.len() {
        return false;
    }
    let mut i: usize = 0;
    while i < w.len()
        invariant
            tok.start <= tok.end <= t@.len(),
            tok.end - tok.start == w@.len(),
            i <= w@.len(),
            forall|j: int| 0 <= j < i ==> t@[tok.start + j] == w@[j],
        decreases w@.len() - i,
    {
        if t[tok.start + i] != w[i] {
            proof {
                assert(token_bytes(t@, *tok)[i as int] != w@[i as int]);
            }
            return false;
        }
        i = i + 1;
    }
    proof {
        assert(token_bytes(t@, *tok) =~= w@);
    }
    true
}

/// Parses logical lines from line `k` on; see `parse_block`.
fn parse_until(text: &str, lines: &Vec<CommandLine>, k: usize, until_end: bool) -> (r: (
    Vec<Command>,
    usize,
    Option<Token>,
))
    requires
        lines@ == logical_lines(text.spec_bytes()),
        k <= lines@.len(),
    ensures
        commands_view(r.0@) == parse_block(text.spec_bytes(), k as int, until_end).0,
        r.1 as int == parse_block(text.spec_bytes(), k as int, until_end).1,
        r.2 == parse_block(text.spec_bytes(), k as int, until_end).2,
        k < lines@.len() ==> k < r.1,
        r.1 <= lines@.len(),
        commands_fit(text.spec_bytes(), commands_view(r.0@)),
        opt_fits(text.spec_bytes(), r.2),
    decreases lines@.len() - k,
{
    let ghost t = text.spec_bytes();
    let bytes = text.as_bytes();
    let n = bytes.len();
    let define_kw: [u8; 6] = [100u8, 101u8, 102u8, 105u8, 110u8, 101u8];
    let end_kw: [u8; 3] = [101u8, 110u8, 100u8];
    let source_kw: [u8; 6] = [115u8, 111u8, 117u8, 114u8, 99u8, 101u8];
    let mut commands: Vec<Command> = Vec::new();
    let mut i: usize = k;
    while i < lines.len()
        invariant
            lines@ == logical_lines(t),
            t == text.spec_bytes(),
            bytes@ == t,
            n == t.len(),
            define_kw@ == define_word(),
            end_kw@ == end_word(),
            source_kw@ == source_word(),
            k <= i <= lines@.len(),
            parse_block(t, k as int, until_end) == (
                commands_view(commands@) + parse_block(t, i as int, until_end).0,
                parse_block(t, i as int, until_end).1,
                parse_block(t, i as int, until_end).2,
            ),
            commands_fit(t, commands_view(commands@)),
        decreases lines@.len() - i,
    {
        proof {
            lemma_logical_line(t, i as int);
        }
        let mut toks = tokens(text, &lines[i]);
        let ghost ts = toks@;
        if toks.len() == 0 {
            i = i + 1;
        } else if token_is(bytes, &toks[0], &define_kw) {
            let (body, after, end) = parse_until(text, lines, i + 1, true);
            let identifier = if toks.len() > 1 {
                Some(toks[1])
            } else {
                None
            };
            let c = Command::Define { define: toks[0], identifier, body, end };
            proof {
                lemma_push(t, commands@, c);
                assert(commands_view(commands@.push(c)) + parse_block(t, after as int, until_end).0
                    =~= commands_view(commands@) + parse_block(t, i as int, until_end).0);
            }
            commands.push(c);
            i = after;
        } else if token_is(bytes, &toks[0], &end_kw) {
            if until_end {
                proof {
                    assert(commands_view(commands@) + parse_block(t, i as int, until_end).0
                        =~= commands_view(commands@));
                }
                return (commands, i + 1, Some(toks[0]));
            }
            i = i + 1;
        } else if token_is(bytes, &toks[0], &source_kw) {
            let file_path = if toks.len() > 1 {
                Some(toks[1])
            } else {
                None
            };
            let c = Command::Source { source: toks[0], file_path };
            proof {
                lemma_push(t, commands@, c);
                assert(commands_view(commands@.push(c)) + parse_block(t, i + 1, until_end).0
                    =~= commands_view(commands@) + parse_block(t, i as int, until_end).0);
            }
            commands.push(c);
            i = i + 1;
        } else {
            let command = toks.remove(0);
            let c = Command::Other { command, args: toks };
            proof {
                assert(toks@ =~= ts.drop_first());
                lemma_push(t, commands@, c);
                assert(forall|j: int| 0 <= j < toks@.len() ==> token_fits(t, #[trigger] toks@[j])
                    ) by {
                    assert(forall|j: int| 0 <= j < toks@.len() ==> toks@[j] == ts[j + 1]);
                }
                assert(commands_view(commands@.push(c)) + parse_block(t, i + 1, until_end).0
                    =~= commands_view(commands@) + parse_block(t, i as int, until_end).0);
            }
            commands.push(c);
            i = i + 1;
        }
    }
    proof {
        assert(commands_view(commands@) + parse_block(t, i as int, until_end).0
            =~= commands_view(commands@));
    }
    (commands, i, None)
}

/// Parses a whole script into its top-level commands.
pub fn parse(text: &str) -> (r: Vec<Command>)
    ensures
        commands_view(r@) == parse_script(text.spec_bytes()),
        commands_fit(text.spec_bytes(), commands_view(r@)),
{
    let all_lines = lines(text);
    let (commands, _, _) = parse_until(text, &all_lines, 0, false);
    commands
}

/// What the name lookups read from a script: each named definition and each
/// inclusion of another script.
#[derive(Debug, Clone, Copy, PartialEq, Eq, Structural)]
pub enum Mark {
    /// A `define` line that names the command it defines.
    Definition { define: Token, identifier: Token },
    /// A `source` line that names a script.
    Inclusion { path: Token },
}

pub open spec fn command_marks(c: CommandModel) -> Seq<Mark>
    decreases c,
{
    match c {
        CommandModel::Define { define, identifier, body, end } => if identifier is Some {
            seq![Mark::Definition { define, identifier: identifier->0 }] + commands_marks(body)
        } else {
            commands_marks(body)
        },
        CommandModel::Source { source, file_path } => if file_path is Some {
            seq![Mark::Inclusion { path: file_path->0 }]
        } else {
            seq![]
        },
        CommandModel::Other { command, args } => seq![],
    }
}

/// The marks of the commands and of all commands nested in them, in source
/// order: a definition comes before the marks of its body.
pub open spec fn commands_marks(cs: Seq<CommandModel>) -> Seq<Mark>
    decreases cs,
{
    if cs.len() == 0 {
        seq![]
    } else {
        commands_marks(cs.drop_last()) + command_marks(cs.last())
    }
}

/// The marks of a whole script.
pub open spec fn script_marks(t: Seq<u8>) -> Seq<Mark> {
    commands_marks(parse_script(t))
}

pub open spec fn mark_fits(t: Seq<u8>, m: Mark) -> bool {
    match m {
        Mark::Definition { define, identifier } => token_fits(t, define) && token_fits(
            t,
            identifier,
        ),
        Mark::Inclusion { path } => token_fits(t, path),
    }
}

pub open spec fn marks_fit(t: Seq<u8>, ms: Seq<Mark>) -> bool {
    forall|k: int| 0 <= k < ms.len() ==> mark_fits(t, #[trigger] ms[k])
}

proof fn lemma_fit_prefix(t: Seq<u8>, cs: Seq<Command>, i: int)
    requires
        commands_fit(t, commands_view(cs)),
        0 <= i < cs.len(),
    ensures
        commands_fit(t, commands_view(cs.subrange(0, i))),
        command_fits(t, command_view(cs[i])),
    decreases cs.len(),
{
    assert(cs.drop_last() =~= cs.subrange(0, cs.len() - 1));
    let v = commands_view(cs);
    assert(v.drop_last() =~= commands_view(cs.drop_last()));
    assert(v.last() == command_view(cs.last()));
    if i < cs.len() - 1 {
        lemma_fit_prefix(t, cs.drop_last(), i);
        assert(cs.drop_last().subrange(0, i) =~= cs.subrange(0, i));
    }
}

fn collect_marks(cmds: &Vec<Command>, out: &mut Vec<Mark>, Ghost(t): Ghost<Seq<u8>>)
    requires
        commands_fit(t, commands_view(cmds@)),
        marks_fit(t, old(out)@),
    ensures
        final(out)@ == old(out)@ + commands_marks(commands_view(cmds@)),
        marks_fit(t, final(out)@),
    decreases cmds@,
{
    let ghost start = out@;
    let mut i: usize = 0;
    while i < cmds.len()
        invariant
            i <= cmds@.len(),
            commands_fit(t, commands_view(cmds@)),
            out@ == start + commands_marks(commands_view(cmds@.subrange(0, i as int))),
            marks_fit(t, out@),
        decreases cmds@.len() - i,
    {
        let ghost before = out@;
        proof {
            lemma_fit_prefix(t, cmds@, i as int);
            lemma_push(t, cmds@.subrange(0, i as int), cmds@[i as int]);
            assert(cmds@.subrange(0, i as int).push(cmds@[i as int]) =~= cmds@.subrange(
                0,
                i + 1,
            ));
            let v = commands_view(cmds@.subrange(0, i as int)).push(command_view(cmds@[i as int]));
            assert(v.drop_last() =~= commands_view(cmds@.subrange(0, i as int)));
            assert(commands_marks(v) == commands_marks(commands_view(cmds@.subrange(0, i as int)))
                + command_marks(command_view(cmds@[i as int])));
        }
        match &cmds[i] {
            Command::Define { define, identifier, body, end } => {
                match identifier {
                    Some(id) => {
                        out.push(Mark::Definition { define: *define, identifier: *id });
                    },
                    None => {},
                }
                let ghost mid = out@;
                proof {
                    assert(decreases_to!(cmds@ => cmds@[i as int]));
                }
                collect_marks(body, out, Ghost(t));
                proof {
                    assert(out@ =~= before + command_marks(command_view(cmds@[i as int])));
                }
            },
            Command::Source { source, file_path } => {
                match file_path {
                    Some(p) => {
                        out.push(Mark::Inclusion { path: *p });
                    },
                    None => {},
                }
                proof {
                    assert(out@ =~= before + command_marks(command_view(cmds@[i as int])));
                }
            },
            Command::Other { command, args } => {
                proof {
                    assert(out@ =~= before + command_marks(command_view(cmds@[i as int])));
                }
            },
        }
        i = i + 1;
        proof {
            assert(out@ =~= start + commands_marks(commands_view(cmds@.subrange(0, i as int))));
        }
    }
    proof {
        assert(cmds@.subrange(0, i as int) =~= cmds@);
    }
}

/// The marks of a whole script, in source order.
pub fn marks(text: &str) -> (r: Vec<Mark>)
    ensures
        r@ == script_marks(text.spec_bytes()),
        marks_fit(text.spec_bytes(), r@),
{
    let commands = parse(text);
    let mut out: Vec<Mark> = Vec::new();
    collect_marks(&commands, &mut out, Ghost(text.spec_bytes()));
    proof {
        assert(out@ =~= script_marks(text.spec_bytes()));
    }
    out
}

} // verus!
