//! Definitions and completions for debugger command scripts: `define ... end`
//! blocks, `source` inclusion of other scripts, and plain commands.
//!
//! The index keeps the text of each known script and answers two queries at
//! a cursor: where the identifier under it is defined, and what may be typed
//! there.
pub mod completions;
pub mod laws;
pub mod lexer;
pub mod parse;
pub mod paths;
pub mod semantics;

pub use completions::{CompletionPosition, CompletionPositionArg};
pub use lexer::{lines, tokens, CommandLine, Location, Token};
pub use parse::{marks, parse, Command, Mark};
pub use semantics::{Completion, Completions, CursorPosition, Semantics};
