//! Splitting script text into logical lines and positioned tokens.
//!
//! The text is read as its UTF-8 bytes. Columns are byte offsets from the
//! start of the physical line, and lines are counted by line feeds.
use vstd::prelude::*;
use vstd::string::StringSliceAdditionalSpecFns;
use vstd::utf8::*;

verus! {

pub const LINE_FEED: u8 = 10;

pub const BACKSLASH: u8 = 92;

/// The ASCII whitespace bytes: space, tab, line feed, vertical tab, form feed
/// and carriage return.
pub open spec fn is_ws(b: u8) -> bool {
    b == 32 || (9 <= b && b <= 13)
}

/// The length in bytes of the whitespace character whose encoding starts at
/// byte `p`, or 0 where none does. Whitespace is Unicode's: the ASCII
/// whitespace bytes, U+0085, U+00A0, U+1680, U+2000 to U+200A, U+2028, U+2029,
/// U+202F, U+205F and U+3000.
pub open spec fn ws_len(t: Seq<u8>, p: int) -> int {
    if p < 0 || p >= t.len() {
        0
    } else if is_ws(t[p]) {
        1
    } else if p + 1 < t.len() && t[p] == 0xc2 && (t[p + 1] == 0x85 || t[p + 1] == 0xa0) {
        2
    } else if p + 2 < t.len() && ((t[p] == 0xe1 && t[p + 1] == 0x9a && t[p + 2] == 0x80) || (t[p]
        == 0xe2 && t[p + 1] == 0x80 && ((0x80 <= t[p + 2] && t[p + 2] <= 0x8a) || t[p + 2] == 0xa8
        || t[p + 2] == 0xa9 || t[p + 2] == 0xaf)) || (t[p] == 0xe2 && t[p + 1] == 0x81 && t[p + 2]
        == 0x9f) || (t[p] == 0xe3 && t[p + 1] == 0x80 && t[p + 2] == 0x80)) {
        3
    } else {
        0
    }
}

/// Byte `i` belongs to the encoding of a whitespace character.
pub open spec fn in_ws(t: Seq<u8>, i: int) -> bool {
    ws_len(t, i) >= 1 || ws_len(t, i - 1) >= 2 || ws_len(t, i - 2) >= 3
}

/// The length of the whitespace character that starts at byte `p`, if any.
fn ws_len_at(t: &[u8], p: usize) -> (r: usize)
    ensures
        r == ws_len(t@, p as int),
{
    let n = t.len();
    if p >= n {
        return 0;
    }
    let b = t[p];
    if b == 32 || (9 <= b && b <= 13) {
        return 1;
    }
    if n - p > 1 && b == 0xc2 && (t[p + 1] == 0x85 || t[p + 1] == 0xa0) {
        return 2;
    }
    if n - p > 2 {
        let c = t[p + 1];
        let d = t[p + 2];
        if (b == 0xe1 && c == 0x9a && d == 0x80) || (b == 0xe2 && c == 0x80 && ((0x80 <= d && d
            <= 0x8a) || d == 0xa8 || d == 0xa9 || d == 0xaf)) || (b == 0xe2 && c == 0x81 && d
            == 0x9f) || (b == 0xe3 && c == 0x80 && d == 0x80) {
            return 3;
        }
    }
    0
}

/// Whether byte `i` belongs to the encoding of a whitespace character.
fn is_space_at(t: &[u8], i: usize) -> (r: bool)
    ensures
        r == in_ws(t@, i as int),
{
    ws_len_at(t, i) >= 1 || (i >= 1 && ws_len_at(t, i - 1) >= 2) || (i >= 2 && ws_len_at(
        t,
        i - 2,
    ) >= 3)
}

/// The byte at `i` follows a backslash that is not itself escaped.
pub open spec fn escaped(t: Seq<u8>, i: int) -> bool
    decreases i,
{
    if i <= 0 || i > t.len() {
        false
    } else {
        t[i - 1] == BACKSLASH && !escaped(t, i - 1)
    }
}

/// A line feed that ends a logical line.
pub open spec fn is_break(t: Seq<u8>, i: int) -> bool {
    0 <= i < t.len() && t[i] == LINE_FEED && !escaped(t, i)
}

/// An escaped line feed, which joins two physical lines into one logical line.
pub open spec fn is_continuation(t: Seq<u8>, i: int) -> bool {
    0 <= i < t.len() && t[i] == LINE_FEED && escaped(t, i)
}

/// The number of line feeds among the first `i` bytes: the physical line of byte `i`.
pub open spec fn newlines_before(t: Seq<u8>, i: int) -> int
    decreases i,
{
    if i <= 0 || i > t.len() {
        0
    } else {
        newlines_before(t, i - 1) + if t[i - 1] == LINE_FEED {
            1int
        } else {
            0int
        }
    }
}

/// The offset at which the physical line holding byte `i` starts.
pub open spec fn physical_line_start(t: Seq<u8>, i: int) -> int
    decreases i,
{
    if i <= 0 || i > t.len() {
        0
    } else if t[i - 1] == LINE_FEED {
        i
    } else {
        physical_line_start(t, i - 1)
    }
}

/// A line position of a script.
#[derive(Debug, Clone, Copy, PartialEq, Eq, Structural)]
pub struct Location {
    pub line: usize,
    pub column: usize,
}

/// A maximal run of non-whitespace bytes `start..end` of a script, with the
/// position of its first byte. Tokens never hold a line feed, so the token
/// ends at `column + (end - start)` on the same line.
#[derive(Debug, Clone, Copy, PartialEq, Eq, Structural)]
pub struct Token {
    pub start: usize,
    pub end: usize,
    pub location_in_file: Location,
}

/// One logical command line: the bytes `start..end` of a script, which cover
/// one physical line, or several joined by continuations. Its bytes include
/// the line feed that ends it, if any.
#[derive(Debug, Clone, Copy, PartialEq, Eq, Structural)]
pub struct CommandLine {
    pub start: usize,
    pub end: usize,
    /// The physical line on which this command line starts.
    pub start_line_in_file: usize,
}

/// A logical line starts at `a`: at the start of the text or just after a
/// line break. The text after the last line break is a line even when it is
/// empty.
pub open spec fn is_line_start(t: Seq<u8>, a: int) -> bool {
    0 <= a <= t.len() && (a == 0 || is_break(t, a - 1))
}

/// Where the logical line that reaches byte `a` ends: just after the next
/// line break, or at the end of the text.
pub open spec fn line_end(t: Seq<u8>, a: int) -> int
    decreases t.len() - a,
{
    if a < 0 || a >= t.len() {
        t.len() as int
    } else if is_break(t, a) {
        a + 1
    } else {
        line_end(t, a + 1)
    }
}

pub open spec fn spec_line(t: Seq<u8>, a: int) -> CommandLine {
    CommandLine {
        start: a as usize,
        end: line_end(t, a) as usize,
        start_line_in_file: newlines_before(t, a) as usize,
    }
}

/// The logical lines that start among the first `i` bytes, in order.
pub open spec fn lines_upto(t: Seq<u8>, i: int) -> Seq<CommandLine>
    decreases i,
{
    if i <= 0 {
        seq![]
    } else {
        lines_upto(t, i - 1) + if is_line_start(t, i - 1) {
            seq![spec_line(t, i - 1)]
        } else {
            seq![]
        }
    }
}

/// All logical lines of a script, in order. Every line but the last ends
/// with a line break; the last one runs to the end of the text, and may be
/// empty.
pub open spec fn logical_lines(t: Seq<u8>) -> Seq<CommandLine> {
    lines_upto(t, t.len() as int + 1)
}

/// `line` is one of the logical lines of `t`.
pub open spec fn is_line_of(t: Seq<u8>, line: CommandLine) -> bool {
    is_line_start(t, line.start as int) && line == spec_line(t, line.start as int)
}

pub open spec fn is_token_start(t: Seq<u8>, i: int) -> bool {
    0 <= i < t.len() && !in_ws(t, i) && (i == 0 || in_ws(t, i - 1))
}

/// The end of the run of non-whitespace bytes that reaches byte `i`.
pub open spec fn run_end(t: Seq<u8>, i: int) -> int
    decreases t.len() - i,
{
    if i < 0 || i >= t.len() {
        t.len() as int
    } else if in_ws(t, i) {
        i
    } else {
        run_end(t, i + 1)
    }
}

/// A run of non-whitespace bytes is a token unless a continuation follows it
/// directly: such a run ends in the escaping backslash and is left out.
pub open spec fn is_token(t: Seq<u8>, i: int) -> bool {
    is_token_start(t, i) && !is_continuation(t, run_end(t, i))
}

pub open spec fn spec_token(t: Seq<u8>, i: int) -> Token {
    Token {
        start: i as usize,
        end: run_end(t, i) as usize,
        location_in_file: Location {
            line: newlines_before(t, i) as usize,
            column: (i - physical_line_start(t, i)) as usize,
        },
    }
}

/// The tokens that start in `a..i`, in order.
pub open spec fn tokens_between(t: Seq<u8>, a: int, i: int) -> Seq<Token>
    decreases i - a,
{
    if i <= a {
        seq![]
    } else {
        tokens_between(t, a, i - 1) + if is_token(t, i - 1) {
            seq![spec_token(t, i - 1)]
        } else {
            seq![]
        }
    }
}

/// The tokens of one logical line, in order.
pub open spec fn line_tokens(t: Seq<u8>, line: CommandLine) -> Seq<Token> {
    tokens_between(t, line.start as int, line.end as int)
}

/// The non-empty span `start..end` lies in `t`, holds no whitespace at
/// either end, and each end touches whitespace or an end of `t`.
pub open spec fn span_fits(t: Seq<u8>, start: int, end: int) -> bool {
    &&& 0 <= start < end <= t.len()
    &&& (start == 0 || in_ws(t, start - 1))
    &&& !in_ws(t, start)
    &&& !in_ws(t, end - 1)
    &&& (end == t.len() || in_ws(t, end))
}

/// The span of `tok` lies in `t` on whitespace (or text) boundaries.
pub open spec fn token_fits(t: Seq<u8>, tok: Token) -> bool {
    span_fits(t, tok.start as int, tok.end as int)
}

pub open spec fn token_bytes(t: Seq<u8>, tok: Token) -> Seq<u8> {
    t.subrange(tok.start as int, tok.end as int)
}

impl Token {
    pub open spec fn spec_is_at_location(&self, location: Location) -> bool {
        &&& location.line == self.location_in_file.line
        &&& self.location_in_file.column <= location.column
        &&& location.column < self.location_in_file.column + (self.end - self.start)
    }

    /// Whether `location` falls on this token.
    pub fn is_at_location(&self, location: Location) -> (r: bool)
        requires
            self.start <= self.end,
        ensures
            r == self.spec_is_at_location(location),
    {
        location.line == self.location_in_file.line && location.column
            >= self.location_in_file.column && location.column - self.location_in_file.column
            < self.end - self.start
    }

    /// The text of this token, as a slice of the script it came from.
    pub fn text<'a>(&self, script: &'a str) -> (r: &'a str)
        requires
            token_fits(script.spec_bytes(), *self),
        ensures
            r.spec_bytes() == token_bytes(script.spec_bytes(), *self),
    {
        slice_between(script, self.start, self.end)
    }
}

proof fn lemma_boundary_at_lead(b: Seq<u8>, i: int)
    requires
        valid_utf8(b),
        0 <= i <= b.len(),
        i == 0 || i == b.len() || !is_continuation_byte(b[i]),
    ensures
        is_char_boundary(b, i),
    decreases b.len(),
{
    if i > 0 {
        let l = length_of_first_scalar(b);
        let rest = pop_first_scalar(b);
        if i >= l {
            assert(rest.len() == b.len() - l);
            assert(forall|k: int| 0 <= k < rest.len() ==> rest[k] == b[k + l]);
            lemma_boundary_at_lead(rest, i - l);
        }
    }
}

proof fn lemma_boundary_after_char(b: Seq<u8>, p: int)
    requires
        valid_utf8(b),
        0 <= p < b.len(),
        is_char_boundary(b, p),
    ensures
        p + length_of_first_scalar(b.subrange(p, b.len() as int)) <= b.len(),
        is_char_boundary(b, p + length_of_first_scalar(b.subrange(p, b.len() as int))),
    decreases b.len(),
{
    let l = length_of_first_scalar(b);
    let rest = pop_first_scalar(b);
    assert(valid_first_scalar(b) && valid_utf8(rest));
    assert(1 <= l <= b.len());
    assert(rest.len() == b.len() - l);
    assert(forall|k: int| 0 <= k < rest.len() ==> rest[k] == b[k + l]);
    if p == 0 {
        assert(b.subrange(0, b.len() as int) =~= b);
        assert(is_char_boundary(rest, 0));
    } else {
        assert(is_char_boundary(rest, p - l));
        assert(0 <= p - l < rest.len());
        assert(rest.subrange(p - l, rest.len() as int) =~= b.subrange(p, b.len() as int));
        lemma_boundary_after_char(rest, p - l);
    }
}

proof fn lemma_span_boundaries(b: Seq<u8>, start: int, end: int)
    requires
        valid_utf8(b),
        span_fits(b, start, end),
    ensures
        is_char_boundary(b, start),
        end == b.len() || !is_continuation_byte(b[end]),
{
    if start > 0 {
        let q = if ws_len(b, start - 1) >= 1 {
            start - 1
        } else if ws_len(b, start - 2) >= 2 {
            start - 2
        } else {
            start - 3
        };
        assert(q + ws_len(b, q) == start);
        lemma_boundary_at_lead(b, q);
        lemma_boundary_after_char(b, q);
        let c = b.subrange(q, b.len() as int);
        assert(c[0] == b[q]);
        assert(length_of_first_scalar(c) == ws_len(b, q));
    }
}

/// The bytes `start..end` of `s` as a string slice. Both ends touch
/// whitespace or an end of `s`, so they fall between characters.
fn slice_between<'a>(s: &'a str, start: usize, end: usize) -> (r: &'a str)
    requires
        span_fits(s.spec_bytes(), start as int, end as int),
    ensures
        r.spec_bytes() == s.spec_bytes().subrange(start as int, end as int),
{
    let ghost b = s.spec_bytes();
    proof {
        encode_utf8_valid_utf8(s@);
        lemma_span_boundaries(b, start as int, end as int);
        valid_utf8_split(b, start as int);
    }
    let (_, rest) = s.split_at(start);
    proof {
        let rb = rest.spec_bytes();
        assert(rb.len() == b.len() - start);
        assert(forall|k: int| 0 <= k < rb.len() ==> rb[k] == b[k + start]);
        lemma_boundary_at_lead(rb, (end - start) as int);
    }
    let (r, _) = rest.split_at(end - start);
    proof {
        assert(r.spec_bytes() =~= b.subrange(start as int, end as int));
    }
    r
}

proof fn lemma_lines_upto_step(t: Seq<u8>, a: int, b: int)
    requires
        is_line_start(t, a),
        a < b <= t.len(),
        forall|k: int| a <= k < b - 1 ==> !is_break(t, k),
    ensures
        lines_upto(t, b) == lines_upto(t, a) + seq![spec_line(t, a)],
    decreases b - a,
{
    if b - 1 > a {
        lemma_lines_upto_step(t, a, b - 1);
        assert(!is_line_start(t, b - 1));
        assert(lines_upto(t, b) =~= lines_upto(t, b - 1));
    } else {
        assert(lines_upto(t, a + 1) == lines_upto(t, a) + seq![spec_line(t, a)]);
    }
}

/// Splits a script into its logical lines.
pub fn lines(text: &str) -> (r: Vec<CommandLine>)
    ensures
        r@ == logical_lines(text.spec_bytes()),
{
    let t = text.as_bytes();
    let n = t.len();
    let mut out: Vec<CommandLine> = Vec::new();
    let mut a: usize = 0;
    let mut line_number: usize = 0;
    let mut at_line_start: bool = true;
    while a < n
        invariant
            t@ == text.spec_bytes(),
            n == t@.len(),
            a <= n,
            at_line_start == (a == 0 || is_break(t@, a - 1)),
            a < n ==> at_line_start,
            line_number == newlines_before(t@, a as int),
            line_number <= a,
            out@ == lines_upto(t@, a as int),
        decreases n - a,
    {
        let mut j: usize = a;
        let mut escaped_here: bool = false;
        let mut newlines: usize = line_number;
        while j < n && !(t[j] == LINE_FEED && !escaped_here)
            invariant
                t@ == text.spec_bytes(),
                n == t@.len(),
                a < n,
                a <= j <= n,
                escaped_here == escaped(t@, j as int),
                newlines == newlines_before(t@, j as int),
                newlines <= j,
                line_end(t@, a as int) == line_end(t@, j as int),
                forall|k: int| a <= k < j ==> !is_break(t@, k),
            decreases n - j,
        {
            if t[j] == LINE_FEED {
                newlines = newlines + 1;
            }
            escaped_here = t[j] == BACKSLASH && !escaped_here;
            j = j + 1;
        }
        let b: usize = if j < n {
            j + 1
        } else {
            j
        };
        if j < n {
            newlines = newlines + 1;
        }
        proof {
            assert(line_end(t@, a as int) == b);
            lemma_lines_upto_step(t@, a as int, b as int);
        }
        out.push(CommandLine { start: a, end: b, start_line_in_file: line_number });
        line_number = newlines;
        at_line_start = j < n;
        a = b;
    }
    if at_line_start {
        out.push(CommandLine { start: a, end: a, start_line_in_file: line_number });
    }
    proof {
        assert(line_end(t@, a as int) == a);
        assert(out@ =~= lines_upto(t@, a + 1));
    }
    out
}

proof fn lemma_tokens_between_run(t: Seq<u8>, a: int, i: int, j: int)
    requires
        0 <= a <= i < j <= t.len(),
        forall|k: int| i <= k < j ==> !in_ws(t, k),
    ensures
        tokens_between(t, a, j) == tokens_between(t, a, i) + if is_token(t, i) {
            seq![spec_token(t, i)]
        } else {
            seq![]
        },
    decreases j - i,
{
    if j - 1 > i {
        lemma_tokens_between_run(t, a, i, j - 1);
        assert(!in_ws(t, j - 2));
        assert(!is_token_start(t, j - 1));
        assert(tokens_between(t, a, j) =~= tokens_between(t, a, j - 1));
    }
}

/// Splits one logical line of a script into its tokens.
pub fn tokens(text: &str, line: &CommandLine) -> (r: Vec<Token>)
    requires
        is_line_of(text.spec_bytes(), *line),
    ensures
        r@ == line_tokens(text.spec_bytes(), *line),
        forall|k: int| 0 <= k < r@.len() ==> token_fits(text.spec_bytes(), #[trigger] r@[k]),
{
    let t = text.as_bytes();
    let n = t.len();
    let a = line.start;
    let b = line.end;
    let mut out: Vec<Token> = Vec::new();
    let mut i: usize = a;
    let mut escaped_here: bool = false;
    let mut line_number: usize = line.start_line_in_file;
    let mut line_start: usize = a;
    proof {
        if a < n {
            lemma_line_end_bounds(t@, a as int);
        }
        lemma_position_bounds(t@, a as int);
        assert(b as int == line_end(t@, a as int));
        assert(physical_line_start(t@, a as int) == a);
    }
    while i < b
        invariant
            t@ == text.spec_bytes(),
            n == t@.len(),
            is_line_of(t@, *line),
            a == line.start,
            b == line.end,
            a <= n,
            b <= n,
            a <= i <= b,
            (i < b && !in_ws(t@, i as int)) ==> is_token_start(t@, i as int),
            escaped_here == escaped(t@, i as int),
            line_number == newlines_before(t@, i as int),
            line_number <= i,
            line_start == physical_line_start(t@, i as int),
            line_start <= i,
            out@ == tokens_between(t@, a as int, i as int),
            forall|k: int| 0 <= k < out@.len() ==> token_fits(t@, #[trigger] out@[k]),
        decreases b - i,
    {
        if is_space_at(t, i) {
            if t[i] == LINE_FEED {
                line_number = line_number + 1;
                line_start = i + 1;
            }
            escaped_here = t[i] == BACKSLASH && !escaped_here;
            proof {
                assert(escaped(t@, i + 1) == (t@[i as int] == BACKSLASH && !escaped(t@, i as int)));
            }
            i = i + 1;
        } else {
            let mut j: usize = i;
            let mut escaped_end: bool = escaped_here;
            while j < b && !is_space_at(t, j)
                invariant
                    t@ == text.spec_bytes(),
                    n == t@.len(),
                    b <= n,
                    i <= j <= b,
                    i < b,
                    escaped_end == escaped(t@, j as int),
                    run_end(t@, i as int) == run_end(t@, j as int),
                    newlines_before(t@, j as int) == newlines_before(t@, i as int),
                    physical_line_start(t@, j as int) == physical_line_start(t@, i as int),
                    forall|k: int| i <= k < j ==> !in_ws(t@, k),
                decreases b - j,
            {
                escaped_end = t[j] == BACKSLASH && !escaped_end;
                j = j + 1;
            }
            proof {
                if j == b && b < n {
                    assert(is_break(t@, b - 1)) by {
                        lemma_line_end_bounds(t@, a as int);
                    }
                }
                assert(j == run_end(t@, i as int));
                lemma_tokens_between_run(t@, a as int, i as int, j as int);
            }
            if !(j < n && t[j] == LINE_FEED && escaped_end) {
                out.push(
                    Token {
                        start: i,
                        end: j,
                        location_in_file: Location { line: line_number, column: i - line_start },
                    },
                );
            }
            escaped_here = escaped_end;
            i = j;
        }
    }
    out
}

proof fn lemma_position_bounds(t: Seq<u8>, i: int)
    requires
        0 <= i <= t.len(),
    ensures
        0 <= newlines_before(t, i) <= i,
        0 <= physical_line_start(t, i) <= i,
    decreases i,
{
    if i > 0 {
        lemma_position_bounds(t, i - 1);
    }
}

proof fn lemma_line_end_bounds(t: Seq<u8>, a: int)
    requires
        0 <= a < t.len(),
    ensures
        a < line_end(t, a) <= t.len(),
        line_end(t, a) < t.len() ==> is_break(t, line_end(t, a) - 1),
        forall|k: int| a <= k < line_end(t, a) - 1 ==> !is_break(t, k),
    decreases t.len() - a,
{
    if !is_break(t, a) {
        assert(line_end(t, a) == line_end(t, a + 1));
        if a + 1 < t.len() {
            lemma_line_end_bounds(t, a + 1);
        }
    }
}

/// The index of the first line, from index `k` on, that starts on physical line `line`.
pub open spec fn first_line_from(ls: Seq<CommandLine>, line: int, k: int) -> Option<int>
    decreases ls.len() - k,
{
    if k < 0 || k >= ls.len() {
        None
    } else if ls[k].start_line_in_file == line {
        Some(k)
    } else {
        first_line_from(ls, line, k + 1)
    }
}

/// The index of the first of `ls` that starts on physical line `line`.
pub fn find_line(ls: &Vec<CommandLine>, line: usize) -> (r: Option<usize>)
    ensures
        r is Some <==> first_line_from(ls@, line as int, 0) is Some,
        r is Some ==> first_line_from(ls@, line as int, 0) == Some(r->0 as int),
        r is Some ==> r->0 < ls@.len(),
{
    let mut k: usize = 0;
    while k < ls.len()
        invariant
            k <= ls@.len(),
            first_line_from(ls@, line as int, 0) == first_line_from(ls@, line as int, k as int),
        decreases ls@.len() - k,
    {
        if ls[k].start_line_in_file == line {
            return Some(k);
        }
        k = k + 1;
    }
    None
}

/// The first token of `ts`, from index `k` on, on which `location` falls.
pub open spec fn first_token_at(ts: Seq<Token>, location: Location, k: int) -> Option<Token>
    decreases ts.len() - k,
{
    if k < 0 || k >= ts.len() {
        None
    } else if ts[k].spec_is_at_location(location) {
        Some(ts[k])
    } else {
        first_token_at(ts, location, k + 1)
    }
}

/// The index of the first of `ts` on which `location` falls.
pub fn find_token_at(ts: &Vec<Token>, location: Location) -> (r: Option<usize>)
    requires
        forall|k: int| 0 <= k < ts@.len() ==> (#[trigger] ts@[k]).start <= ts@[k].end,
    ensures
        r is Some <==> first_token_at(ts@, location, 0) is Some,
        r is Some ==> r->0 < ts@.len() && first_token_at(ts@, location, 0) == Some(ts@[r->0 as int]),
{
    let mut k: usize = 0;
    while k < ts.len()
        invariant
            k <= ts@.len(),
            forall|j: int| 0 <= j < ts@.len() ==> (#[trigger] ts@[j]).start <= ts@[j].end,
            first_token_at(ts@, location, 0) == first_token_at(ts@, location, k as int),
        decreases ts@.len() - k,
    {
        if ts[k].is_at_location(location) {
            return Some(k);
        }
        k = k + 1;
    }
    None
}

/// The token under the cursor at `location`: it lies on the logical line
/// that starts on the cursor's line.
pub open spec fn token_under_cursor(t: Seq<u8>, location: Location) -> Option<Token> {
    let ls = logical_lines(t);
    match first_line_from(ls, location.line as int, 0) {
        Some(k) => first_token_at(line_tokens(t, ls[k]), location, 0),
        None => None,
    }
}

/// Each of the logical lines of a text is a line of it, as `tokens` asks.
pub proof fn lemma_logical_line(t: Seq<u8>, k: int)
    requires
        0 <= k < logical_lines(t).len(),
        t.len() <= usize::MAX,
    ensures
        is_line_of(t, logical_lines(t)[k]),
{
    lemma_lines_upto_are_lines(t, t.len() as int + 1);
}

proof fn lemma_lines_upto_are_lines(t: Seq<u8>, i: int)
    requires
        t.len() <= usize::MAX,
    ensures
        forall|k: int|
            0 <= k < lines_upto(t, i).len() ==> is_line_of(
                t,
                #[trigger] lines_upto(t, i)[k],
            ),
    decreases i,
{
    if i > 0 {
        lemma_lines_upto_are_lines(t, i - 1);
        let prev = lines_upto(t, i - 1);
        let cur = lines_upto(t, i);
        assert forall|k: int| 0 <= k < cur.len() implies is_line_of(t, #[trigger] cur[k]) by {
            if k < prev.len() {
                assert(cur[k] == prev[k]);
            } else {
                assert(cur[k] == spec_line(t, i - 1));
            }
        }
    }
}

/// The index of the last of `ls[..k]` that starts on physical line `line` or
/// above it.
pub open spec fn last_line_upto(ls: Seq<CommandLine>, line: int, k: int) -> Option<int>
    decreases k,
{
    if k <= 0 || k > ls.len() {
        None
    } else if ls[k - 1].start_line_in_file <= line {
        Some(k - 1)
    } else {
        last_line_upto(ls, line, k - 1)
    }
}

/// The index of the logical line that holds physical line `line`: the last
/// one starting on it or above it, where the text has that many lines.
pub open spec fn line_containing(t: Seq<u8>, line: int) -> Option<int> {
    if line > newlines_before(t, t.len() as int) {
        None
    } else {
        last_line_upto(logical_lines(t), line, logical_lines(t).len() as int)
    }
}

/// The number of line feeds in `t`.
fn count_newlines(t: &[u8]) -> (r: usize)
    ensures
        r == newlines_before(t@, t@.len() as int),
{
    let mut c: usize = 0;
    let mut i: usize = 0;
    while i < t.len()
        invariant
            i <= t@.len(),
            c == newlines_before(t@, i as int),
            c <= i,
        decreases t@.len() - i,
    {
        if t[i] == LINE_FEED {
            c = c + 1;
        }
        i = i + 1;
    }
    c
}

/// The index of the logical line of `text` that holds physical line `line`.
pub fn find_line_containing(text: &str, ls: &Vec<CommandLine>, line: usize) -> (r: Option<usize>)
    requires
        ls@ == logical_lines(text.spec_bytes()),
    ensures
        r is Some <==> line_containing(text.spec_bytes(), line as int) is Some,
        r is Some ==> line_containing(text.spec_bytes(), line as int) == Some(r->0 as int),
        r is Some ==> r->0 < ls@.len(),
{
    let bytes = text.as_bytes();
    if line > count_newlines(bytes) {
        return None;
    }
    let mut k: usize = ls.len();
    while k > 0
        invariant
            k <= ls@.len(),
            ls@ == logical_lines(text.spec_bytes()),
            line <= newlines_before(text.spec_bytes(), text.spec_bytes().len() as int),
            last_line_upto(ls@, line as int, ls@.len() as int) == last_line_upto(
                ls@,
                line as int,
                k as int,
            ),
        decreases k,
    {
        if ls[k - 1].start_line_in_file <= line {
            return Some(k - 1);
        }
        k = k - 1;
    }
    None
}

} // verus!
