//! The semantic index: known scripts, and the queries answered over them.
use vstd::prelude::*;
use vstd::string::StringSliceAdditionalSpecFns;
use vstd::utf8::{decode_utf8, encode_utf8, encode_utf8_decode_utf8};

use crate::lexer::{
    find_line, find_token_at, lemma_logical_line, lines, logical_lines, token_bytes,
    token_under_cursor, tokens, Location, Token,
};
use crate::completions::{tokens_before_cursor, CompletionPosition};
use crate::paths::{same_path, same_path_of};
use crate::parse::{is_word, marks, marks_fit, script_marks, token_is, Mark};

verus! {

/// What a `Semantics` stands for: the project root, and the path and text
/// bytes of each known script, in the order in which they became known.
pub struct SemanticsModel {
    pub project_root: Seq<char>,
    pub files: Seq<(Seq<char>, Seq<u8>)>,
}

/// No two known scripts share a path, compared by components.
pub open spec fn paths_unique(files: Seq<(Seq<char>, Seq<u8>)>) -> bool {
    forall|i: int, j: int| 0 <= i < j < files.len() ==> !same_path(files[i].0, files[j].0)
}

/// The index of the first script, from index `i` on, whose path names the
/// same file as `p`.
pub open spec fn find_file_from(files: Seq<(Seq<char>, Seq<u8>)>, p: Seq<char>, i: int) -> Option<
    int,
>
    decreases files.len() - i,
{
    if i < 0 || i >= files.len() {
        None
    } else if same_path(files[i].0, p) {
        Some(i)
    } else {
        find_file_from(files, p, i + 1)
    }
}

pub open spec fn find_file(files: Seq<(Seq<char>, Seq<u8>)>, p: Seq<char>) -> Option<int> {
    find_file_from(files, p, 0)
}

/// The scripts after `path` gets the text `text`: where `path` is known, the
/// text is replaced and the path kept as first given; otherwise the script is
/// added at the end.
pub open spec fn with_file(files: Seq<(Seq<char>, Seq<u8>)>, path: Seq<char>, text: Seq<u8>) -> Seq<
    (Seq<char>, Seq<u8>),
> {
    match find_file(files, path) {
        Some(i) => files.update(i, (files[i].0, text)),
        None => files.push((path, text)),
    }
}

/// A path of a `source` line made absolute: an absolute path stays as it is,
/// a relative one is joined onto the project root.
pub open spec fn canonical(root: Seq<char>, p: Seq<char>) -> Seq<char> {
    if p.len() > 0 && p[0] == '/' {
        p
    } else if root.len() == 0 || root.last() == '/' {
        root + p
    } else {
        root + seq!['/'] + p
    }
}

/// The text of a path token, as characters.
pub open spec fn token_path(t: Seq<u8>, tok: Token) -> Seq<char> {
    decode_utf8(token_bytes(t, tok))
}

/// The scripts that the inclusions among `ms` name, made absolute, in order.
pub open spec fn included_paths(root: Seq<char>, t: Seq<u8>, ms: Seq<Mark>) -> Seq<Seq<char>>
    decreases ms.len(),
{
    if ms.len() == 0 {
        seq![]
    } else {
        let prev = included_paths(root, t, ms.drop_last());
        match ms.last() {
            Mark::Inclusion { path } => prev.push(canonical(root, token_path(t, path))),
            Mark::Definition { .. } => prev,
        }
    }
}

/// Some path of `ps` names the same file as `p`.
pub open spec fn has_path(ps: Seq<Seq<char>>, p: Seq<char>) -> bool {
    exists|j: int| 0 <= j < ps.len() && same_path(ps[j], p)
}

/// The paths of `ps` that name no known script, each file once, in order of
/// first appearance.
pub open spec fn pending_paths(files: Seq<(Seq<char>, Seq<u8>)>, ps: Seq<Seq<char>>) -> Seq<
    Seq<char>,
>
    decreases ps.len(),
{
    if ps.len() == 0 {
        seq![]
    } else {
        let prev = pending_paths(files, ps.drop_last());
        let p = ps.last();
        if find_file(files, p) is Some || has_path(prev, p) {
            prev
        } else {
            prev.push(p)
        }
    }
}

/// The scripts that text `t` includes and that are not known yet.
pub open spec fn unresolved_paths(m: SemanticsModel, t: Seq<u8>) -> Seq<Seq<char>> {
    pending_paths(m.files, included_paths(m.project_root, t, script_marks(t)))
}

/// `mk` defines the name `name` on a `define` line before `limit`, where a
/// limit is given.
pub open spec fn defines(t: Seq<u8>, mk: Mark, name: Seq<u8>, limit: Option<usize>) -> bool {
    &&& mk is Definition
    &&& is_word(t, mk->identifier, name)
    &&& (limit is None || mk->define.location_in_file.line < limit->0)
}

/// The last definition among `ms` of the name `name` whose `define` stands
/// on a line before `limit`, where a limit is given.
pub open spec fn last_definition(t: Seq<u8>, ms: Seq<Mark>, name: Seq<u8>, limit: Option<usize>) -> Option<Token>
    decreases ms.len(),
{
    if ms.len() == 0 {
        None
    } else {
        if defines(t, ms.last(), name, limit) {
            Some(ms.last()->identifier)
        } else {
            last_definition(t, ms.drop_last(), name, limit)
        }
    }
}

/// Where `name` is defined, searching from script `i`: the last qualifying
/// definition of script `i` itself wins; failing that, the scripts it
/// includes are searched, the last inclusion first, with no line limit. A
/// script already on the chain of inclusions in `ancestors` is not searched
/// again, so that a cycle of inclusions ends. The result is the index of the
/// script and the defining identifier token.
pub open spec fn resolve(
    m: SemanticsModel,
    i: int,
    name: Seq<u8>,
    limit: Option<usize>,
    ancestors: Seq<int>,
) -> Option<(int, Token)>
    decreases m.files.len() - ancestors.len(), 0int,
{
    if i < 0 || i >= m.files.len() || ancestors.len() >= m.files.len() || ancestors.contains(i) {
        None
    } else {
        let t = m.files[i].1;
        let ms = script_marks(t);
        match last_definition(t, ms, name, limit) {
            Some(tok) => Some((i, tok)),
            None => {
                let ps = included_paths(m.project_root, t, ms);
                resolve_included(m, ps, ps.len() as int, name, ancestors.push(i))
            },
        }
    }
}

/// The first definition of `name` found through the paths `ps[..j]`, the
/// last path first; paths that name no known script are passed over.
pub open spec fn resolve_included(
    m: SemanticsModel,
    ps: Seq<Seq<char>>,
    j: int,
    name: Seq<u8>,
    ancestors: Seq<int>,
) -> Option<(int, Token)>
    decreases m.files.len() - ancestors.len(), j + 1,
{
    if j <= 0 || j > ps.len() {
        None
    } else {
        let found = match find_file(m.files, ps[j - 1]) {
            Some(f) => resolve(m, f, name, None, ancestors),
            None => None,
        };
        if found is Some {
            found
        } else {
            resolve_included(m, ps, j - 1, name, ancestors)
        }
    }
}

/// Where the identifier under the cursor at `location` in script `file` is
/// defined: the last definition before the cursor's line in that script, or
/// failing that one found through the scripts it includes.
pub open spec fn definition_of(m: SemanticsModel, file: Seq<char>, location: Location) -> Option<
    (int, Token),
> {
    match find_file(m.files, file) {
        None => None,
        Some(i) => match token_under_cursor(m.files[i].1, location) {
            None => None,
            Some(tok) => resolve(
                m,
                i,
                token_bytes(m.files[i].1, tok),
                Some(location.line),
                seq![],
            ),
        },
    }
}

/// A position in a script: the query of the editor, and the answer to it.
#[derive(Debug, Clone, Copy)]
pub struct CursorPosition<'a> {
    pub file: &'a str,
    pub line: usize,
    pub column: usize,
}

pub open spec fn location_of(p: CursorPosition) -> Location {
    Location { line: p.line, column: p.column }
}

/// A completion offered to the editor.
#[derive(Debug)]
pub struct Completion {
    pub text: String,
}

/// The completions at a cursor: the language's own commands, and those the
/// scripts define.
pub struct Completions {
    pub built_in: Vec<Completion>,
    pub user_provided: Vec<Completion>,
}

impl Default for Completions {
    fn default() -> (r: Self)
        ensures
            r.built_in@.len() == 0,
            r.user_provided@.len() == 0,
    {
        Completions { built_in: Vec::new(), user_provided: Vec::new() }
    }
}

pub open spec fn completion_texts(v: Seq<Completion>) -> Seq<Seq<char>> {
    v.map_values(|c: Completion| c.text@)
}

/// The built-in commands offered in the command slot of a line.
pub open spec fn built_in_commands() -> Seq<Seq<char>> {
    seq!["define"@, "if"@, "else"@, "end"@]
}

/// The cursor at `location` in script `file` stands in the command slot of
/// its line: the script is known and has the cursor's line, and no token of
/// the logical line holding it ends before the cursor's column.
pub open spec fn at_command_slot(m: SemanticsModel, file: Seq<char>, location: Location) -> bool {
    match find_file(m.files, file) {
        Some(i) => match tokens_before_cursor(m.files[i].1, location) {
            Some(ts) => ts.len() == 0,
            None => false,
        },
        None => false,
    }
}

impl<'a> From<CursorPosition<'a>> for Location {
    fn from(p: CursorPosition<'a>) -> (r: Location)
        ensures
            r == location_of(p),
    {
        Location { line: p.line, column: p.column }
    }
}

impl<'a> vstd::std_specs::convert::FromSpecImpl<CursorPosition<'a>> for Location {
    open spec fn obeys_from_spec() -> bool {
        true
    }

    open spec fn from_spec(p: CursorPosition<'a>) -> Location {
        location_of(p)
    }
}

pub open spec fn strings_view(v: Seq<String>) -> Seq<Seq<char>> {
    v.map_values(|s: String| s@)
}

/// A known script.
struct SourceFile {
    path: String,
    text: String,
}

/// The semantic index of a project: the text of each known script, and the
/// root against which relative `source` paths are resolved.
pub struct Semantics {
    project_root: String,
    files: Vec<SourceFile>,
}

impl View for Semantics {
    type V = SemanticsModel;

    closed spec fn view(&self) -> SemanticsModel {
        SemanticsModel {
            project_root: self.project_root@,
            files: self.files@.map_values(|f: SourceFile| (f.path@, encode_utf8(f.text@))),
        }
    }
}

pub(crate) proof fn lemma_find_file(files: Seq<(Seq<char>, Seq<u8>)>, p: Seq<char>, i: int)
    requires
        0 <= i,
    ensures
        match find_file_from(files, p, i) {
            Some(j) => i <= j < files.len() && same_path(files[j].0, p),
            None => forall|k: int| i <= k < files.len() ==> !same_path(files[k].0, p),
        },
    decreases files.len() - i,
{
    if i < files.len() && !same_path(files[i].0, p) {
        lemma_find_file(files, p, i + 1);
    }
}

/// Whether some path of `v` names the same file as `p`.
fn contains_path(v: &Vec<String>, p: &str) -> (r: bool)
    ensures
        r == has_path(strings_view(v@), p@),
{
    let mut i: usize = 0;
    while i < v.len()
        invariant
            i <= v@.len(),
            forall|j: int| 0 <= j < i ==> !same_path(v@[j]@, p@),
        decreases v@.len() - i,
    {
        if same_path_of(v[i].as_str(), p) {
            proof {
                assert(strings_view(v@)[i as int] == v@[i as int]@);
            }
            return true;
        }
        i = i + 1;
    }
    proof {
        if has_path(strings_view(v@), p@) {
            let j = choose|j: int| 0 <= j < v@.len() && same_path(strings_view(v@)[j], p@);
            assert(strings_view(v@)[j] == v@[j]@);
        }
    }
    false
}

/// Script indices as integers.
pub open spec fn indices(v: Seq<usize>) -> Seq<int> {
    v.map_values(|x: usize| x as int)
}

/// Whether `x` is one of `v`.
fn contains_index(v: &Vec<usize>, x: usize) -> (r: bool)
    ensures
        r == indices(v@).contains(x as int),
{
    let mut i: usize = 0;
    while i < v.len()
        invariant
            i <= v@.len(),
            forall|j: int| 0 <= j < i ==> v@[j] != x,
        decreases v@.len() - i,
    {
        if v[i] == x {
            assert(indices(v@)[i as int] == x as int);
            return true;
        }
        i = i + 1;
    }
    proof {
        if indices(v@).contains(x as int) {
            let j = choose|j: int| 0 <= j < v@.len() && indices(v@)[j] == x as int;
            assert(v@[j] == x);
        }
    }
    false
}

/// A copy of `v` with `x` added at the end.
fn pushed(v: &Vec<usize>, x: usize) -> (r: Vec<usize>)
    ensures
        indices(r@) == indices(v@).push(x as int),
        r@.len() == v@.len() + 1,
{
    let mut r: Vec<usize> = Vec::new();
    let mut i: usize = 0;
    while i < v.len()
        invariant
            i <= v@.len(),
            r@ == v@.subrange(0, i as int),
        decreases v@.len() - i,
    {
        r.push(v[i]);
        i = i + 1;
        proof {
            assert(r@ =~= v@.subrange(0, i as int));
        }
    }
    r.push(x);
    proof {
        assert(r@ =~= v@.push(x));
        assert(indices(r@) =~= indices(v@).push(x as int));
    }
    r
}

impl Semantics {
    /// The index invariant: no two known scripts share a path.
    pub open spec fn wf(&self) -> bool {
        paths_unique(self@.files)
    }

    /// An index with no known scripts.
    pub fn new(project_root: String) -> (r: Self)
        ensures
            r@.project_root == project_root@,
            r@.files.len() == 0,
            r.wf(),
    {
        let r = Semantics { project_root, files: Vec::new() };
        proof {
            assert(r@.files =~= Seq::<(Seq<char>, Seq<u8>)>::empty());
        }
        r
    }

    /// The index of the known script with path `p`.
    fn file_index(&self, p: &str) -> (r: Option<usize>)
        ensures
            r is Some <==> find_file(self@.files, p@) is Some,
            r is Some ==> find_file(self@.files, p@) == Some(r->0 as int),
            r is Some ==> r->0 < self@.files.len(),
    {
        let mut i: usize = 0;
        while i < self.files.len()
            invariant
                i <= self.files@.len(),
                self@.files.len() == self.files@.len(),
                find_file(self@.files, p@) == find_file_from(self@.files, p@, i as int),
            decreases self.files@.len() - i,
        {
            assert(self@.files[i as int].0 == self.files@[i as int].path@);
            if same_path_of(self.files[i].path.as_str(), p) {
                return Some(i);
            }
            i = i + 1;
        }
        None
    }

    /// Makes a path of a `source` line absolute; see `canonical`.
    fn canonicalize_path(&self, path: &str) -> (r: String)
        ensures
            r@ == canonical(self@.project_root, path@),
    {
        let n = path.unicode_len();
        if n > 0 && path.get_char(0) == '/' {
            return String::from_str(path);
        }
        let mut r = self.project_root.clone();
        let rn = r.as_str().unicode_len();
        if rn == 0 || r.as_str().get_char(rn - 1) == '/' {
            r.append(path);
        } else {
            r.append("/");
            proof {
                reveal_strlit("/");
            }
            r.append(path);
        }
        r
    }

    /// Sets the text of the script at `path`, adding the script if it is not
    /// known. Returns the scripts that the new text includes, made absolute,
    /// that are not known yet: each once, in order of first appearance. The
    /// caller is to load each and set its text in turn.
    pub fn set_file_text(&mut self, path: String, text: String) -> (r: Vec<String>)
        requires
            old(self).wf(),
        ensures
            final(self).wf(),
            final(self)@.project_root == old(self)@.project_root,
            final(self)@.files == with_file(old(self)@.files, path@, encode_utf8(text@)),
            strings_view(r@) == unresolved_paths(old(self)@, encode_utf8(text@)),
    {
        let ghost t = encode_utf8(text@);
        let ghost before = self@.files;
        let ghost raw = self.files@;
        let ms = marks(text.as_str());
        let paths = self.included_paths(text.as_str(), &ms);
        let mut out: Vec<String> = Vec::new();
        let mut k: usize = 0;
        while k < paths.len()
            invariant
                k <= paths@.len(),
                self@.files == before,
                self.files@ == raw,
                self.wf(),
                strings_view(out@) == pending_paths(
                    self@.files,
                    strings_view(paths@).subrange(0, k as int),
                ),
            decreases paths@.len() - k,
        {
            proof {
                let pre = strings_view(paths@).subrange(0, k as int + 1);
                assert(pre.drop_last() =~= strings_view(paths@).subrange(0, k as int));
                assert(pre.last() == paths@[k as int]@);
            }
            let known = self.file_index(paths[k].as_str()).is_some();
            if !known && !contains_path(&out, paths[k].as_str()) {
                out.push(paths[k].clone());
                proof {
                    assert(strings_view(out@) =~= pending_paths(
                        self@.files,
                        strings_view(paths@).subrange(0, k as int + 1),
                    ));
                }
            }
            k = k + 1;
        }
        proof {
            assert(strings_view(paths@).subrange(0, k as int) =~= strings_view(paths@));
        }
        proof {
            lemma_find_file(before, path@, 0);
        }
        match self.file_index(path.as_str()) {
            Some(i) => {
                let ghost p = before[i as int].0;
                let kept_path = self.files[i].path.clone();
                let f = SourceFile { path: kept_path, text };
                assert(f.path@ == p && encode_utf8(f.text@) == t);
                self.files.set(i, f);
                proof {
                    assert(self.files@ == raw.update(i as int, f));
                    assert forall|j: int| 0 <= j < self@.files.len() implies self@.files[j]
                        == before.update(i as int, (p, t))[j] by {
                        if j != i {
                            assert(self.files@[j] == raw[j]);
                        }
                    }
                    assert(self@.files =~= before.update(i as int, (p, t)));
                    assert(find_file(before, path@) == Some(i as int));
                    assert(self@.files == with_file(before, path@, t));
                    assert(paths_unique(self@.files)) by {
                        assert forall|a: int, b: int| 0 <= a < b < self@.files.len() implies !same_path(
                            self@.files[a].0,
                            self@.files[b].0,
                        ) by {
                            assert(!same_path(before[a].0, before[b].0));
                        }
                    }
                }
            },
            None => {
                let ghost p = path@;
                let f = SourceFile { path, text };
                assert(f.path@ == p && encode_utf8(f.text@) == t);
                self.files.push(f);
                proof {
                    assert(self.files@ == raw.push(f));
                    assert forall|j: int| 0 <= j < self@.files.len() implies self@.files[j]
                        == before.push((p, t))[j] by {
                        if j < before.len() {
                            assert(self.files@[j] == raw[j]);
                        }
                    }
                    assert(self@.files =~= before.push((p, t)));
                    assert(self@.files == with_file(before, p, t));
                    assert(paths_unique(self@.files)) by {
                        assert forall|a: int, b: int| 0 <= a < b < self@.files.len() implies !same_path(
                            self@.files[a].0,
                            self@.files[b].0,
                        ) by {
                            if b < before.len() {
                                assert(!same_path(before[a].0, before[b].0));
                            }
                        }
                    }
                }
            },
        }
        out
    }

    /// Where the identifier under the cursor is defined, if anywhere; see
    /// `definition_of`. The answer holds the path of the defining script and
    /// the position of the defining identifier.
    pub fn find_definition(&self, cursor_position: CursorPosition) -> (r: Option<CursorPosition<'_>>)
        ensures
            (match definition_of(self@, cursor_position.file@, location_of(cursor_position)) {
                Some(d) => match r {
                    Some(p) => {
                        &&& p.file@ == self@.files[d.0].0
                        &&& p.line == d.1.location_in_file.line
                        &&& p.column == d.1.location_in_file.column
                    },
                    None => false,
                },
                None => r is None,
            }),
    {
        let i = match self.file_index(cursor_position.file) {
            Some(i) => i,
            None => {
                return None;
            },
        };
        let script = self.files[i].text.as_str();
        let ghost t = self@.files[i as int].1;
        assert(script.spec_bytes() == t);
        let bytes = script.as_bytes();
        assert(t.len() == bytes.len());
        let location = Location { line: cursor_position.line, column: cursor_position.column };
        let all_lines = lines(script);
        let k = match find_line(&all_lines, location.line) {
            Some(k) => k,
            None => {
                return None;
            },
        };
        proof {
            lemma_logical_line(t, k as int);
        }
        let toks = tokens(script, &all_lines[k]);
        let j = match find_token_at(&toks, location) {
            Some(j) => j,
            None => {
                return None;
            },
        };
        let tok = toks[j];
        let name = tok.text(script).as_bytes();
        proof {
            assert(all_lines@ == logical_lines(t));
            assert(token_under_cursor(t, location) == Some(tok));
            assert(location == location_of(cursor_position));
            assert(name@ == token_bytes(t, tok));
        }
        let no_ancestors: Vec<usize> = Vec::new();
        proof {
            assert(indices(no_ancestors@) =~= Seq::<int>::empty());
        }
        match self.find_definition_in(i, name, Some(location.line), &no_ancestors) {
            Some(found) => {
                let (f, def) = found;
                assert(self@.files[f as int].0 == self.files@[f as int].path@);
                Some(
                    CursorPosition {
                        file: self.files[f].path.as_str(),
                        line: def.location_in_file.line,
                        column: def.location_in_file.column,
                    },
                )
            },
            None => None,
        }
    }

    /// The completions at the cursor. In the command slot of a line these are
    /// the built-in commands `define`, `if`, `else` and `end`; elsewhere, and
    /// in a script that is not known, there are none. Commands that the
    /// scripts define are not offered yet.
    pub fn find_completions(&self, cursor_position: CursorPosition) -> (r: Completions)
        ensures
            completion_texts(r.built_in@) == if at_command_slot(
                self@,
                cursor_position.file@,
                location_of(cursor_position),
            ) {
                built_in_commands()
            } else {
                Seq::<Seq<char>>::empty()
            },
            r.user_provided@.len() == 0,
    {
        let i = match self.file_index(cursor_position.file) {
            Some(i) => i,
            None => {
                let r = Completions::default();
                proof {
                    assert(completion_texts(r.built_in@) =~= Seq::<Seq<char>>::empty());
                }
                return r;
            },
        };
        let script = self.files[i].text.as_str();
        assert(script.spec_bytes() == self@.files[i as int].1);
        match CompletionPosition::new(script, Location::from(cursor_position)) {
            Some(CompletionPosition::Command) => {
                let mut built_in: Vec<Completion> = Vec::new();
                built_in.push(Completion { text: String::from_str("define") });
                built_in.push(Completion { text: String::from_str("if") });
                built_in.push(Completion { text: String::from_str("else") });
                built_in.push(Completion { text: String::from_str("end") });
                proof {
                    assert(completion_texts(built_in@) =~= built_in_commands());
                }
                Completions { built_in, user_provided: Vec::new() }
            },
            _ => {
                let r = Completions::default();
                proof {
                    assert(completion_texts(r.built_in@) =~= Seq::<Seq<char>>::empty());
                }
                r
            },
        }
    }

    /// Finds where `name` is defined, searching from script `i`; see `resolve`.
    fn find_definition_in(
        &self,
        i: usize,
        name: &[u8],
        limit: Option<usize>,
        ancestors: &Vec<usize>,
    ) -> (r: Option<(usize, Token)>)
        ensures
            (match r {
                Some(found) => resolve(self@, i as int, name@, limit, indices(ancestors@)) == Some(
                    (found.0 as int, found.1),
                ) && found.0 < self@.files.len(),
                None => resolve(self@, i as int, name@, limit, indices(ancestors@)) is None,
            }),
        decreases self@.files.len() - ancestors@.len(),
    {
        if i >= self.files.len() || ancestors.len() >= self.files.len() || contains_index(
            ancestors,
            i,
        ) {
            return None;
        }
        let script = self.files[i].text.as_str();
        let ghost t = self@.files[i as int].1;
        assert(script.spec_bytes() == t);
        let bytes = script.as_bytes();
        let ms = marks(script);
        let mut k: usize = ms.len();
        proof {
            assert(ms@.subrange(0, k as int) =~= ms@);
        }
        while k > 0
            invariant
                k <= ms@.len(),
                bytes@ == t,
                i < self@.files.len(),
                t == self@.files[i as int].1,
                script.spec_bytes() == t,
                ms@ == script_marks(t),
                marks_fit(t, ms@),
                !indices(ancestors@).contains(i as int),
                ancestors@.len() < self@.files.len(),
                last_definition(t, ms@, name@, limit) == last_definition(
                    t,
                    ms@.subrange(0, k as int),
                    name@,
                    limit,
                ),
            decreases k,
        {
            proof {
                let pre = ms@.subrange(0, k as int);
                assert(pre.drop_last() =~= ms@.subrange(0, k - 1));
                assert(pre.last() == ms@[k - 1]);
            }
            match ms[k - 1] {
                Mark::Definition { define, identifier } => {
                    let before_limit = match limit {
                        Some(l) => define.location_in_file.line < l,
                        None => true,
                    };
                    if before_limit && token_is(bytes, &identifier, name) {
                        proof {
                            assert(last_definition(t, ms@.subrange(0, k as int), name@, limit)
                                == Some(identifier));
                        }
                        return Some((i, identifier));
                    }
                },
                Mark::Inclusion { .. } => {},
            }
            k = k - 1;
        }
        proof {
            assert(ms@.subrange(0, 0) =~= Seq::<Mark>::empty());
        }
        let paths = self.included_paths(script, &ms);
        let ghost ps = strings_view(paths@);
        let inner = pushed(ancestors, i);
        let mut j: usize = paths.len();
        while j > 0
            invariant
                j <= paths@.len(),
                ps == strings_view(paths@),
                indices(inner@) == indices(ancestors@).push(i as int),
                inner@.len() == ancestors@.len() + 1,
                ancestors@.len() < self@.files.len(),
                j <= ps.len(),
                resolve(self@, i as int, name@, limit, indices(ancestors@)) == resolve_included(
                    self@,
                    ps,
                    j as int,
                    name@,
                    indices(inner@),
                ),
            decreases j,
        {
            assert(ps[j - 1] == paths@[j - 1]@);
            match self.file_index(paths[j - 1].as_str()) {
                Some(f) => {
                    match self.find_definition_in(f, name, None, &inner) {
                        Some(found) => {
                            return Some(found);
                        },
                        None => {},
                    }
                },
                None => {},
            }
            j = j - 1;
        }
        None
    }

    /// The absolute paths that the inclusions among `ms` name, in order.
    fn included_paths(&self, text: &str, ms: &Vec<Mark>) -> (r: Vec<String>)
        requires
            marks_fit(text.spec_bytes(), ms@),
        ensures
            strings_view(r@) == included_paths(self@.project_root, text.spec_bytes(), ms@),
    {
        let ghost t = text.spec_bytes();
        let mut out: Vec<String> = Vec::new();
        let mut k: usize = 0;
        while k < ms.len()
            invariant
                k <= ms@.len(),
                t == text.spec_bytes(),
                marks_fit(t, ms@),
                strings_view(out@) == included_paths(
                    self@.project_root,
                    t,
                    ms@.subrange(0, k as int),
                ),
            decreases ms@.len() - k,
        {
            proof {
                let pre = ms@.subrange(0, k as int + 1);
                assert(pre.drop_last() =~= ms@.subrange(0, k as int));
                assert(pre.last() == ms@[k as int]);
            }
            match ms[k] {
                Mark::Inclusion { path } => {
                    assert(crate::parse::mark_fits(t, ms@[k as int]));
                    let s = path.text(text);
                    proof {
                        encode_utf8_decode_utf8(s@);
                    }
                    let p = self.canonicalize_path(s);
                    out.push(p);
                    proof {
                        assert(strings_view(out@) =~= included_paths(
                            self@.project_root,
                            t,
                            ms@.subrange(0, k as int + 1),
                        ));
                    }
                },
                Mark::Definition { .. } => {
                    proof {
                        assert(strings_view(out@) =~= included_paths(
                            self@.project_root,
                            t,
                            ms@.subrange(0, k as int + 1),
                        ));
                    }
                },
            }
            k = k + 1;
        }
        proof {
            assert(ms@.subrange(0, k as int) =~= ms@);
        }
        out
    }
}

} // verus!
