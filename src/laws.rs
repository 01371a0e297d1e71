//! Properties of definition lookup and of `source` handling that relate the
//! queries to one another, stated over the model of the index.
use vstd::prelude::*;

use crate::lexer::{token_bytes, token_under_cursor, Location};
use crate::parse::{script_marks, Mark};
use crate::paths::same_path;
use crate::semantics::{
    canonical, defines, definition_of, find_file, find_file_from, included_paths,
    last_definition, paths_unique, pending_paths, resolve, resolve_included, token_path,
    unresolved_paths, with_file, SemanticsModel,
};

verus! {

/// The identifier under the cursor at `location` in the script at index `a`.
pub open spec fn name_under_cursor(m: SemanticsModel, a: int, location: Location) -> Seq<u8> {
    token_bytes(m.files[a].1, token_under_cursor(m.files[a].1, location)->0)
}

proof fn lemma_last_qualifying(t: Seq<u8>, ms: Seq<Mark>, name: Seq<u8>, limit: Option<usize>, k: int)
    requires
        0 <= k < ms.len(),
        defines(t, ms[k], name, limit),
        forall|j: int| k < j < ms.len() ==> !defines(t, #[trigger] ms[j], name, limit),
    ensures
        last_definition(t, ms, name, limit) == Some(ms[k]->identifier),
    decreases ms.len(),
{
    if k < ms.len() - 1 {
        assert(!defines(t, ms[ms.len() - 1], name, limit));
        lemma_last_qualifying(t, ms.drop_last(), name, limit, k);
    }
}

proof fn lemma_none_qualifying(t: Seq<u8>, ms: Seq<Mark>, name: Seq<u8>, limit: Option<usize>)
    requires
        forall|j: int| 0 <= j < ms.len() ==> !defines(t, #[trigger] ms[j], name, limit),
    ensures
        last_definition(t, ms, name, limit) is None,
    decreases ms.len(),
{
    if ms.len() > 0 {
        assert(!defines(t, ms[ms.len() - 1], name, limit));
        lemma_none_qualifying(t, ms.drop_last(), name, limit);
    }
}

proof fn lemma_some_qualifying(t: Seq<u8>, ms: Seq<Mark>, name: Seq<u8>, limit: Option<usize>, k: int)
    requires
        0 <= k < ms.len(),
        defines(t, ms[k], name, limit),
    ensures
        last_definition(t, ms, name, limit) is Some,
    decreases ms.len(),
{
    if k < ms.len() - 1 && !defines(t, ms[ms.len() - 1], name, limit) {
        lemma_some_qualifying(t, ms.drop_last(), name, limit, k);
    }
}

proof fn lemma_no_inclusions(root: Seq<char>, t: Seq<u8>, ms: Seq<Mark>)
    requires
        forall|j: int| 0 <= j < ms.len() ==> (#[trigger] ms[j]) is Definition,
    ensures
        included_paths(root, t, ms).len() == 0,
    decreases ms.len(),
{
    if ms.len() > 0 {
        assert(ms[ms.len() - 1] is Definition);
        lemma_no_inclusions(root, t, ms.drop_last());
    }
}

proof fn lemma_one_inclusion(root: Seq<char>, t: Seq<u8>, ms: Seq<Mark>, k: int)
    requires
        0 <= k < ms.len(),
        ms[k] is Inclusion,
        forall|j: int| 0 <= j < ms.len() && j != k ==> (#[trigger] ms[j]) is Definition,
    ensures
        included_paths(root, t, ms) == seq![canonical(root, token_path(t, ms[k]->path))],
    decreases ms.len(),
{
    if k < ms.len() - 1 {
        assert(ms[ms.len() - 1] is Definition);
        lemma_one_inclusion(root, t, ms.drop_last(), k);
    } else {
        lemma_no_inclusions(root, t, ms.drop_last());
        assert(included_paths(root, t, ms.drop_last()) =~= Seq::<Seq<char>>::empty());
    }
}

proof fn lemma_find_unique(files: Seq<(Seq<char>, Seq<u8>)>, b: int, i: int)
    requires
        paths_unique(files),
        0 <= i <= b < files.len(),
    ensures
        find_file_from(files, files[b].0, i) == Some(b),
    decreases b - i,
{
    if i < b {
        assert(!same_path(files[i].0, files[b].0));
        lemma_find_unique(files, b, i + 1);
    }
}

/// A definition before its use is found: where the script holds one
/// definition of the name under the cursor (nested ones included) whose
/// `define` stands on a line before the cursor's, and no other such, the
/// lookup gives that definition's identifier, in the same script.
/// Definitions of the name on later lines make no difference.
pub proof fn definition_before_use_is_found(m: SemanticsModel, file: Seq<char>, location: Location, k: int)
    requires
        find_file(m.files, file) is Some,
        token_under_cursor(m.files[find_file(m.files, file)->0].1, location) is Some,
        0 <= k < script_marks(m.files[find_file(m.files, file)->0].1).len(),
        defines(
            m.files[find_file(m.files, file)->0].1,
            script_marks(m.files[find_file(m.files, file)->0].1)[k],
            name_under_cursor(m, find_file(m.files, file)->0, location),
            Some(location.line),
        ),
        forall|j: int|
            0 <= j < script_marks(m.files[find_file(m.files, file)->0].1).len() && j != k ==> !defines(
                m.files[find_file(m.files, file)->0].1,
                #[trigger] script_marks(m.files[find_file(m.files, file)->0].1)[j],
                name_under_cursor(m, find_file(m.files, file)->0, location),
                Some(location.line),
            ),
    ensures
        definition_of(m, file, location) == Some(
            (
                find_file(m.files, file)->0,
                script_marks(m.files[find_file(m.files, file)->0].1)[k]->identifier,
            ),
        ),
{
    let a = find_file(m.files, file)->0;
    crate::semantics::lemma_find_file(m.files, file, 0);
    let t = m.files[a].1;
    let ms = script_marks(t);
    let name = name_under_cursor(m, a, location);
    lemma_last_qualifying(t, ms, name, Some(location.line), k);
    assert(!Seq::<int>::empty().contains(a));
}

/// The most recent definition wins: where the script holds two definitions
/// of the name under the cursor, both on lines before the cursor's, and no
/// other such, the lookup gives the identifier of the second.
pub proof fn most_recent_definition_wins(
    m: SemanticsModel,
    file: Seq<char>,
    location: Location,
    k1: int,
    k2: int,
)
    requires
        find_file(m.files, file) is Some,
        token_under_cursor(m.files[find_file(m.files, file)->0].1, location) is Some,
        0 <= k1 < k2 < script_marks(m.files[find_file(m.files, file)->0].1).len(),
        defines(
            m.files[find_file(m.files, file)->0].1,
            script_marks(m.files[find_file(m.files, file)->0].1)[k1],
            name_under_cursor(m, find_file(m.files, file)->0, location),
            Some(location.line),
        ),
        defines(
            m.files[find_file(m.files, file)->0].1,
            script_marks(m.files[find_file(m.files, file)->0].1)[k2],
            name_under_cursor(m, find_file(m.files, file)->0, location),
            Some(location.line),
        ),
        forall|j: int|
            0 <= j < script_marks(m.files[find_file(m.files, file)->0].1).len() && j != k1 && j
                != k2 ==> !defines(
                m.files[find_file(m.files, file)->0].1,
                #[trigger] script_marks(m.files[find_file(m.files, file)->0].1)[j],
                name_under_cursor(m, find_file(m.files, file)->0, location),
                Some(location.line),
            ),
    ensures
        definition_of(m, file, location) == Some(
            (
                find_file(m.files, file)->0,
                script_marks(m.files[find_file(m.files, file)->0].1)[k2]->identifier,
            ),
        ),
{
    let a = find_file(m.files, file)->0;
    crate::semantics::lemma_find_file(m.files, file, 0);
    let t = m.files[a].1;
    let ms = script_marks(t);
    let name = name_under_cursor(m, a, location);
    lemma_last_qualifying(t, ms, name, Some(location.line), k2);
    assert(!Seq::<int>::empty().contains(a));
}

/// No forward references: where every definition in the script of the name
/// under the cursor stands on the cursor's line or below it, and the script
/// includes no other script, the lookup finds nothing.
pub proof fn no_forward_references(m: SemanticsModel, file: Seq<char>, location: Location)
    requires
        find_file(m.files, file) is Some,
        token_under_cursor(m.files[find_file(m.files, file)->0].1, location) is Some,
        forall|j: int|
            0 <= j < script_marks(m.files[find_file(m.files, file)->0].1).len() ==> (
            #[trigger] script_marks(m.files[find_file(m.files, file)->0].1)[j]) is Definition,
        forall|j: int|
            0 <= j < script_marks(m.files[find_file(m.files, file)->0].1).len() ==> (defines(
                m.files[find_file(m.files, file)->0].1,
                #[trigger] script_marks(m.files[find_file(m.files, file)->0].1)[j],
                name_under_cursor(m, find_file(m.files, file)->0, location),
                None,
            ) ==> script_marks(m.files[find_file(m.files, file)->0].1)[j]->define.location_in_file.line
                >= location.line),
    ensures
        definition_of(m, file, location) is None,
{
    let a = find_file(m.files, file)->0;
    crate::semantics::lemma_find_file(m.files, file, 0);
    let t = m.files[a].1;
    let ms = script_marks(t);
    let name = name_under_cursor(m, a, location);
    assert forall|j: int| 0 <= j < ms.len() implies !defines(t, #[trigger] ms[j], name, Some(location.line)) by {
        if defines(t, ms[j], name, Some(location.line)) {
            assert(defines(t, ms[j], name, None));
        }
    }
    lemma_none_qualifying(t, ms, name, Some(location.line));
    lemma_no_inclusions(m.project_root, t, ms);
    assert(!Seq::<int>::empty().contains(a));
}

/// A definition in an included script is found: where script A holds no
/// definition of the name under the cursor before the cursor's line, and its
/// only inclusion names script B, which defines the name on any line, the
/// lookup resolves into B: to the last definition of the name there. This
/// holds wherever in A the `source` line stands.
pub proof fn definition_in_included_script_is_found(
    m: SemanticsModel,
    file: Seq<char>,
    location: Location,
    k: int,
    b: int,
    kb: int,
)
    requires
        paths_unique(m.files),
        find_file(m.files, file) is Some,
        0 <= b < m.files.len(),
        find_file(m.files, file)->0 != b,
        token_under_cursor(m.files[find_file(m.files, file)->0].1, location) is Some,
        forall|j: int|
            0 <= j < script_marks(m.files[find_file(m.files, file)->0].1).len() ==> !defines(
                m.files[find_file(m.files, file)->0].1,
                #[trigger] script_marks(m.files[find_file(m.files, file)->0].1)[j],
                name_under_cursor(m, find_file(m.files, file)->0, location),
                Some(location.line),
            ),
        0 <= k < script_marks(m.files[find_file(m.files, file)->0].1).len(),
        script_marks(m.files[find_file(m.files, file)->0].1)[k] is Inclusion,
        forall|j: int|
            0 <= j < script_marks(m.files[find_file(m.files, file)->0].1).len() && j != k ==> (
            #[trigger] script_marks(m.files[find_file(m.files, file)->0].1)[j]) is Definition,
        canonical(
            m.project_root,
            token_path(
                m.files[find_file(m.files, file)->0].1,
                script_marks(m.files[find_file(m.files, file)->0].1)[k]->path,
            ),
        ) == m.files[b].0,
        0 <= kb < script_marks(m.files[b].1).len(),
        defines(
            m.files[b].1,
            script_marks(m.files[b].1)[kb],
            name_under_cursor(m, find_file(m.files, file)->0, location),
            None,
        ),
    ensures
        definition_of(m, file, location) is Some,
        definition_of(m, file, location) == Some(
            (
                b,
                last_definition(
                    m.files[b].1,
                    script_marks(m.files[b].1),
                    name_under_cursor(m, find_file(m.files, file)->0, location),
                    None,
                )->0,
            ),
        ),
{
    let a = find_file(m.files, file)->0;
    crate::semantics::lemma_find_file(m.files, file, 0);
    let t = m.files[a].1;
    let ms = script_marks(t);
    let name = name_under_cursor(m, a, location);
    lemma_none_qualifying(t, ms, name, Some(location.line));
    lemma_one_inclusion(m.project_root, t, ms, k);
    let ps = included_paths(m.project_root, t, ms);
    lemma_find_unique(m.files, b, 0);
    assert(ps[0] == m.files[b].0);
    let inner = Seq::<int>::empty().push(a);
    assert(!Seq::<int>::empty().contains(a));
    assert(!inner.contains(b)) by {
        assert(inner[0] == a);
    }
    let tb = m.files[b].1;
    lemma_some_qualifying(tb, script_marks(tb), name, None, kb);
    assert(resolve(m, b, name, None, inner) is Some);
    assert(resolve_included(m, ps, 1, name, inner) == resolve(m, b, name, None, inner));
}

/// An included script that is not known is asked for: where the only
/// inclusion of text `t` names path `x` (made absolute) and no known script
/// has that path, setting `t` asks for exactly `x`.
pub proof fn unknown_inclusion_is_requested(m: SemanticsModel, t: Seq<u8>, k: int)
    requires
        0 <= k < script_marks(t).len(),
        script_marks(t)[k] is Inclusion,
        forall|j: int| 0 <= j < script_marks(t).len() && j != k ==> (#[trigger] script_marks(t)[j]) is Definition,
        find_file(m.files, canonical(m.project_root, token_path(t, script_marks(t)[k]->path))) is None,
    ensures
        unresolved_paths(m, t) == seq![canonical(m.project_root, token_path(t, script_marks(t)[k]->path))],
{
    lemma_one_inclusion(m.project_root, t, script_marks(t), k);
    let x = canonical(m.project_root, token_path(t, script_marks(t)[k]->path));
    let none = Seq::<Seq<char>>::empty();
    assert(seq![x].drop_last() =~= none);
    assert(pending_paths(m.files, none) == none);
    assert(!none.contains(x));
    assert(pending_paths(m.files, seq![x]) == none.push(x));
    assert(none.push(x) =~= seq![x]);
}

/// A known script is not asked for again: where the only inclusion of text
/// `t` names path `x`, and `x` has been set before (so that the scripts are
/// `with_file(files, x, text)`), setting `t` asks for nothing.
pub proof fn loaded_inclusion_is_not_requested(m: SemanticsModel, t: Seq<u8>, k: int, text: Seq<u8>)
    requires
        0 <= k < script_marks(t).len(),
        script_marks(t)[k] is Inclusion,
        forall|j: int| 0 <= j < script_marks(t).len() && j != k ==> (#[trigger] script_marks(t)[j]) is Definition,
    ensures
        unresolved_paths(
            SemanticsModel {
                project_root: m.project_root,
                files: with_file(
                    m.files,
                    canonical(m.project_root, token_path(t, script_marks(t)[k]->path)),
                    text,
                ),
            },
            t,
        ).len() == 0,
{
    let x = canonical(m.project_root, token_path(t, script_marks(t)[k]->path));
    lemma_one_inclusion(m.project_root, t, script_marks(t), k);
    let files = with_file(m.files, x, text);
    crate::semantics::lemma_find_file(m.files, x, 0);
    match find_file(m.files, x) {
        Some(i) => {
            assert(same_path(files[i].0, x));
            lemma_first_match(files, x, i, 0);
        },
        None => {
            assert(files[m.files.len() as int].0 == x);
            lemma_first_match(files, x, m.files.len() as int, 0);
        },
    }
    let none = Seq::<Seq<char>>::empty();
    assert(seq![x].drop_last() =~= none);
    assert(pending_paths(files, none) == none);
    assert(pending_paths(files, seq![x]) == none);
}

proof fn lemma_first_match(files: Seq<(Seq<char>, Seq<u8>)>, p: Seq<char>, b: int, i: int)
    requires
        0 <= i <= b < files.len(),
        same_path(files[b].0, p),
    ensures
        find_file_from(files, p, i) is Some,
    decreases b - i,
{
    if i < b && !same_path(files[i].0, p) {
        lemma_first_match(files, p, b, i + 1);
    }
}

/// A relative `source` path is resolved against the project root: the
/// absolute path starts with the root and ends with the path as written.
pub proof fn relative_path_joins_root(root: Seq<char>, p: Seq<char>)
    requires
        p.len() == 0 || p[0] != '/',
    ensures
        canonical(root, p).subrange(0, root.len() as int) == root,
        canonical(root, p).subrange(canonical(root, p).len() - p.len(), canonical(root, p).len() as int)
            == p,
{
    let c = canonical(root, p);
    assert(c.subrange(0, root.len() as int) =~= root);
    assert(c.subrange(c.len() - p.len(), c.len() as int) =~= p);
}

} // verus!
