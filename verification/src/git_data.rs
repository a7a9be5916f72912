//! The state of one repository, and how the list of repositories and their
//! states is put in order for display.

use rayon::slice::ParallelSliceMut;
use vstd::prelude::*;

use crate::path::{
    are_components, is_closed, is_component, lemma_path_of_grows, path_of, spec_join, SEPARATOR,
};
use crate::walker::{lemma_names_are_components, lemma_repositories, WalkerView};
use crate::text::{
    chars_of, copy_range, is_sorted, is_strictly_sorted, lemma_lex_lt_common_prefix, lex_lt,
    starts_with, string_of, texts,
};

verus! {

/// What `git` said of one repository.
#[derive(Debug)]
pub struct GitData {
    pub status: String,
    pub diff: String,
}

/// The two questions asked of each repository.
#[derive(Debug, Clone, Copy, PartialEq, Eq, Structural)]
pub enum GitCmd {
    Status,
    Diff,
}

/// How one run of `git` ended.
#[derive(Debug)]
pub enum QueryOutcome {
    /// The program could not be started.
    NotLaunched,
    /// The program ran to its end.
    Finished { success: bool, stdout: String, stderr: String },
}

impl GitCmd {
    /// The arguments that `git` is run with. The diff is taken against the
    /// upstream of the current branch.
    pub fn args(&self) -> (out: Vec<&'static str>)
        ensures
            *self == GitCmd::Status ==> out@.len() == 1 && out@[0]@ == "status"@,
            *self == GitCmd::Diff ==> out@.len() == 2 && out@[0]@ == "diff"@ && out@[1]@
                == "@{upstream}"@,
    {
        match self {
            GitCmd::Status => vec!["status"],
            GitCmd::Diff => vec!["diff", "@{upstream}"],
        }
    }
}

impl QueryOutcome {
    /// The text that stands for this outcome: what the program wrote to its
    /// output where it reported success, what it wrote to its error stream
    /// where it reported failure, and nothing where it never ran.
    pub open spec fn spec_text(self) -> Seq<char> {
        match self {
            QueryOutcome::NotLaunched => Seq::empty(),
            QueryOutcome::Finished { success, stdout, stderr } => if success {
                stdout@
            } else {
                stderr@
            },
        }
    }

    /// The text that stands for this outcome.
    pub fn text(self) -> (out: String)
        ensures
            out@ == self.spec_text(),
    {
        match self {
            QueryOutcome::NotLaunched => String::new(),
            QueryOutcome::Finished { success, stdout, stderr } => if success {
                stdout
            } else {
                stderr
            },
        }
    }
}

impl GitData {
    /// The state of a repository, from the outcomes of its two queries. A
    /// query that could not run leaves its field empty.
    pub fn from_outcomes(status: QueryOutcome, diff: QueryOutcome) -> (out: GitData)
        ensures
            out.status@ == status.spec_text(),
            out.diff@ == diff.spec_text(),
    {
        GitData { status: status.text(), diff: diff.text() }
    }
}

/// `path` without `root` at its start; `path` itself where it does not begin with `root`.
pub open spec fn strip_root(root: Seq<char>, path: Seq<char>) -> Seq<char> {
    if root.is_prefix_of(path) {
        path.skip(root.len() as int)
    } else {
        path
    }
}

/// `s` without one separator at its start.
pub open spec fn trim_separator(s: Seq<char>) -> Seq<char> {
    if s.len() > 0 && s[0] == SEPARATOR {
        s.drop_first()
    } else {
        s
    }
}

/// The path under which a repository is shown: its path without the root
/// at its start, and then without one leading separator.
pub open spec fn spec_display_path(root: Seq<char>, path: Seq<char>) -> Seq<char> {
    trim_separator(strip_root(root, path))
}

/// The path under which the repository at `path` is shown.
pub fn display_path(root: &str, path: &str) -> (out: String)
    ensures
        out@ == spec_display_path(root@, path@),
{
    let root = chars_of(root);
    let path = chars_of(path);
    let mut from: usize = 0;
    if starts_with(path.as_slice(), root.as_slice()) {
        from = root.len();
    }
    proof {
        assert(strip_root(root@, path@) == path@.skip(from as int));
    }
    if from < path.len() && path[from] == SEPARATOR {
        proof {
            assert(path@.skip(from as int).drop_first() == path@.skip(from + 1));
        }
        from = from + 1;
    }
    let shown = copy_range(path.as_slice(), from, path.len());
    proof {
        assert(path@.subrange(from as int, path@.len() as int) == path@.skip(from as int));
    }
    string_of(shown.as_slice())
}

/// `par_sort_unstable` of rayon, on a slice of strings: it reorders the
/// slice so that no element is greater than the one after it, in the order
/// that std gives strings, which compares them character by character. It
/// adds and drops nothing.
#[verifier::external_body]
fn par_sort_unstable(paths: &mut Vec<String>)
    ensures
        is_sorted(texts(final(paths)@)),
        texts(final(paths)@).to_multiset() == texts(old(paths)@).to_multiset(),
{
    paths.par_sort_unstable();
}

/// The given paths in the order of strings.
pub fn sort_paths(paths: Vec<String>) -> (out: Vec<String>)
    ensures
        is_sorted(texts(out@)),
        texts(out@).to_multiset() == texts(paths@).to_multiset(),
{
    let mut out = paths;
    par_sort_unstable(&mut out);
    out
}

/// `out` pairs the shown path of each repository with its state, in the order given.
pub open spec fn is_assembly(
    out: Seq<(String, GitData)>,
    root: Seq<char>,
    paths: Seq<String>,
    states: Seq<GitData>,
) -> bool {
    &&& out.len() == paths.len()
    &&& forall|i: int|
        0 <= i < out.len() ==> {
            &&& (#[trigger] out[i]).0@ == spec_display_path(root, paths[i]@)
            &&& out[i].1.status@ == states[i].status@
            &&& out[i].1.diff@ == states[i].diff@
        }
}

/// Pairs each repository with its state: `states[i]` is the state of the
/// repository at `paths[i]`. Each repository is named by the path under
/// which it is shown. There is no result where the two lists differ in length.
pub fn assemble(root: &str, paths: &Vec<String>, states: Vec<GitData>) -> (out: Option<
    Vec<(String, GitData)>,
>)
    ensures
        out is Some <==> paths@.len() == states@.len(),
        out is Some ==> is_assembly(out->0@, root@, paths@, states@),
{
    if paths.len() != states.len() {
        return None;
    }
    let mut out: Vec<(String, GitData)> = Vec::new();
    for state in it: states
        invariant
            it.seq() == states@,
            states@.len() == paths@.len(),
            out@.len() == it.index(),
            forall|k: int|
                0 <= k < out@.len() ==> {
                    &&& (#[trigger] out@[k]).0@ == spec_display_path(root@, paths@[k]@)
                    &&& out@[k].1.status@ == states@[k].status@
                    &&& out@[k].1.diff@ == states@[k].diff@
                },
    {
        let shown = display_path(root, paths[out.len()].as_str());
        out.push((shown, state));
    }
    Some(out)
}

/// A path that is not empty and does not begin with a separator.
pub open spec fn is_relative(rel: Seq<char>) -> bool {
    rel.len() > 0 && rel[0] != SEPARATOR
}

/// `path` is `root` itself or a relative path joined to `root`.
pub open spec fn lies_under(root: Seq<char>, path: Seq<char>) -> bool {
    path == root || exists|rel: Seq<char>| is_relative(rel) && path == spec_join(root, rel)
}

/// The paths under which the repositories at `paths` are shown.
pub open spec fn display_paths(root: Seq<char>, paths: Seq<Seq<char>>) -> Seq<Seq<char>> {
    Seq::new(paths.len(), |i: int| spec_display_path(root, paths[i]))
}

/// A relative path joined to the root is shown as that relative path.
pub proof fn lemma_display_of_join(root: Seq<char>, rel: Seq<char>)
    requires
        is_relative(rel),
    ensures
        spec_display_path(root, spec_join(root, rel)) == rel,
{
    let path = spec_join(root, rel);
    assert(root.is_prefix_of(path));
    if root.len() == 0 || root.last() == SEPARATOR {
        assert(path.skip(root.len() as int) == rel);
    } else {
        let rest = path.skip(root.len() as int);
        assert(rest == seq![SEPARATOR] + rel);
        assert(rest.drop_first() == rel);
    }
}

/// The root itself is shown as the empty path.
pub proof fn lemma_display_of_root(root: Seq<char>)
    ensures
        spec_display_path(root, root) == Seq::<char>::empty(),
{
    assert(root.is_prefix_of(root));
    assert(root.skip(root.len() as int) == Seq::<char>::empty());
}

/// Of two different paths under the root, the one that sorts first is also
/// shown under the path that sorts first.
proof fn lemma_display_keeps_order(root: Seq<char>, a: Seq<char>, b: Seq<char>)
    requires
        lies_under(root, a),
        lies_under(root, b),
        lex_lt(a, b),
    ensures
        lex_lt(spec_display_path(root, a), spec_display_path(root, b)),
{
    let sep = if root.len() == 0 || root.last() == SEPARATOR {
        root
    } else {
        root.push(SEPARATOR)
    };
    let none = Seq::<char>::empty();
    assert(root + none == root);
    if a == root {
        lemma_display_of_root(root);
        if b == root {
            crate::text::lemma_lex_lt_irreflexive(root);
        } else {
            let rel = choose|rel: Seq<char>| is_relative(rel) && b == spec_join(root, rel);
            lemma_display_of_join(root, rel);
        }
    } else {
        let rel_a = choose|rel: Seq<char>| is_relative(rel) && a == spec_join(root, rel);
        lemma_display_of_join(root, rel_a);
        assert(a == sep + rel_a);
        if b == root {
            if root.len() == 0 || root.last() == SEPARATOR {
                lemma_lex_lt_common_prefix(root, rel_a, none);
            } else {
                assert(a == root + (seq![SEPARATOR] + rel_a));
                lemma_lex_lt_common_prefix(root, seq![SEPARATOR] + rel_a, none);
            }
        } else {
            let rel_b = choose|rel: Seq<char>| is_relative(rel) && b == spec_join(root, rel);
            lemma_display_of_join(root, rel_b);
            assert(b == sep + rel_b);
            lemma_lex_lt_common_prefix(sep, rel_a, rel_b);
        }
    }
}

/// Whatever order a set of paths under the root is given in, once sorted
/// the paths under which its repositories are shown stand in strictly
/// ascending order.
pub proof fn lemma_display_paths_strictly_sorted(
    root: Seq<char>,
    given: Seq<Seq<char>>,
    sorted: Seq<Seq<char>>,
)
    requires
        given.no_duplicates(),
        forall|i: int| 0 <= i < given.len() ==> lies_under(root, #[trigger] given[i]),
        is_sorted(sorted),
        sorted.to_multiset() == given.to_multiset(),
    ensures
        is_strictly_sorted(display_paths(root, sorted)),
{
    given.to_multiset_ensures();
    sorted.to_multiset_ensures();
    given.lemma_multiset_has_no_duplicates();
    sorted.lemma_multiset_has_no_duplicates_conv();
    let shown = display_paths(root, sorted);
    assert forall|i: int, j: int| 0 <= i < j < shown.len() implies lex_lt(
        #[trigger] shown[i],
        #[trigger] shown[j],
    ) by {
        assert(sorted.contains(sorted[i]));
        assert(sorted.contains(sorted[j]));
        assert(sorted.to_multiset().count(sorted[i]) > 0);
        assert(sorted.to_multiset().count(sorted[j]) > 0);
        assert(given.to_multiset().count(sorted[i]) > 0);
        assert(given.to_multiset().count(sorted[j]) > 0);
        assert(given.contains(sorted[i]));
        assert(given.contains(sorted[j]));
        assert(crate::text::lex_le(sorted[i], sorted[j]));
        lemma_display_keeps_order(root, sorted[i], sorted[j]);
    }
}

/// To go down from the root by names is to join a relative path to the
/// root: the path that the same names lead to from the first of them.
pub proof fn lemma_path_of_is_join(root: Seq<char>, first: Seq<char>, then: Seq<Seq<char>>)
    requires
        is_component(first),
        are_components(then),
    ensures
        path_of(spec_join(root, first), then) == spec_join(root, path_of(first, then)),
        is_relative(path_of(first, then)),
        !is_closed(path_of(first, then)),
    decreases then.len(),
{
    assert(first.contains(first[0]));
    assert(first.contains(first.last()));
    if then.len() == 0 {
    } else {
        let name = then.last();
        let before = then.drop_last();
        assert(is_component(name));
        lemma_path_of_is_join(root, first, before);
        let rel = path_of(first, before);
        let path = spec_join(root, rel);
        assert(path.last() == rel.last());
        assert(spec_join(path, name) =~= spec_join(root, spec_join(rel, name)));
        assert(spec_join(rel, name)[0] == rel[0]);
        assert(name.contains(name.last()));
    }
}

/// Every directory that names lead to from the root lies under the root.
pub proof fn lemma_path_of_lies_under(root: Seq<char>, names: Seq<Seq<char>>)
    requires
        are_components(names),
    ensures
        lies_under(root, path_of(root, names)),
{
    if names.len() > 0 {
        let first = names[0];
        let then = names.skip(1);
        assert(is_component(first));
        assert forall|k: int| 0 <= k < then.len() implies is_component(#[trigger] then[k]) by {
            assert(then[k] == names[k + 1]);
        }
        let one = seq![first];
        assert(one.drop_last() == Seq::<Seq<char>>::empty());
        assert(one.last() == first);
        assert(path_of(root, one.drop_last()) == root);
        assert(path_of(root, one) == spec_join(root, first));
        crate::path::lemma_path_of_concat(root, one, then);
        assert(one + then == names);
        lemma_path_of_is_join(root, first, then);
        let rel = path_of(first, then);
        assert(is_relative(rel) && path_of(root, names) == spec_join(root, rel));
    }
}

/// The repositories that a walk finds, once sorted, are shown under paths
/// in strictly ascending order.
pub proof fn lemma_walk_is_shown_in_order(v: WalkerView, sorted: Seq<Seq<char>>)
    requires
        v.wf(),
        is_sorted(sorted),
        sorted.to_multiset() == v.repositories().to_multiset(),
    ensures
        is_strictly_sorted(display_paths(v.root(), sorted)),
{
    let found = v.repositories();
    lemma_repositories(v);
    assert forall|k: int| 0 <= k < found.len() implies lies_under(v.root(), #[trigger] found[k]) by {
        assert(found.contains(found[k]));
        let i = choose|i: int|
            0 <= i < v.paths.len() && v.stages[i] is Repository && #[trigger] v.paths[i]
                == found[k];
        lemma_names_are_components(v, i);
        lemma_path_of_lies_under(v.root(), v.names[i]);
    }
    lemma_display_paths_strictly_sorted(v.root(), found, sorted);
}

} // verus!
