//! Paths as strings: joining a directory and a name, and finding the
//! directory that a run starts from.

use vstd::prelude::*;

use crate::text::{
    append_chars, chars_of, copy_range, find_from, first_or_len, opt_text, string_of,
};

verus! {

/// The character that separates the components of a path.
pub const SEPARATOR: char = '/';

/// Why no directory to start from was found.
#[derive(Debug, Clone, Copy, PartialEq, Eq, Structural)]
pub enum RootError {
    /// Neither a path nor a default path was given.
    NoBasePath,
    /// The path begins with `~` and the home directory is not known.
    NoHomeDirectory,
}

impl RootError {
    /// What the user is told.
    pub fn message(&self) -> (out: &'static str)
        ensures
            *self == RootError::NoBasePath ==> out@
                == "Add FUZZIT_BASE_PATH to your environment (ex: ~/.zshrc) or use FUZZIT_PATH before command"@,
            *self == RootError::NoHomeDirectory ==> out@
                == "Home directory could not be determined, please use full path for FUZZIT_BASE_PATH or FUZZIT_PATH"@,
    {
        match self {
            RootError::NoBasePath => {
                "Add FUZZIT_BASE_PATH to your environment (ex: ~/.zshrc) or use FUZZIT_PATH before command"
            },
            RootError::NoHomeDirectory => {
                "Home directory could not be determined, please use full path for FUZZIT_BASE_PATH or FUZZIT_PATH"
            },
        }
    }
}

/// `name` under `dir`: a separator stands between the two unless `dir` is
/// empty or ends in one.
pub open spec fn spec_join(dir: Seq<char>, name: Seq<char>) -> Seq<char> {
    if dir.len() == 0 || dir.last() == SEPARATOR {
        dir + name
    } else {
        dir.push(SEPARATOR) + name
    }
}

/// A name that can stand for one entry of a directory: it is not empty and
/// holds no separator.
pub open spec fn is_component(name: Seq<char>) -> bool {
    name.len() > 0 && !name.contains(SEPARATOR)
}

/// The path reached from `root` by the given names, one directory down for each.
pub open spec fn path_of(root: Seq<char>, names: Seq<Seq<char>>) -> Seq<char>
    decreases names.len(),
{
    if names.len() == 0 {
        root
    } else {
        spec_join(path_of(root, names.drop_last()), names.last())
    }
}

/// Every one of the names is a component.
pub open spec fn are_components(names: Seq<Seq<char>>) -> bool {
    forall|k: int| 0 <= k < names.len() ==> is_component(#[trigger] names[k])
}

/// `below` is a directory under `above`, at any depth: names lead from
/// `above` down to it.
pub open spec fn is_inside(above: Seq<char>, below: Seq<char>) -> bool {
    exists|names: Seq<Seq<char>>|
        names.len() > 0 && are_components(names) && below == #[trigger] path_of(above, names)
}

/// A path that is empty or ends in a separator: a name joined to it follows at once.
pub open spec fn is_closed(path: Seq<char>) -> bool {
    path.len() == 0 || path.last() == SEPARATOR
}

/// Names that lead down from a path lead to a longer one, which ends in no separator.
pub proof fn lemma_path_of_grows(root: Seq<char>, names: Seq<Seq<char>>)
    requires
        are_components(names),
    ensures
        path_of(root, names).len() >= root.len(),
        names.len() > 0 ==> path_of(root, names).len() > root.len() && !is_closed(
            path_of(root, names),
        ),
    decreases names.len(),
{
    if names.len() > 0 {
        let name = names.last();
        assert(is_component(name));
        lemma_path_of_grows(root, names.drop_last());
        let parent = path_of(root, names.drop_last());
        let path = spec_join(parent, name);
        assert(path.last() == name.last());
        assert(name.contains(name.last()));
    }
}

/// To go down by some names and then by others is to go down by all of them in turn.
pub proof fn lemma_path_of_concat(root: Seq<char>, first: Seq<Seq<char>>, then: Seq<Seq<char>>)
    ensures
        path_of(path_of(root, first), then) == path_of(root, first + then),
    decreases then.len(),
{
    if then.len() == 0 {
        assert(first + then == first);
    } else {
        lemma_path_of_concat(root, first, then.drop_last());
        assert((first + then).drop_last() == first + then.drop_last());
        assert((first + then).last() == then.last());
    }
}

/// A path that ends in a name is cut into what stands before the name and
/// the name in one way only.
proof fn lemma_split_once(a: Seq<char>, x: Seq<char>, b: Seq<char>, y: Seq<char>)
    requires
        is_closed(a),
        is_closed(b),
        !x.contains(SEPARATOR),
        !y.contains(SEPARATOR),
        a + x == b + y,
    ensures
        a == b,
        x == y,
{
    let whole = a + x;
    assert(whole.len() == a.len() + x.len());
    assert(whole.len() == b.len() + y.len());
    if a.len() < b.len() {
        let at = b.len() - 1;
        let inner = at - a.len();
        assert(0 <= inner < x.len());
        assert(whole[at] == x[inner]);
        assert((b + y)[at] == b[at]);
        assert(x[inner] == SEPARATOR);
        assert(x.contains(SEPARATOR));
    }
    if b.len() < a.len() {
        let at = a.len() - 1;
        let inner = at - b.len();
        assert(0 <= inner < y.len());
        assert((b + y)[at] == y[inner]);
        assert(whole[at] == a[at]);
        assert(y[inner] == SEPARATOR);
        assert(y.contains(SEPARATOR));
    }
    assert(a == whole.take(a.len() as int));
    assert(b == (b + y).take(b.len() as int));
    assert(x == whole.skip(a.len() as int));
    assert(y == (b + y).skip(b.len() as int));
}

/// What stands before the name in a joined path.
spec fn lead(dir: Seq<char>) -> Seq<char> {
    if is_closed(dir) {
        dir
    } else {
        dir.push(SEPARATOR)
    }
}

/// From one root, different names lead to different paths.
pub proof fn lemma_path_of_injective(root: Seq<char>, a: Seq<Seq<char>>, b: Seq<Seq<char>>)
    requires
        are_components(a),
        are_components(b),
        path_of(root, a) == path_of(root, b),
    ensures
        a == b,
    decreases a.len() + b.len(),
{
    lemma_path_of_grows(root, a);
    lemma_path_of_grows(root, b);
    if a.len() == 0 || b.len() == 0 {
        assert(a.len() == 0 && b.len() == 0);
        assert(a =~= b);
    } else {
        let pa = path_of(root, a.drop_last());
        let pb = path_of(root, b.drop_last());
        assert(is_component(a.last()));
        assert(is_component(b.last()));
        assert(path_of(root, a) == lead(pa) + a.last());
        assert(path_of(root, b) == lead(pb) + b.last());
        lemma_split_once(lead(pa), a.last(), lead(pb), b.last());
        lemma_path_of_grows(root, a.drop_last());
        lemma_path_of_grows(root, b.drop_last());
        if is_closed(pa) && !is_closed(pb) {
            assert(pa.len() == pb.len() + 1);
            assert(a.drop_last().len() == 0);
        } else if !is_closed(pa) && is_closed(pb) {
            assert(pb.len() == pa.len() + 1);
            assert(b.drop_last().len() == 0);
        } else if !is_closed(pa) {
            assert(pa == lead(pa).drop_last());
            assert(pb == lead(pb).drop_last());
        }
        assert(pa == pb);
        lemma_path_of_injective(root, a.drop_last(), b.drop_last());
        assert(a == a.drop_last().push(a.last()));
        assert(b == b.drop_last().push(b.last()));
    }
}

/// The path begins with the component `~`.
pub open spec fn has_home_prefix(path: Seq<char>) -> bool {
    path.len() >= 1 && path[0] == '~' && (path.len() == 1 || path[1] == SEPARATOR)
}

/// `dir` with the components of `rest` joined to it one by one. The
/// components of `rest` are what its separators part; empty ones and `.`
/// are left out.
pub open spec fn append_components(dir: Seq<char>, rest: Seq<char>) -> Seq<char>
    decreases rest.len(),
{
    if rest.len() == 0 {
        dir
    } else {
        let end = first_or_len(rest, SEPARATOR);
        let name = rest.take(end as int);
        let next = if name.len() == 0 || name == seq!['.'] {
            dir
        } else {
            spec_join(dir, name)
        };
        if end >= rest.len() {
            next
        } else {
            append_components(next, rest.skip(end as int + 1))
        }
    }
}

/// The directory that `path` names once a leading `~` has given way to the
/// home directory. A path that does not begin with the component `~` names
/// itself.
pub open spec fn spec_expand_home(path: Seq<char>, home: Option<Seq<char>>) -> Result<
    Seq<char>,
    RootError,
> {
    if has_home_prefix(path) {
        match home {
            Some(home) => Ok(append_components(home, path.skip(1))),
            None => Err(RootError::NoHomeDirectory),
        }
    } else {
        Ok(path)
    }
}

/// The path that was given: the explicit one before the default one.
pub open spec fn spec_base_path(
    fuzzit_path: Option<Seq<char>>,
    fuzzit_base_path: Option<Seq<char>>,
) -> Result<Seq<char>, RootError> {
    match fuzzit_path {
        Some(path) => Ok(path),
        None => match fuzzit_base_path {
            Some(path) => Ok(path),
            None => Err(RootError::NoBasePath),
        },
    }
}

/// The contents of a string or the error in its place.
pub open spec fn res_text(r: Result<String, RootError>) -> Result<Seq<char>, RootError> {
    match r {
        Ok(s) => Ok(s@),
        Err(e) => Err(e),
    }
}

/// Appends `name` to the path in `dir`.
pub fn push_component(dir: &mut Vec<char>, name: &[char])
    ensures
        final(dir)@ == spec_join(old(dir)@, name@),
{
    if dir.len() > 0 && dir[dir.len() - 1] != SEPARATOR {
        dir.push(SEPARATOR);
    }
    append_chars(dir, name);
}

/// The path of `name` under `dir`.
pub fn join(dir: &str, name: &str) -> (out: String)
    ensures
        out@ == spec_join(dir@, name@),
{
    let mut path = chars_of(dir);
    let name = chars_of(name);
    push_component(&mut path, name.as_slice());
    string_of(path.as_slice())
}

/// The path that was given: the explicit one before the default one.
pub fn resolve_base_path(fuzzit_path: Option<String>, fuzzit_base_path: Option<String>) -> (out:
    Result<String, RootError>)
    ensures
        res_text(out) == spec_base_path(opt_text(fuzzit_path), opt_text(fuzzit_base_path)),
{
    match fuzzit_path {
        Some(path) => Ok(path),
        None => match fuzzit_base_path {
            Some(path) => Ok(path),
            None => Err(RootError::NoBasePath),
        },
    }
}

/// Whether the path begins with the component `~`.
pub fn begins_at_home(path: &[char]) -> (yes: bool)
    ensures
        yes == has_home_prefix(path@),
{
    path.len() >= 1 && path[0] == '~' && (path.len() == 1 || path[1] == SEPARATOR)
}

/// The directory that `path` names, given the home directory.
pub fn expand_home(path: &str, home: Option<String>) -> (out: Result<String, RootError>)
    ensures
        res_text(out) == spec_expand_home(path@, opt_text(home)),
{
    let chars = chars_of(path);
    if !begins_at_home(chars.as_slice()) {
        return Ok(string_of(chars.as_slice()));
    }
    let home = match home {
        Some(home) => home,
        None => {
            return Err(RootError::NoHomeDirectory);
        },
    };
    let mut dir = chars_of(home.as_str());
    let mut from: usize = 1;
    proof {
        assert(chars@.skip(1).len() == chars@.len() - 1);
    }
    while from < chars.len()
        invariant
            1 <= from <= chars.len(),
            append_components(home@, chars@.skip(1)) == append_components(
                dir@,
                chars@.skip(from as int),
            ),
        decreases chars.len() - from,
    {
        let end = find_from(chars.as_slice(), from, SEPARATOR);
        let ghost rest = chars@.skip(from as int);
        let ghost before = dir@;
        let name = copy_range(chars.as_slice(), from, end);
        proof {
            assert(rest.take(end - from) == chars@.subrange(from as int, end as int));
        }
        if name.len() > 0 && !(name.len() == 1 && name[0] == '.') {
            push_component(&mut dir, name.as_slice());
        } else {
            proof {
                if name@.len() == 1 {
                    assert(name@ == seq!['.']);
                }
            }
        }
        proof {
            if name@ == seq!['.'] {
                assert(name@.len() == 1 && name@[0] == '.');
            }
        }
        if end == chars.len() {
            proof {
                assert(chars@.skip(end as int).len() == 0);
            }
            from = end;
        } else {
            proof {
                assert(rest.skip(end - from + 1) == chars@.skip(end + 1));
            }
            from = end + 1;
        }
    }
    proof {
        assert(chars@.skip(from as int).len() == 0);
    }
    Ok(string_of(dir.as_slice()))
}

/// `home_dir` of the crate dirs: the home directory of the user who runs
/// the program, where the system tells it. Nothing is claimed of the answer.
#[verifier::external_body]
pub(crate) fn home_dir() -> (home: Option<String>) {
    match dirs::home_dir() {
        Some(path) => Some(path.display().to_string()),
        None => None,
    }
}

/// The path that was given and the directory it names. The home directory
/// is asked for only where the path begins with `~`.
pub fn resolve_root(fuzzit_path: Option<String>, fuzzit_base_path: Option<String>) -> (out: Result<
    (String, String),
    RootError,
>)
    ensures
        match spec_base_path(opt_text(fuzzit_path), opt_text(fuzzit_base_path)) {
            Err(e) => out matches Err(RootError::NoBasePath),
            Ok(base) => if has_home_prefix(base) {
                ||| out matches Err(RootError::NoHomeDirectory)
                ||| out matches Ok(pair) && pair.0@ == base && exists|home: Seq<char>|
                    pair.1@ == append_components(home, base.skip(1))
            } else {
                out matches Ok(pair) && pair.0@ == base && pair.1@ == base
            },
        },
{
    let base = match resolve_base_path(fuzzit_path, fuzzit_base_path) {
        Ok(base) => base,
        Err(e) => {
            return Err(e);
        },
    };
    let chars = chars_of(base.as_str());
    let home = if begins_at_home(chars.as_slice()) {
        home_dir()
    } else {
        None
    };
    match expand_home(base.as_str(), home) {
        Ok(root) => {
            proof {
                if has_home_prefix(base@) {
                    assert(root@ == append_components(home->0@, base@.skip(1)));
                }
            }
            Ok((base, root))
        },
        Err(e) => Err(e),
    }
}

} // verus!
