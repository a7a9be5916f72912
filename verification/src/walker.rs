//! The search for repositories: which directories are looked into, and
//! which of them are repositories.
//!
//! The walker decides and keeps the books; its caller reads the
//! directories. The caller takes a directory with `take_next`, looks into it,
//! and says what it found with `report`. A directory is out from the
//! moment it is taken until its report is in.
//!
//! A directory holds a slot from the moment it is taken until it and
//! every directory below it are settled, and no more directories hold a
//! slot at a time than the limit that the walker was made with. A limit
//! that is too small for the tree stalls the walk; `is_stalled` tells.

use vstd::prelude::*;

use crate::cache::{lookup, spec_lookup};
use crate::path::{
    are_components, is_component, is_inside, lemma_path_of_concat, lemma_path_of_injective, path_of,
    push_component, spec_join, SEPARATOR,
};
use crate::text::{chars_of, opt_text, rows, same_chars, string_of, texts};

verus! {

/// The name of a directory that is generated rather than written.
pub open spec fn is_build_name(name: Seq<char>) -> bool {
    name == "node_modules"@ || name == "target"@ || name == "dist"@ || name == "build"@
}

/// A directory of this name is never looked into: a hidden one, but for
/// `.git`, or a generated one.
pub open spec fn is_skipped(name: Seq<char>) -> bool {
    (name.len() > 0 && name[0] == '.' && name != ".git"@) || is_build_name(name)
}

/// The names of a listing that are searched: components that are not
/// skipped, each taken once, in the order of their first appearance.
pub open spec fn kept(names: Seq<Seq<char>>) -> Seq<Seq<char>>
    decreases names.len(),
{
    if names.len() == 0 {
        Seq::empty()
    } else {
        let before = kept(names.drop_last());
        let name = names.last();
        if is_component(name) && !is_skipped(name) && !before.contains(name) {
            before.push(name)
        } else {
            before
        }
    }
}

/// What is kept of a listing holds components that are not skipped, none twice.
pub proof fn lemma_kept(names: Seq<Seq<char>>)
    ensures
        kept(names).no_duplicates(),
        forall|k: int|
            0 <= k < kept(names).len() ==> is_component(#[trigger] kept(names)[k]) && !is_skipped(
                kept(names)[k],
            ),
    decreases names.len(),
{
    if names.len() > 0 {
        lemma_kept(names.drop_last());
    }
}

/// Whether the name can stand for one entry of a directory.
pub fn check_component(name: &[char]) -> (yes: bool)
    ensures
        yes == is_component(name@),
{
    if name.len() == 0 {
        return false;
    }
    let mut i: usize = 0;
    while i < name.len()
        invariant
            i <= name.len(),
            forall|k: int| 0 <= k < i ==> name@[k] != SEPARATOR,
        decreases name.len() - i,
    {
        if name[i] == SEPARATOR {
            return false;
        }
        i += 1;
    }
    true
}

/// Whether the characters are those of the word.
fn is_word(name: &[char], word: &str) -> (yes: bool)
    ensures
        yes == (name@ == word@),
{
    let word = chars_of(word);
    same_chars(name, word.as_slice())
}

/// Whether a directory of this name is never looked into.
pub fn check_skipped(name: &[char]) -> (yes: bool)
    ensures
        yes == is_skipped(name@),
{
    if name.len() > 0 && name[0] == '.' && !is_word(name, ".git") {
        return true;
    }
    is_word(name, "node_modules") || is_word(name, "target") || is_word(name, "dist") || is_word(
        name,
        "build",
    )
}

/// Whether `name` is among `names`.
fn listed(names: &Vec<Vec<char>>, name: &[char]) -> (yes: bool)
    ensures
        yes == rows(names@).contains(name@),
{
    let mut i: usize = 0;
    while i < names.len()
        invariant
            i <= names.len(),
            forall|k: int| 0 <= k < i ==> rows(names@)[k] != name@,
        decreases names.len() - i,
    {
        if same_chars(names[i].as_slice(), name) {
            proof {
                assert(rows(names@)[i as int] == name@);
            }
            return true;
        }
        i += 1;
    }
    false
}

/// The names of a listing that are searched.
pub fn keep(names: &Vec<String>) -> (out: Vec<Vec<char>>)
    ensures
        rows(out@) == kept(texts(names@)),
{
    let mut out: Vec<Vec<char>> = Vec::new();
    let mut i: usize = 0;
    proof {
        assert(texts(names@).take(0) == Seq::<Seq<char>>::empty());
    }
    while i < names.len()
        invariant
            i <= names.len(),
            rows(out@) == kept(texts(names@).take(i as int)),
        decreases names.len() - i,
    {
        let name = chars_of(names[i].as_str());
        proof {
            let upto = texts(names@).take(i + 1);
            assert(upto.drop_last() == texts(names@).take(i as int));
            assert(upto.last() == name@);
        }
        if check_component(name.as_slice()) && !check_skipped(name.as_slice()) && !listed(
            &out,
            name.as_slice(),
        ) {
            let ghost before = rows(out@);
            out.push(name);
            proof {
                assert(rows(out@) == before.push(name@));
            }
        }
        i += 1;
    }
    proof {
        assert(texts(names@).take(i as int) == texts(names@));
    }
    out
}

/// How far the search of one directory has come.
#[derive(Debug, Clone, Copy, PartialEq, Eq, Structural)]
pub enum Stage {
    /// Known, and not yet handed out.
    Waiting,
    /// Handed out; its report is awaited.
    Visiting,
    /// A repository. Nothing below it is searched.
    Repository,
    /// No repository; its subdirectories are known.
    Searched,
    /// It could not be read.
    Unreadable,
}

/// What the caller found in a directory.
#[derive(Debug)]
pub enum Found {
    /// The directory holds the marker of a repository.
    Repository,
    /// The directory could not be read.
    Unreadable,
    /// The directory holds no marker; these are the names of its subdirectories.
    Subdirectories(Vec<String>),
}

/// Why a walk has no result.
#[derive(Debug, Clone, Copy, PartialEq, Eq, Structural)]
pub enum WalkError {
    /// The directory that the walk starts from could not be read.
    RootUnreadable,
    /// The walk is not done: a directory waits or is out.
    Unfinished,
}

/// The directories that a walk knows of. Index 0 is the root.
pub struct WalkerView {
    /// How many directories may hold a slot at a time.
    pub limit: nat,
    /// The path of each directory.
    pub paths: Seq<Seq<char>>,
    /// The names that lead from the root to each directory.
    pub names: Seq<Seq<Seq<char>>>,
    /// How far the search of each directory has come.
    pub stages: Seq<Stage>,
    /// The directories from this index on are waiting, and no other.
    pub next: nat,
}

/// A directory of this stage may still be found to be a repository, or was.
pub open spec fn is_live(stage: Stage) -> bool {
    stage is Waiting || stage is Visiting || stage is Repository
}

/// A directory of this stage has not been looked into yet, or its report is awaited.
pub open spec fn is_unsettled(stage: Stage) -> bool {
    stage is Waiting || stage is Visiting
}

/// How many of the indices below `n` the predicate holds of.
pub open spec fn count_upto(n: nat, f: spec_fn(int) -> bool) -> nat
    decreases n,
{
    if n == 0 {
        0
    } else {
        count_upto((n - 1) as nat, f) + if f(n - 1) {
            1nat
        } else {
            0nat
        }
    }
}

/// How many of the directories are out.
pub open spec fn count_visiting(stages: Seq<Stage>) -> nat
    decreases stages.len(),
{
    if stages.len() == 0 {
        0
    } else {
        count_visiting(stages.drop_last()) + if stages.last() is Visiting {
            1nat
        } else {
            0nat
        }
    }
}

/// The paths among the first `n` whose stage is `Repository`, in their order.
pub open spec fn repositories_upto(paths: Seq<Seq<char>>, stages: Seq<Stage>, n: nat) -> Seq<
    Seq<char>,
>
    decreases n,
{
    if n == 0 {
        Seq::empty()
    } else {
        let before = repositories_upto(paths, stages, (n - 1) as nat);
        if stages[n - 1] is Repository {
            before.push(paths[n - 1])
        } else {
            before
        }
    }
}

impl WalkerView {
    /// The directory that the walk starts from.
    pub open spec fn root(self) -> Seq<char> {
        self.paths[0]
    }

    /// How many directories are out.
    pub open spec fn visiting(self) -> nat {
        count_visiting(self.stages)
    }

    /// The repositories found so far, in the order in which their directories became known.
    pub open spec fn repositories(self) -> Seq<Seq<char>> {
        repositories_upto(self.paths, self.stages, self.paths.len())
    }

    /// Nothing is waiting and nothing is out.
    pub open spec fn is_done(self) -> bool {
        self.next == self.paths.len() && self.visiting() == 0
    }

    /// The directory at `j` lies below the one at `i`, at any depth.
    pub open spec fn is_below(self, i: int, j: int) -> bool {
        self.names[i].len() < self.names[j].len() && self.names[i].is_prefix_of(self.names[j])
    }

    /// The directory at `j` lies below the one at `i` and is not settled.
    pub open spec fn has_unsettled_at(self, i: int, j: int) -> bool {
        0 <= j < self.names.len() && self.is_below(i, j) && is_unsettled(self.stages[j])
    }

    /// Some directory below the one at `i` is not settled.
    pub open spec fn is_busy(self, i: int) -> bool {
        exists|j: int| self.has_unsettled_at(i, j)
    }

    /// The directory at `i` holds a slot: from the moment it is handed
    /// out until it and every directory below it are settled.
    pub open spec fn holds_slot(self, i: int) -> bool {
        self.stages[i] is Visiting || (self.stages[i] is Searched && self.is_busy(i))
    }

    /// The directories that hold a slot.
    pub open spec fn slot_holders(self) -> spec_fn(int) -> bool {
        |i: int| self.holds_slot(i)
    }

    /// How many directories hold a slot.
    pub open spec fn held(self) -> nat {
        count_upto(self.stages.len(), self.slot_holders())
    }

    /// The walk cannot go on and is not done: a directory waits, no slot
    /// is free for it, and no report is awaited that could free one.
    pub open spec fn is_stalled(self) -> bool {
        self.next < self.paths.len() && self.visiting() == 0 && self.held() >= self.limit
    }

    /// What holds of every walk: as many directories hold a slot as the
    /// limit allows, at most.
    pub open spec fn wf(self) -> bool {
        self.is_tree() && self.held() <= self.limit
    }

    /// What holds of the directories of every walk.
    pub open spec fn is_tree(self) -> bool {
        &&& self.paths.len() >= 1
        &&& self.names.len() == self.paths.len()
        &&& self.stages.len() == self.paths.len()
        &&& self.next <= self.paths.len()
        &&& self.names[0].len() == 0
        &&& forall|i: int|
            0 <= i < self.paths.len() ==> #[trigger] self.paths[i] == path_of(
                self.root(),
                self.names[i],
            )
        &&& forall|i: int|
            0 <= i < self.stages.len() ==> (#[trigger] self.stages[i] is Waiting <==> i
                >= self.next)
        &&& forall|i: int, k: int|
            0 <= i < self.names.len() && 0 <= k < self.names[i].len() ==> is_component(
                #[trigger] self.names[i][k],
            ) && !is_skipped(self.names[i][k])
        &&& forall|i: int, j: int|
            0 <= i < self.names.len() && 0 <= j < self.names.len() && i != j && is_live(
                self.stages[i],
            ) && is_live(self.stages[j]) ==> !(#[trigger] self.names[i]).is_prefix_of(
                #[trigger] self.names[j],
            )
    }

    /// The walk after the directory at `ticket` was handed out.
    pub open spec fn handed_out(self, ticket: int) -> WalkerView {
        WalkerView {
            stages: self.stages.update(ticket, Stage::Visiting),
            next: self.next + 1,
            ..self
        }
    }

    /// The walk after the directory at `ticket` reached the stage `stage`.
    pub open spec fn settled(self, ticket: int, stage: Stage) -> WalkerView {
        WalkerView { stages: self.stages.update(ticket, stage), ..self }
    }

    /// The walk after the directory at `ticket` was found to hold the given
    /// subdirectories: each of them is known from now on, and waits.
    pub open spec fn expanded(self, ticket: int, children: Seq<Seq<char>>) -> WalkerView {
        WalkerView {
            paths: self.paths + Seq::new(
                children.len(),
                |k: int| spec_join(self.paths[ticket], children[k]),
            ),
            names: self.names + Seq::new(
                children.len(),
                |k: int| self.names[ticket].push(children[k]),
            ),
            stages: self.stages.update(ticket, Stage::Searched) + Seq::new(
                children.len(),
                |k: int| Stage::Waiting,
            ),
            ..self
        }
    }

    /// The walk after the report `found` on the directory at `ticket`.
    pub open spec fn reported(self, ticket: int, found: Found) -> WalkerView {
        match found {
            Found::Repository => self.settled(ticket, Stage::Repository),
            Found::Unreadable => self.settled(ticket, Stage::Unreadable),
            Found::Subdirectories(names) => self.expanded(ticket, kept(texts(names@))),
        }
    }
}

/// A stage that changes at one index changes the number of directories
/// that are out by what it adds and takes there.
proof fn lemma_count_update(stages: Seq<Stage>, at: int, stage: Stage)
    requires
        0 <= at < stages.len(),
    ensures
        count_visiting(stages.update(at, stage)) + (if stages[at] is Visiting {
            1nat
        } else {
            0nat
        }) == count_visiting(stages) + (if stage is Visiting {
            1nat
        } else {
            0nat
        }),
    decreases stages.len(),
{
    let after = stages.update(at, stage);
    if at == stages.len() - 1 {
        assert(after.drop_last() == stages.drop_last());
    } else {
        assert(after.drop_last() == stages.drop_last().update(at, stage));
        lemma_count_update(stages.drop_last(), at, stage);
    }
}

/// Directories that wait are not out.
proof fn lemma_count_waiting(stages: Seq<Stage>, more: Seq<Stage>)
    requires
        forall|k: int| 0 <= k < more.len() ==> more[k] is Waiting,
    ensures
        count_visiting(stages + more) == count_visiting(stages),
    decreases more.len(),
{
    if more.len() == 0 {
        assert(stages + more == stages);
    } else {
        assert((stages + more).drop_last() == stages + more.drop_last());
        lemma_count_waiting(stages, more.drop_last());
    }
}

/// Where no directory is out, none has the stage `Visiting`.
proof fn lemma_count_zero(stages: Seq<Stage>)
    requires
        count_visiting(stages) == 0,
    ensures
        forall|i: int| 0 <= i < stages.len() ==> !(#[trigger] stages[i] is Visiting),
    decreases stages.len(),
{
    if stages.len() > 0 {
        lemma_count_zero(stages.drop_last());
        assert forall|i: int| 0 <= i < stages.len() implies !(#[trigger] stages[i] is Visiting) by {
            if i < stages.len() - 1 {
                assert(stages.drop_last()[i] == stages[i]);
            }
        }
    }
}

/// Handing out the first waiting directory keeps the directories in order.
pub proof fn lemma_handed_out_wf(v: WalkerView)
    requires
        v.is_tree(),
        v.next < v.paths.len(),
    ensures
        v.handed_out(v.next as int).is_tree(),
        v.handed_out(v.next as int).visiting() == v.visiting() + 1,
{
    let w = v.handed_out(v.next as int);
    lemma_count_update(v.stages, v.next as int, Stage::Visiting);
    assert(v.stages[v.next as int] is Waiting);
    assert forall|i: int, j: int|
        0 <= i < w.names.len() && 0 <= j < w.names.len() && i != j && is_live(w.stages[i])
            && is_live(w.stages[j]) implies !(#[trigger] w.names[i]).is_prefix_of(
        #[trigger] w.names[j],
    ) by {
        assert(is_live(v.stages[i]) && is_live(v.stages[j]));
    }
}

/// A report that names no subdirectory keeps the directories in order.
pub proof fn lemma_settled_wf(v: WalkerView, ticket: int, stage: Stage)
    requires
        v.is_tree(),
        0 <= ticket < v.paths.len(),
        v.stages[ticket] is Visiting,
        stage is Repository || stage is Unreadable || stage is Searched,
    ensures
        v.settled(ticket, stage).is_tree(),
        v.settled(ticket, stage).visiting() + 1 == v.visiting(),
{
    let w = v.settled(ticket, stage);
    lemma_count_update(v.stages, ticket, stage);
    assert forall|i: int, j: int|
        0 <= i < w.names.len() && 0 <= j < w.names.len() && i != j && is_live(w.stages[i])
            && is_live(w.stages[j]) implies !(#[trigger] w.names[i]).is_prefix_of(
        #[trigger] w.names[j],
    ) by {
        assert(is_live(v.stages[i]) && is_live(v.stages[j]));
    }
}

/// A report of subdirectories keeps the directories in order, where the
/// subdirectories are components that are not skipped, none twice.
pub proof fn lemma_expanded_wf(v: WalkerView, ticket: int, children: Seq<Seq<char>>)
    requires
        v.is_tree(),
        0 <= ticket < v.paths.len(),
        v.stages[ticket] is Visiting,
        children.no_duplicates(),
        forall|k: int|
            0 <= k < children.len() ==> is_component(#[trigger] children[k]) && !is_skipped(
                children[k],
            ),
    ensures
        v.expanded(ticket, children).is_tree(),
        v.expanded(ticket, children).visiting() + 1 == v.visiting(),
{
    let w = v.expanded(ticket, children);
    let n = v.paths.len() as int;
    let parent = v.names[ticket];
    lemma_count_update(v.stages, ticket, Stage::Searched);
    lemma_count_waiting(
        v.stages.update(ticket, Stage::Searched),
        Seq::new(children.len(), |k: int| Stage::Waiting),
    );
    assert(w.root() == v.root());
    assert forall|i: int| 0 <= i < w.paths.len() implies #[trigger] w.paths[i] == path_of(
        w.root(),
        w.names[i],
    ) by {
        if i >= n {
            let child = children[i - n];
            assert(w.names[i] == parent.push(child));
            assert(w.names[i].drop_last() == parent);
            assert(v.paths[ticket] == path_of(v.root(), parent));
        } else {
            assert(w.paths[i] == v.paths[i]);
            assert(w.names[i] == v.names[i]);
        }
    }
    assert forall|i: int| 0 <= i < w.stages.len() implies (#[trigger] w.stages[i] is Waiting <==> i
        >= w.next) by {
        if i < n {
            assert(v.stages[i] is Waiting <==> i >= v.next);
        }
    }
    assert forall|i: int, k: int|
        0 <= i < w.names.len() && 0 <= k < w.names[i].len() implies is_component(
        #[trigger] w.names[i][k],
    ) && !is_skipped(w.names[i][k]) by {
        if i >= n {
            if k < parent.len() {
                assert(w.names[i][k] == v.names[ticket][k]);
            } else {
                assert(w.names[i][k] == children[i - n]);
            }
        } else {
            assert(w.names[i][k] == v.names[i][k]);
        }
    }
    assert forall|i: int, j: int|
        0 <= i < w.names.len() && 0 <= j < w.names.len() && i != j && is_live(w.stages[i])
            && is_live(w.stages[j]) implies !(#[trigger] w.names[i]).is_prefix_of(
        #[trigger] w.names[j],
    ) by {
        let a = w.names[i];
        let b = w.names[j];
        if a.is_prefix_of(b) {
            if i < n && j < n {
                assert(is_live(v.stages[i]) && is_live(v.stages[j]));
                assert(v.names[i].is_prefix_of(v.names[j]));
            } else if i >= n && j >= n {
                assert(a.len() == b.len());
                assert(a[parent.len() as int] == b[parent.len() as int]);
                assert(children[i - n] == children[j - n]);
            } else if i >= n {
                // a child before a directory known earlier
                assert(is_live(v.stages[j]) && j != ticket);
                assert(parent.is_prefix_of(a));
                assert(parent.is_prefix_of(v.names[j]));
            } else {
                // a directory known earlier before a child
                assert(is_live(v.stages[i]) && i != ticket);
                if a.len() <= parent.len() {
                    assert(v.names[i].is_prefix_of(parent));
                } else {
                    assert(a.len() == b.len());
                    assert(a =~= b);
                    assert(parent.is_prefix_of(v.names[i]));
                }
            }
        }
    }
}

/// Counting does not tell predicates apart that agree below `n`.
proof fn lemma_count_same(n: nat, f: spec_fn(int) -> bool, g: spec_fn(int) -> bool)
    requires
        forall|i: int| 0 <= i < n ==> #[trigger] f(i) == g(i),
    ensures
        count_upto(n, f) == count_upto(n, g),
    decreases n,
{
    if n > 0 {
        lemma_count_same((n - 1) as nat, f, g);
    }
}

/// Predicates that differ at one index alone differ in their count by
/// what they say of that index.
proof fn lemma_count_change(n: nat, f: spec_fn(int) -> bool, g: spec_fn(int) -> bool, k: int)
    requires
        0 <= k < n,
        forall|i: int| 0 <= i < n && i != k ==> #[trigger] f(i) == g(i),
    ensures
        count_upto(n, g) + (if f(k) {
            1nat
        } else {
            0nat
        }) == count_upto(n, f) + (if g(k) {
            1nat
        } else {
            0nat
        }),
    decreases n,
{
    if k == n - 1 {
        lemma_count_same((n - 1) as nat, f, g);
    } else {
        lemma_count_change((n - 1) as nat, f, g, k);
    }
}

/// An index of which the predicate holds is counted.
proof fn lemma_count_some(n: nat, f: spec_fn(int) -> bool, k: int)
    requires
        0 <= k < n,
        f(k),
    ensures
        count_upto(n, f) >= 1,
    decreases n,
{
    if k < n - 1 {
        lemma_count_some((n - 1) as nat, f, k);
    }
}

/// Where the count is not zero the predicate holds of some index.
proof fn lemma_count_witness(n: nat, f: spec_fn(int) -> bool) -> (k: int)
    requires
        count_upto(n, f) > 0,
    ensures
        0 <= k < n,
        f(k),
    decreases n,
{
    if f(n - 1) {
        n - 1
    } else {
        lemma_count_witness((n - 1) as nat, f)
    }
}

/// Indices of which the predicate holds throughout add their number to
/// the count; indices of which it never holds add nothing.
proof fn lemma_count_more(n: nat, m: nat, f: spec_fn(int) -> bool)
    requires
        n <= m,
    ensures
        (forall|i: int| n <= i < m ==> #[trigger] f(i)) ==> count_upto(m, f) == count_upto(n, f)
            + (m - n),
        (forall|i: int| n <= i < m ==> !#[trigger] f(i)) ==> count_upto(m, f) == count_upto(n, f),
    decreases m - n,
{
    if n < m {
        lemma_count_more(n, (m - 1) as nat, f);
    }
}

/// The directory at `c` is not done: it is not settled, or some
/// directory right below it is not done.
spec fn is_active(stages: Seq<Stage>, open: Seq<usize>, c: int) -> bool {
    is_unsettled(stages[c]) || (stages[c] is Searched && open[c] > 0)
}

/// The directory at `i` keeps a slot, by the books.
spec fn keeps_slot(stages: Seq<Stage>, open: Seq<usize>, i: int) -> bool {
    stages[i] is Visiting || (stages[i] is Searched && open[i] > 0)
}

/// The directories that keep a slot, by the books.
spec fn slot_keepers(stages: Seq<Stage>, open: Seq<usize>) -> spec_fn(int) -> bool {
    |i: int| keeps_slot(stages, open, i)
}

/// The directories right below the one at `p` that are not done.
spec fn active_children(stages: Seq<Stage>, open: Seq<usize>, parents: Seq<usize>, p: int)
    -> spec_fn(int) -> bool {
    |c: int| c > 0 && parents[c] == p && is_active(stages, open, c)
}

/// The directory at `i` lies right below its parent, which was searched.
spec fn is_child_link(
    names: Seq<Seq<Seq<char>>>,
    stages: Seq<Stage>,
    parents: Seq<usize>,
    i: int,
) -> bool {
    &&& parents[i] < i
    &&& names[i].len() > 0
    &&& names[parents[i] as int] == names[i].drop_last()
    &&& stages[parents[i] as int] is Searched
}

/// Every directory but the root has its parent on record, and no two
/// directories are reached by the same names.
spec fn links_ok(names: Seq<Seq<Seq<char>>>, stages: Seq<Stage>, parents: Seq<usize>) -> bool {
    &&& names.len() == stages.len()
    &&& parents.len() == stages.len()
    &&& stages.len() >= 1
    &&& names[0].len() == 0
    &&& forall|i: int| 0 < i < stages.len() ==> #[trigger] is_child_link(names, stages, parents, i)
    &&& forall|i: int, j: int|
        0 <= i < names.len() && 0 <= j < names.len() && i != j ==> #[trigger] names[i]
            != #[trigger] names[j]
}

/// One more than the count is on record for the parent of `cur`, while
/// the directory at `cur` has just become done and its parent has not
/// been told. With `cur` at the root nothing is owed.
spec fn owed(parents: Seq<usize>, cur: int, q: int) -> nat {
    if cur != 0 && parents[cur] == q {
        1
    } else {
        0
    }
}

/// The record for the directory at `q` is right, but for what is owed.
spec fn count_ok(stages: Seq<Stage>, parents: Seq<usize>, open: Seq<usize>, cur: int, q: int) -> bool {
    open[q] == count_upto(stages.len(), active_children(stages, open, parents, q)) + owed(
        parents,
        cur,
        q,
    )
}

/// Every record is right, but for what is owed.
spec fn counts_ok(stages: Seq<Stage>, parents: Seq<usize>, open: Seq<usize>, cur: int) -> bool {
    &&& open.len() == stages.len()
    &&& forall|q: int| 0 <= q < stages.len() ==> #[trigger] count_ok(stages, parents, open, cur, q)
}

/// The books are right: for each directory, how many directories right
/// below it are not done.
spec fn books(
    names: Seq<Seq<Seq<char>>>,
    stages: Seq<Stage>,
    parents: Seq<usize>,
    open: Seq<usize>,
) -> bool {
    links_ok(names, stages, parents) && counts_ok(stages, parents, open, 0)
}

/// A directory with a directory below it that is not done has one right
/// below it that is not done.
proof fn lemma_active_below(v: WalkerView, parents: Seq<usize>, open: Seq<usize>, i: int, j: int)
    requires
        books(v.names, v.stages, parents, open),
        0 <= i < v.stages.len(),
        0 <= j < v.stages.len(),
        v.is_below(i, j),
        is_active(v.stages, open, j),
    ensures
        open[i] > 0,
    decreases v.names[j].len(),
{
    let n = v.stages.len();
    assert(j != 0);
    assert(is_child_link(v.names, v.stages, parents, j));
    let p = parents[j] as int;
    assert(active_children(v.stages, open, parents, p)(j));
    lemma_count_some(n, active_children(v.stages, open, parents, p), j);
    assert(count_ok(v.stages, parents, open, 0, p));
    if v.names[p].len() == v.names[i].len() {
        assert(v.names[p] =~= v.names[i]);
    } else {
        assert(v.names[i].is_prefix_of(v.names[p]));
        lemma_active_below(v, parents, open, i, p);
    }
}

/// A directory with a directory right below it that is not done has an
/// unsettled directory below it.
proof fn lemma_open_is_busy(v: WalkerView, parents: Seq<usize>, open: Seq<usize>, i: int)
    requires
        books(v.names, v.stages, parents, open),
        0 <= i < v.stages.len(),
        open[i] > 0,
    ensures
        v.is_busy(i),
    decreases v.stages.len() - i,
{
    let n = v.stages.len();
    assert(count_ok(v.stages, parents, open, 0, i));
    let c = lemma_count_witness(n, active_children(v.stages, open, parents, i));
    assert(is_child_link(v.names, v.stages, parents, c));
    assert(v.is_below(i, c));
    if is_unsettled(v.stages[c]) {
        assert(v.has_unsettled_at(i, c));
    } else {
        lemma_open_is_busy(v, parents, open, c);
        let j = choose|j: int| v.has_unsettled_at(c, j);
        assert(v.names[i].is_prefix_of(v.names[j]));
        assert(v.has_unsettled_at(i, j));
    }
}

/// By the books the directories keep the slots that they hold.
proof fn lemma_held_by_books(v: WalkerView, parents: Seq<usize>, open: Seq<usize>)
    requires
        books(v.names, v.stages, parents, open),
    ensures
        count_upto(v.stages.len(), slot_keepers(v.stages, open)) == v.held(),
{
    let n = v.stages.len();
    assert forall|i: int| 0 <= i < n implies #[trigger] slot_keepers(v.stages, open)(i)
        == v.slot_holders()(i) by {
        if open[i] > 0 {
            lemma_open_is_busy(v, parents, open, i);
        }
        if v.is_busy(i) {
            let j = choose|j: int| v.has_unsettled_at(i, j);
            lemma_active_below(v, parents, open, i, j);
        }
    }
    lemma_count_same(n, slot_keepers(v.stages, open), v.slot_holders());
}

/// Handing out a waiting directory leaves the books right and adds one
/// keeper of a slot.
proof fn lemma_books_taken(
    names: Seq<Seq<Seq<char>>>,
    stages: Seq<Stage>,
    parents: Seq<usize>,
    open: Seq<usize>,
    t: int,
)
    requires
        books(names, stages, parents, open),
        0 <= t < stages.len(),
        stages[t] is Waiting,
    ensures
        books(names, stages.update(t, Stage::Visiting), parents, open),
        count_upto(stages.len(), slot_keepers(stages.update(t, Stage::Visiting), open))
            == count_upto(stages.len(), slot_keepers(stages, open)) + 1,
{
    let n = stages.len();
    let after = stages.update(t, Stage::Visiting);
    assert forall|i: int| 0 < i < n implies #[trigger] is_child_link(names, after, parents, i) by {
        assert(is_child_link(names, stages, parents, i));
    }
    assert forall|q: int| 0 <= q < n implies #[trigger] count_ok(after, parents, open, 0, q) by {
        assert(count_ok(stages, parents, open, 0, q));
        assert forall|c: int| 0 <= c < n implies #[trigger] active_children(
            after,
            open,
            parents,
            q,
        )(c) == active_children(stages, open, parents, q)(c) by {}
        lemma_count_same(
            n,
            active_children(after, open, parents, q),
            active_children(stages, open, parents, q),
        );
    }
    assert forall|i: int| 0 <= i < n && i != t implies #[trigger] slot_keepers(stages, open)(i)
        == slot_keepers(after, open)(i) by {}
    lemma_count_change(n, slot_keepers(stages, open), slot_keepers(after, open), t);
}

/// A directory that is out has no directory below it on record.
proof fn lemma_out_is_childless(
    names: Seq<Seq<Seq<char>>>,
    stages: Seq<Stage>,
    parents: Seq<usize>,
    open: Seq<usize>,
    t: int,
)
    requires
        books(names, stages, parents, open),
        0 <= t < stages.len(),
        !(stages[t] is Searched),
    ensures
        forall|c: int| 0 < c < stages.len() ==> #[trigger] parents[c] != t,
        open[t] == 0,
{
    let n = stages.len();
    assert forall|c: int| 0 < c < n implies #[trigger] parents[c] != t by {
        assert(is_child_link(names, stages, parents, c));
    }
    assert(count_ok(stages, parents, open, 0, t));
    assert forall|c: int| 0 <= c < n implies !#[trigger] active_children(stages, open, parents, t)(
        c,
    ) by {
        if c > 0 {
            assert(parents[c] != t);
        }
    }
    lemma_count_more(0, n, active_children(stages, open, parents, t));
}

/// A directory that is settled without directories below it leaves the
/// books right but for what its parent is owed, and gives up its slot.
proof fn lemma_books_settled(
    names: Seq<Seq<Seq<char>>>,
    stages: Seq<Stage>,
    parents: Seq<usize>,
    open: Seq<usize>,
    t: int,
    stage: Stage,
)
    requires
        books(names, stages, parents, open),
        0 <= t < stages.len(),
        stages[t] is Visiting,
        stage is Repository || stage is Unreadable || stage is Searched,
    ensures
        links_ok(names, stages.update(t, stage), parents),
        counts_ok(stages.update(t, stage), parents, open, t),
        !is_active(stages.update(t, stage), open, t),
        count_upto(stages.len(), slot_keepers(stages.update(t, stage), open)) + 1 == count_upto(
            stages.len(),
            slot_keepers(stages, open),
        ),
{
    let n = stages.len();
    let after = stages.update(t, stage);
    lemma_out_is_childless(names, stages, parents, open, t);
    assert forall|i: int| 0 < i < n implies #[trigger] is_child_link(names, after, parents, i) by {
        assert(is_child_link(names, stages, parents, i));
        assert(parents[i] != t);
    }
    assert forall|q: int| 0 <= q < n implies #[trigger] count_ok(after, parents, open, t, q) by {
        assert(count_ok(stages, parents, open, 0, q));
        let before_q = active_children(stages, open, parents, q);
        let after_q = active_children(after, open, parents, q);
        assert forall|c: int| 0 <= c < n && c != t implies #[trigger] before_q(c) == after_q(c) by {}
        lemma_count_change(n, before_q, after_q, t);
    }
    assert forall|i: int| 0 <= i < n && i != t implies #[trigger] slot_keepers(stages, open)(i)
        == slot_keepers(after, open)(i) by {}
    lemma_count_change(n, slot_keepers(stages, open), slot_keepers(after, open), t);
}

/// The parent of a directory that has just become done is told: where
/// other directories right below it are not done, the books are right
/// again; else the parent has become done too, gives up its slot, and
/// its own parent is owed.
proof fn lemma_books_released(
    names: Seq<Seq<Seq<char>>>,
    stages: Seq<Stage>,
    parents: Seq<usize>,
    open: Seq<usize>,
    cur: int,
)
    requires
        links_ok(names, stages, parents),
        counts_ok(stages, parents, open, cur),
        0 < cur < stages.len(),
        !is_active(stages, open, cur),
    ensures
        open[parents[cur] as int] >= 1,
        open[parents[cur] as int] > 1 ==> counts_ok(
            stages,
            parents,
            open.update(parents[cur] as int, (open[parents[cur] as int] - 1) as usize),
            0,
        ) && count_upto(
            stages.len(),
            slot_keepers(
                stages,
                open.update(parents[cur] as int, (open[parents[cur] as int] - 1) as usize),
            ),
        ) == count_upto(stages.len(), slot_keepers(stages, open)),
        open[parents[cur] as int] == 1 ==> counts_ok(
            stages,
            parents,
            open.update(parents[cur] as int, 0usize),
            parents[cur] as int,
        ) && !is_active(stages, open.update(parents[cur] as int, 0usize), parents[cur] as int)
            && count_upto(
            stages.len(),
            slot_keepers(stages, open.update(parents[cur] as int, 0usize)),
        ) + 1 == count_upto(stages.len(), slot_keepers(stages, open)),
{
    let n = stages.len();
    let p = parents[cur] as int;
    assert(is_child_link(names, stages, parents, cur));
    assert(count_ok(stages, parents, open, cur, p));
    let less = open.update(p, (open[p] - 1) as usize);
    if p > 0 {
        assert(is_child_link(names, stages, parents, p));
    }
    if open[p] > 1 {
        assert forall|q: int| 0 <= q < n implies #[trigger] count_ok(stages, parents, less, 0, q) by {
            assert(count_ok(stages, parents, open, cur, q));
            assert forall|c: int| 0 <= c < n implies #[trigger] active_children(
                stages,
                less,
                parents,
                q,
            )(c) == active_children(stages, open, parents, q)(c) by {}
            lemma_count_same(
                n,
                active_children(stages, less, parents, q),
                active_children(stages, open, parents, q),
            );
        }
        assert forall|i: int| 0 <= i < n implies #[trigger] slot_keepers(stages, less)(i)
            == slot_keepers(stages, open)(i) by {}
        lemma_count_same(n, slot_keepers(stages, less), slot_keepers(stages, open));
    } else {
        assert forall|q: int| 0 <= q < n implies #[trigger] count_ok(stages, parents, less, p, q) by {
            assert(count_ok(stages, parents, open, cur, q));
            let before_q = active_children(stages, open, parents, q);
            let after_q = active_children(stages, less, parents, q);
            assert forall|c: int| 0 <= c < n && c != p implies #[trigger] before_q(c) == after_q(
                c,
            ) by {}
            lemma_count_change(n, before_q, after_q, p);
        }
        assert forall|i: int| 0 <= i < n && i != p implies #[trigger] slot_keepers(stages, open)(i)
            == slot_keepers(stages, less)(i) by {}
        lemma_count_change(n, slot_keepers(stages, open), slot_keepers(stages, less), p);
    }
}

/// `n` times the same number.
spec fn repeated(n: nat, x: usize) -> Seq<usize> {
    Seq::new(n, |i: int| x)
}

/// A directory that is found to hold subdirectories leaves the books
/// right once they are on record, and keeps its slot.
proof fn lemma_books_expanded(
    v: WalkerView,
    parents: Seq<usize>,
    open: Seq<usize>,
    t: usize,
    children: Seq<Seq<char>>,
)
    requires
        books(v.names, v.stages, parents, open),
        t < v.stages.len(),
        v.stages[t as int] is Visiting,
        children.no_duplicates(),
        0 < children.len() <= usize::MAX,
    ensures
        books(
            v.expanded(t as int, children).names,
            v.expanded(t as int, children).stages,
            parents + repeated(children.len(), t),
            open.update(t as int, children.len() as usize) + repeated(children.len(), 0),
        ),
        count_upto(
            v.expanded(t as int, children).stages.len(),
            slot_keepers(
                v.expanded(t as int, children).stages,
                open.update(t as int, children.len() as usize) + repeated(children.len(), 0),
            ),
        ) == count_upto(v.stages.len(), slot_keepers(v.stages, open)),
{
    let n = v.stages.len();
    let k = children.len();
    let w = v.expanded(t as int, children);
    let names = w.names;
    let stages = w.stages;
    let parents2 = parents + repeated(k, t);
    let open2 = open.update(t as int, k as usize) + repeated(k, 0);
    let m = (n + k) as nat;
    lemma_out_is_childless(v.names, v.stages, parents, open, t as int);
    assert(stages.len() == m && names.len() == m && parents2.len() == m && open2.len() == m);
    assert forall|c: int| n <= c < m implies #[trigger] parents2[c] == t && stages[c] is Waiting
        && open2[c] == 0 && names[c] == v.names[t as int].push(children[c - n]) by {
        assert(parents2[c] == repeated(k, t)[c - n]);
        assert(open2[c] == repeated(k, 0)[c - n]);
    }
    assert forall|c: int| 0 <= c < n implies #[trigger] parents2[c] == parents[c] && names[c]
        == v.names[c] && stages[c] == v.stages.update(t as int, Stage::Searched)[c] && open2[c]
        == open.update(t as int, k as usize)[c] by {}
    assert forall|i: int| 0 < i < m implies #[trigger] is_child_link(names, stages, parents2, i) by {
        if i < n {
            assert(is_child_link(v.names, v.stages, parents, i));
            assert(parents[i] != t);
            assert(parents2[i] == parents[i]);
        } else {
            assert(parents2[i] == t);
            assert(names[i] == v.names[t as int].push(children[i - n]));
            assert(names[i].drop_last() == v.names[t as int]);
            assert(names[t as int] == v.names[t as int]);
            assert(stages[t as int] is Searched);
        }
    }
    assert forall|i: int, j: int| 0 <= i < m && 0 <= j < m && i != j implies #[trigger] names[i]
        != #[trigger] names[j] by {
        if names[i] == names[j] {
            if i < n && j < n {
                assert(v.names[i] != v.names[j]);
            } else if i >= n && j >= n {
                assert(parents2[i] == t && parents2[j] == t);
                assert(names[i].last() == children[i - n]);
                assert(names[j].last() == children[j - n]);
            } else {
                let old = if i < n {
                    i
                } else {
                    j
                };
                let fresh = if i < n {
                    j
                } else {
                    i
                };
                assert(parents2[fresh] == t);
                assert(names[fresh].drop_last() == v.names[t as int]);
                assert(parents2[old] == parents[old]);
                assert(v.names[old].len() > 0);
                assert(old != 0);
                assert(is_child_link(v.names, v.stages, parents, old));
                assert(v.names[parents[old] as int] == v.names[t as int]);
                assert(parents[old] == t);
            }
        }
    }
    assert forall|c: int| 0 <= c < m implies #[trigger] is_active(stages, open2, c) == (if c < n {
        is_active(v.stages, open, c)
    } else {
        true
    }) by {
        if c < n {
            assert(parents2[c] == parents[c]);
        } else {
            assert(parents2[c] == t);
        }
    }
    assert forall|q: int| 0 <= q < m implies #[trigger] count_ok(stages, parents2, open2, 0, q) by {
        let now = active_children(stages, open2, parents2, q);
        if q < n {
            assert(count_ok(v.stages, parents, open, 0, q));
            assert(parents2[q] == parents[q]);
            let before = active_children(v.stages, open, parents, q);
            if q == t {
                assert forall|c: int| 0 <= c < n implies !#[trigger] now(c) by {
                    assert(parents2[c] == parents[c]);
                    if c > 0 {
                        assert(parents[c] != t);
                    }
                }
                lemma_count_more(0, n, now);
                assert forall|c: int| n <= c < m implies #[trigger] now(c) by {
                    assert(parents2[c] == t);
                    assert(is_active(stages, open2, c));
                }
                lemma_count_more(n, m, now);
            } else {
                assert forall|c: int| 0 <= c < n implies #[trigger] now(c) == before(c) by {
                    assert(parents2[c] == parents[c]);
                    assert(is_active(stages, open2, c) == is_active(v.stages, open, c));
                }
                lemma_count_same(n, now, before);
                assert forall|c: int| n <= c < m implies !#[trigger] now(c) by {
                    assert(parents2[c] == t);
                }
                lemma_count_more(n, m, now);
            }
        } else {
            assert(parents2[q] == t);
            assert forall|c: int| 0 <= c < m implies !#[trigger] now(c) by {
                if 0 < c < n {
                    assert(parents2[c] == parents[c]);
                    assert(is_child_link(v.names, v.stages, parents, c));
                } else if c >= n {
                    assert(parents2[c] == t);
                }
            }
            lemma_count_more(0, m, now);
        }
    }
    let keep_now = slot_keepers(stages, open2);
    let keep_before = slot_keepers(v.stages, open);
    assert forall|i: int| 0 <= i < n implies #[trigger] keep_now(i) == keep_before(i) by {
        assert(parents2[i] == parents[i]);
    }
    lemma_count_same(n, keep_now, keep_before);
    assert forall|i: int| n <= i < m implies !#[trigger] keep_now(i) by {
        assert(parents2[i] == t);
    }
    lemma_count_more(n, m, keep_now);
}

/// No more directories are out than there are directories.
proof fn lemma_count_visiting_bound(stages: Seq<Stage>)
    ensures
        count_visiting(stages) <= stages.len(),
    decreases stages.len(),
{
    if stages.len() > 0 {
        lemma_count_visiting_bound(stages.drop_last());
    }
}

/// A walk in progress.
pub struct Walker {
    limit: usize,
    dirs: Vec<String>,
    stages: Vec<Stage>,
    parents: Vec<usize>,
    open: Vec<usize>,
    next: usize,
    visiting: usize,
    held: usize,
    names: Ghost<Seq<Seq<Seq<char>>>>,
}

impl View for Walker {
    type V = WalkerView;

    closed spec fn view(&self) -> WalkerView {
        WalkerView {
            limit: self.limit as nat,
            paths: texts(self.dirs@),
            names: self.names@,
            stages: self.stages@,
            next: self.next as nat,
        }
    }
}

impl Walker {
    /// What holds of every walker that this module hands out.
    pub closed spec fn wf(&self) -> bool {
        &&& self@.is_tree()
        &&& self.dirs@.len() == self.stages@.len()
        &&& self.visiting == count_visiting(self.stages@)
        &&& books(self.names@, self.stages@, self.parents@, self.open@)
        &&& self.held == count_upto(self.stages@.len(), slot_keepers(self.stages@, self.open@))
        &&& self.held <= self.limit
    }

    /// The model of a well-formed walker is well formed.
    pub proof fn lemma_view_wf(&self)
        requires
            self.wf(),
        ensures
            self@.wf(),
    {
        lemma_held_by_books(self@, self.parents@, self.open@);
    }

    /// A walk that starts from `root`, in which at most `limit`
    /// directories hold a slot at a time. Only the root is known, and it waits.
    pub fn new(root: String, limit: usize) -> (out: Walker)
        ensures
            out.wf(),
            out@ == (WalkerView {
                limit: limit as nat,
                paths: seq![root@],
                names: seq![Seq::<Seq<char>>::empty()],
                stages: seq![Stage::Waiting],
                next: 0,
            }),
            out@.visiting() == 0,
            out@.held() == 0,
    {
        let mut dirs: Vec<String> = Vec::new();
        dirs.push(root);
        let mut stages: Vec<Stage> = Vec::new();
        stages.push(Stage::Waiting);
        let mut parents: Vec<usize> = Vec::new();
        parents.push(0);
        let mut open: Vec<usize> = Vec::new();
        open.push(0);
        let ghost at_root: Seq<Seq<Seq<char>>> = seq![Seq::<Seq<char>>::empty()];
        let names = Ghost(at_root);
        let out = Walker { limit, dirs, stages, parents, open, next: 0, visiting: 0, held: 0, names };
        proof {
            reveal_with_fuel(count_visiting, 3);
            assert(texts(out.dirs@) == seq![root@]);
            assert(out.stages@ == seq![Stage::Waiting]);
            assert(out.stages@.drop_last() == Seq::<Stage>::empty());
            assert(count_visiting(out.stages@) == 0);
            let none = active_children(out.stages@, out.open@, out.parents@, 0);
            assert forall|c: int| 0 <= c < 1 implies !#[trigger] none(c) by {}
            lemma_count_more(0, 1, none);
            assert(count_ok(out.stages@, out.parents@, out.open@, 0, 0));
            let keepers = slot_keepers(out.stages@, out.open@);
            assert forall|i: int| 0 <= i < 1 implies !#[trigger] keepers(i) by {}
            lemma_count_more(0, 1, keepers);
            lemma_held_by_books(out@, out.parents@, out.open@);
        }
        out
    }

    /// Hands out the first waiting directory, by its ticket and its path,
    /// unless none waits or as many directories hold a slot as the limit
    /// allows. The directory holds a slot from now on.
    pub fn take_next(&mut self) -> (out: Option<(usize, String)>)
        requires
            old(self).wf(),
        ensures
            final(self).wf(),
            out is Some <==> old(self)@.next < old(self)@.paths.len() && old(self)@.held() < old(
                self,
            )@.limit,
            out is None ==> final(self)@ == old(self)@,
            out matches Some((ticket, path)) ==> {
                &&& ticket == old(self)@.next
                &&& path@ == old(self)@.paths[ticket as int]
                &&& final(self)@ == old(self)@.handed_out(ticket as int)
                &&& final(self)@.visiting() == old(self)@.visiting() + 1
                &&& final(self)@.held() == old(self)@.held() + 1
            },
    {
        proof {
            lemma_held_by_books(self@, self.parents@, self.open@);
        }
        if self.next >= self.dirs.len() || self.held >= self.limit {
            return None;
        }
        let ticket = self.next;
        let path = self.dirs[ticket].clone();
        proof {
            lemma_handed_out_wf(self@);
            lemma_books_taken(self.names@, self.stages@, self.parents@, self.open@, ticket as int);
            lemma_count_visiting_bound(self@.handed_out(ticket as int).stages);
        }
        self.stages.set(ticket, Stage::Visiting);
        self.next = ticket + 1;
        self.visiting = self.visiting + 1;
        self.held = self.held + 1;
        proof {
            lemma_held_by_books(self@, self.parents@, self.open@);
        }
        Some((ticket, path))
    }

    /// Takes the report on the directory that was handed out under
    /// `ticket`. A repository is recorded, and nothing below it will be
    /// searched. Of a directory that holds none, the subdirectories that
    /// are kept become known and wait; the directory keeps its slot until
    /// all of them are done. A directory that is settled with nothing
    /// left below it gives up its slot, and so does each directory above
    /// it whose last unsettled directory this was. A report on a
    /// directory that is not out is refused and changes nothing.
    pub fn report(&mut self, ticket: usize, found: Found) -> (accepted: bool)
        requires
            old(self).wf(),
        ensures
            final(self).wf(),
            accepted <==> ticket < old(self)@.paths.len() && old(self)@.stages[ticket as int]
                is Visiting,
            !accepted ==> final(self)@ == old(self)@,
            accepted ==> final(self)@ == old(self)@.reported(ticket as int, found),
            accepted ==> final(self)@.visiting() + 1 == old(self)@.visiting(),
            accepted ==> if final(self)@.paths.len() > old(self)@.paths.len() {
                final(self)@.held() == old(self)@.held()
            } else {
                final(self)@.held() < old(self)@.held()
            },
    {
        if ticket >= self.dirs.len() {
            return false;
        }
        match self.stages[ticket] {
            Stage::Visiting => {},
            _ => {
                return false;
            },
        }
        match found {
            Found::Repository => {
                self.settle(ticket, Stage::Repository);
            },
            Found::Unreadable => {
                self.settle(ticket, Stage::Unreadable);
            },
            Found::Subdirectories(names) => {
                let children = keep(&names);
                if children.len() == 0 {
                    proof {
                        assert(self@.expanded(ticket as int, rows(children@)) == self@.settled(
                            ticket as int,
                            Stage::Searched,
                        ));
                    }
                    self.settle(ticket, Stage::Searched);
                } else {
                    proof {
                        lemma_kept(texts(names@));
                    }
                    self.expand(ticket, children);
                }
            },
        }
        true
    }

    /// Settles the directory under `ticket`, which has nothing below it,
    /// and takes the slot from it and from each directory above it that is
    /// done with it.
    fn settle(&mut self, ticket: usize, stage: Stage)
        requires
            old(self).wf(),
            ticket < old(self)@.paths.len(),
            old(self)@.stages[ticket as int] is Visiting,
            stage is Repository || stage is Unreadable || stage is Searched,
        ensures
            final(self).wf(),
            final(self)@ == old(self)@.settled(ticket as int, stage),
            final(self)@.visiting() + 1 == old(self)@.visiting(),
            final(self)@.held() < old(self)@.held(),
    {
        proof {
            lemma_held_by_books(self@, self.parents@, self.open@);
            lemma_settled_wf(self@, ticket as int, stage);
            lemma_books_settled(
                self.names@,
                self.stages@,
                self.parents@,
                self.open@,
                ticket as int,
                stage,
            );
            assert(slot_keepers(self.stages@, self.open@)(ticket as int));
            lemma_count_some(
                self.stages@.len(),
                slot_keepers(self.stages@, self.open@),
                ticket as int,
            );
        }
        self.stages.set(ticket, stage);
        self.visiting = self.visiting - 1;
        self.held = self.held - 1;
        let ghost goal = self@;
        let mut cur: usize = ticket;
        while cur != 0
            invariant
                cur < self.stages@.len(),
                self@ == goal,
                goal.is_tree(),
                self.dirs@.len() == self.stages@.len(),
                self.visiting == count_visiting(self.stages@),
                links_ok(self.names@, self.stages@, self.parents@),
                counts_ok(self.stages@, self.parents@, self.open@, cur as int),
                cur != 0 ==> !is_active(self.stages@, self.open@, cur as int),
                self.held == count_upto(
                    self.stages@.len(),
                    slot_keepers(self.stages@, self.open@),
                ),
                self.held < old(self).held,
                self.held <= self.limit,
            decreases cur,
        {
            let parent = self.parents[cur];
            proof {
                lemma_books_released(
                    self.names@,
                    self.stages@,
                    self.parents@,
                    self.open@,
                    cur as int,
                );
                assert(is_child_link(self.names@, self.stages@, self.parents@, cur as int));
            }
            let left = self.open[parent] - 1;
            self.open.set(parent, left);
            if left > 0 {
                cur = 0;
            } else {
                self.held = self.held - 1;
                cur = parent;
            }
        }
        proof {
            lemma_held_by_books(self@, self.parents@, self.open@);
        }
    }

    /// Puts the subdirectories of the directory under `ticket` on record.
    /// The directory keeps its slot.
    fn expand(&mut self, ticket: usize, children: Vec<Vec<char>>)
        requires
            old(self).wf(),
            ticket < old(self)@.paths.len(),
            old(self)@.stages[ticket as int] is Visiting,
            children@.len() > 0,
            rows(children@).no_duplicates(),
            forall|k: int|
                0 <= k < children@.len() ==> is_component(#[trigger] rows(children@)[k])
                    && !is_skipped(rows(children@)[k]),
        ensures
            final(self).wf(),
            final(self)@ == old(self)@.expanded(ticket as int, rows(children@)),
            final(self)@.visiting() + 1 == old(self)@.visiting(),
            final(self)@.held() == old(self)@.held(),
    {
        let ghost goal = self@.expanded(ticket as int, rows(children@));
        let ghost names = rows(children@);
        let count = children.len();
        proof {
            assert(names.len() == count);
            lemma_held_by_books(self@, self.parents@, self.open@);
            lemma_expanded_wf(self@, ticket as int, names);
            lemma_settled_wf(self@, ticket as int, Stage::Searched);
            assert(names.len() == children@.len());
            lemma_books_expanded(self@, self.parents@, self.open@, ticket, names);
        }
        let parent = chars_of(self.dirs[ticket].as_str());
        self.stages.set(ticket, Stage::Searched);
        self.open.set(ticket, count);
        self.visiting = self.visiting - 1;
        let ghost base = self@;
        let ghost base_parents = self.parents@;
        let ghost base_open = self.open@;
        let mut k: usize = 0;
        proof {
            assert(base == old(self)@.settled(ticket as int, Stage::Searched));
            assert(self@ == base.expanded_by(ticket as int, names, 0));
            assert(self.parents@ == base_parents + repeated(0, ticket));
            assert(self.open@ == base_open + repeated(0, 0));
        }
        while k < children.len()
            invariant
                k <= children.len(),
                names == rows(children@),
                ticket < base.paths.len(),
                base.paths.len() == base.names.len(),
                parent@ == base.paths[ticket as int],
                self.dirs@.len() == self.stages@.len(),
                self.visiting == old(self).visiting - 1,
                self.held == old(self).held,
                self.next == old(self).next,
                self.limit == old(self).limit,
                self@ == base.expanded_by(ticket as int, names, k as nat),
                self.parents@ == base_parents + repeated(k as nat, ticket),
                self.open@ == base_open + repeated(k as nat, 0),
            decreases children.len() - k,
        {
            let mut path = parent.clone();
            push_component(&mut path, children[k].as_slice());
            let ghost before = self@;
            self.dirs.push(string_of(path.as_slice()));
            self.stages.push(Stage::Waiting);
            self.parents.push(ticket);
            self.open.push(0);
            proof {
                let name = names[k as int];
                self.names@ = self.names@.push(base.names[ticket as int].push(name));
                assert(texts(self.dirs@) == before.paths.push(
                    spec_join(base.paths[ticket as int], name),
                ));
                assert(self.parents@ == base_parents + repeated((k + 1) as nat, ticket));
                assert(self.open@ == base_open + repeated((k + 1) as nat, 0));
            }
            k += 1;
        }
        proof {
            base.lemma_expanded_by_all(ticket as int, names);
            assert(self@ == goal);
            lemma_held_by_books(self@, self.parents@, self.open@);
        }
    }
}

impl Walker {
    /// Whether nothing is waiting and nothing is out.
    pub fn is_done(&self) -> (done: bool)
        requires
            self.wf(),
        ensures
            done == self@.is_done(),
    {
        self.next == self.dirs.len() && self.visiting == 0
    }

    /// Whether the walk cannot go on though it is not done: a directory
    /// waits, no slot is free for it, and no report is awaited that could
    /// free one. A limit no greater than the depth of the tree leads here.
    pub fn is_stalled(&self) -> (stalled: bool)
        requires
            self.wf(),
        ensures
            stalled == self@.is_stalled(),
    {
        proof {
            lemma_held_by_books(self@, self.parents@, self.open@);
        }
        self.next < self.dirs.len() && self.visiting == 0 && self.held >= self.limit
    }

    /// How many directories are out.
    pub fn visiting(&self) -> (out: usize)
        requires
            self.wf(),
        ensures
            out == self@.visiting(),
    {
        self.visiting
    }

    /// How many directories hold a slot.
    pub fn held(&self) -> (out: usize)
        requires
            self.wf(),
        ensures
            out == self@.held(),
            out <= self@.limit,
    {
        proof {
            lemma_held_by_books(self@, self.parents@, self.open@);
        }
        self.held
    }

    /// How far the search of the directory with this ticket has come.
    /// There is no stage where no directory has the ticket.
    pub fn stage(&self, ticket: usize) -> (out: Option<Stage>)
        requires
            self.wf(),
        ensures
            out == if ticket < self@.stages.len() {
                Some(self@.stages[ticket as int])
            } else {
                None
            },
    {
        if ticket < self.stages.len() {
            Some(self.stages[ticket])
        } else {
            None
        }
    }

    /// The repositories among the directories, in the order in which the
    /// directories became known.
    fn repositories(&self) -> (out: Vec<String>)
        requires
            self.wf(),
        ensures
            texts(out@) == self@.repositories(),
    {
        let mut out: Vec<String> = Vec::new();
        let mut i: usize = 0;
        while i < self.dirs.len()
            invariant
                i <= self.dirs@.len(),
                self.dirs@.len() == self.stages@.len(),
                texts(out@) == repositories_upto(texts(self.dirs@), self.stages@, i as nat),
            decreases self.dirs.len() - i,
        {
            match self.stages[i] {
                Stage::Repository => {
                    let ghost before = texts(out@);
                    out.push(self.dirs[i].clone());
                    proof {
                        assert(texts(out@) == before.push(texts(self.dirs@)[i as int]));
                    }
                },
                _ => {},
            }
            i += 1;
        }
        out
    }

    /// The result of the walk: every repository under the root, once the
    /// walk is done and the root could be read.
    pub fn finish(self) -> (out: Result<Vec<String>, WalkError>)
        requires
            self.wf(),
        ensures
            out is Ok <==> self@.is_done() && !(self@.stages[0] is Unreadable),
            out matches Ok(found) ==> texts(found@) == self@.repositories(),
            out matches Err(e) ==> e == if self@.is_done() {
                WalkError::RootUnreadable
            } else {
                WalkError::Unfinished
            },
    {
        if !self.is_done() {
            return Err(WalkError::Unfinished);
        }
        match self.stages[0] {
            Stage::Unreadable => Err(WalkError::RootUnreadable),
            _ => Ok(self.repositories()),
        }
    }
}

impl WalkerView {
    /// The walk after the first `k` of the given subdirectories of the
    /// directory at `ticket` became known.
    spec fn expanded_by(self, ticket: int, children: Seq<Seq<char>>, k: nat) -> WalkerView
        decreases k,
    {
        if k == 0 {
            self
        } else {
            let before = self.expanded_by(ticket, children, (k - 1) as nat);
            WalkerView {
                paths: before.paths.push(spec_join(self.paths[ticket], children[k - 1])),
                names: before.names.push(self.names[ticket].push(children[k - 1])),
                stages: before.stages.push(Stage::Waiting),
                ..before
            }
        }
    }

    /// The subdirectories that became known one by one are those that
    /// `expanded` adds at once.
    proof fn lemma_expanded_by(self, ticket: int, children: Seq<Seq<char>>, k: nat)
        requires
            k <= children.len(),
        ensures
            self.expanded_by(ticket, children, k) == (WalkerView {
                paths: self.paths + Seq::new(k, |i: int| spec_join(self.paths[ticket], children[i])),
                names: self.names + Seq::new(k, |i: int| self.names[ticket].push(children[i])),
                stages: self.stages + Seq::new(k, |i: int| Stage::Waiting),
                ..self
            }),
        decreases k,
    {
        if k == 0 {
            assert(self.paths + Seq::new(0, |i: int| spec_join(self.paths[ticket], children[i]))
                == self.paths);
            assert(self.names + Seq::new(0, |i: int| self.names[ticket].push(children[i]))
                == self.names);
            assert(self.stages + Seq::new(0, |i: int| Stage::Waiting) == self.stages);
        } else {
            self.lemma_expanded_by(ticket, children, (k - 1) as nat);
            let j = (k - 1) as nat;
            assert(self.paths + Seq::new(k, |i: int| spec_join(self.paths[ticket], children[i])) == (
            self.paths + Seq::new(j, |i: int| spec_join(self.paths[ticket], children[i]))).push(
                spec_join(self.paths[ticket], children[k - 1]),
            ));
            assert(self.names + Seq::new(k, |i: int| self.names[ticket].push(children[i])) == (
            self.names + Seq::new(j, |i: int| self.names[ticket].push(children[i]))).push(
                self.names[ticket].push(children[k - 1]),
            ));
            assert(self.stages + Seq::new(k, |i: int| Stage::Waiting) == (self.stages + Seq::new(
                j,
                |i: int| Stage::Waiting,
            )).push(Stage::Waiting));
        }
    }

    /// Once every subdirectory has become known, the walk is the one that
    /// `expanded` gives for the directory, whose stage was set before.
    proof fn lemma_expanded_by_all(self, ticket: int, children: Seq<Seq<char>>)
        requires
            0 <= ticket < self.stages.len(),
        ensures
            self.expanded_by(ticket, children, children.len()).stages == self.stages + Seq::new(
                children.len(),
                |i: int| Stage::Waiting,
            ),
            self.expanded_by(ticket, children, children.len()).paths == self.paths + Seq::new(
                children.len(),
                |i: int| spec_join(self.paths[ticket], children[i]),
            ),
            self.expanded_by(ticket, children, children.len()).names == self.names + Seq::new(
                children.len(),
                |i: int| self.names[ticket].push(children[i]),
            ),
            self.expanded_by(ticket, children, children.len()).limit == self.limit,
            self.expanded_by(ticket, children, children.len()).next == self.next,
    {
        self.lemma_expanded_by(ticket, children, children.len());
    }
}

/// How the repositories under a root are got.
pub enum Search {
    /// From the record of an earlier run: no directory is read.
    Cached(Vec<String>),
    /// By a walk from the root.
    Walk(Walker),
}

/// Decides how the repositories under `root` are got. Where the record
/// may be trusted its paths are taken and nothing is searched; else a walk
/// is set up, of which only the root is known. `current_mtime_secs` is the
/// time of the root's last modification and `content` the text of the
/// record; either is missing where it could not be read.
pub fn begin(
    root: String,
    limit: usize,
    refresh: bool,
    current_mtime_secs: Option<u64>,
    content: Option<String>,
) -> (out: Search)
    ensures
        match spec_lookup(refresh, current_mtime_secs, opt_text(content)) {
            Some(repo_paths) => out matches Search::Cached(found) && texts(found@) == repo_paths,
            None => out matches Search::Walk(walker) && walker.wf() && walker@.visiting() == 0
                && walker@.held() == 0 && walker@ == (WalkerView {
                limit: limit as nat,
                paths: seq![root@],
                names: seq![Seq::<Seq<char>>::empty()],
                stages: seq![Stage::Waiting],
                next: 0,
            }),
        },
{
    match lookup(refresh, current_mtime_secs, content) {
        Some(found) => Search::Cached(found),
        None => Search::Walk(Walker::new(root, limit)),
    }
}

/// The names that lead to a directory of a walk are components.
pub proof fn lemma_names_are_components(v: WalkerView, i: int)
    requires
        v.wf(),
        0 <= i < v.paths.len(),
    ensures
        are_components(v.names[i]),
{
    assert forall|k: int| 0 <= k < v.names[i].len() implies is_component(
        #[trigger] v.names[i][k],
    ) by {}
}

/// No repository of a walk lies inside another, and no two are the same
/// directory: the search stops where it finds a repository.
pub proof fn lemma_repositories_not_nested(v: WalkerView, i: int, j: int)
    requires
        v.wf(),
        0 <= i < v.paths.len(),
        0 <= j < v.paths.len(),
        i != j,
        v.stages[i] is Repository,
        v.stages[j] is Repository,
    ensures
        !v.names[i].is_prefix_of(v.names[j]),
        v.paths[i] != v.paths[j],
        !is_inside(v.paths[i], v.paths[j]),
{
    let root = v.root();
    let a = v.names[i];
    let b = v.names[j];
    assert(is_live(v.stages[i]) && is_live(v.stages[j]));
    assert(!a.is_prefix_of(b));
    lemma_names_are_components(v, i);
    lemma_names_are_components(v, j);
    assert(v.paths[i] == path_of(root, a));
    assert(v.paths[j] == path_of(root, b));
    if v.paths[i] == v.paths[j] {
        lemma_path_of_injective(root, a, b);
        assert(a.is_prefix_of(b));
    }
    if is_inside(v.paths[i], v.paths[j]) {
        let down = choose|names: Seq<Seq<char>>|
            names.len() > 0 && are_components(names) && v.paths[j] == #[trigger] path_of(
                v.paths[i],
                names,
            );
        lemma_path_of_concat(root, a, down);
        assert forall|k: int| 0 <= k < (a + down).len() implies is_component(
            #[trigger] (a + down)[k],
        ) by {
            if k < a.len() {
                assert((a + down)[k] == a[k]);
            } else {
                assert((a + down)[k] == down[k - a.len()]);
            }
        }
        lemma_path_of_injective(root, a + down, b);
        assert(a.is_prefix_of(a + down));
    }
}

/// No directory on the way from the root to a directory that the walk
/// knows of has a name that is skipped; so none on the way to a repository
/// has. Whichever names lead from the root to the path of that directory,
/// none of them is skipped.
pub proof fn lemma_no_skipped_ancestor(v: WalkerView, i: int, names: Seq<Seq<char>>, k: int)
    requires
        v.wf(),
        0 <= i < v.paths.len(),
        are_components(names),
        v.paths[i] == path_of(v.root(), names),
        0 <= k < names.len(),
    ensures
        names == v.names[i],
        !is_skipped(names[k]),
{
    lemma_names_are_components(v, i);
    lemma_path_of_injective(v.root(), names, v.names[i]);
}

/// Once a walk is done, every directory that it knows of was looked
/// into: each is a repository, or was searched, or could not be read.
pub proof fn lemma_done_is_settled(v: WalkerView, i: int)
    requires
        v.wf(),
        v.is_done(),
        0 <= i < v.paths.len(),
    ensures
        v.stages[i] is Repository || v.stages[i] is Searched || v.stages[i] is Unreadable,
{
    lemma_count_zero(v.stages);
    assert(!(v.stages[i] is Waiting));
    assert(!(v.stages[i] is Visiting));
}

/// Once a walk is done no directory holds a slot: the report that
/// settles the last directory below a directory frees its slot too.
pub proof fn lemma_done_holds_nothing(v: WalkerView)
    requires
        v.is_tree(),
        v.is_done(),
    ensures
        v.held() == 0,
{
    lemma_count_zero(v.stages);
    assert forall|i: int| 0 <= i < v.stages.len() implies !#[trigger] v.slot_holders()(i) by {
        if v.is_busy(i) {
            let j = choose|j: int| v.has_unsettled_at(i, j);
            assert(!(v.stages[j] is Waiting));
            assert(!(v.stages[j] is Visiting));
        }
    }
    lemma_count_more(0, v.stages.len(), v.slot_holders());
}

/// At most as many directories hold a slot as the limit allows.
pub proof fn lemma_bounded(v: WalkerView)
    requires
        v.wf(),
    ensures
        v.held() <= v.limit,
{
}

/// A walk that has stalled stays as it is: it is not done, nothing is
/// handed out, and no report is awaited.
pub proof fn lemma_stalled(v: WalkerView, ticket: int)
    requires
        v.wf(),
        v.is_stalled(),
        0 <= ticket < v.paths.len(),
    ensures
        !v.is_done(),
        !(v.next < v.paths.len() && v.held() < v.limit),
        !(v.stages[ticket] is Visiting),
{
    lemma_count_zero(v.stages);
}

/// The repositories among the first `n` directories are the paths of
/// those whose stage says so, and none of them is listed twice.
pub proof fn lemma_repositories_upto(v: WalkerView, n: nat)
    requires
        v.wf(),
        n <= v.paths.len(),
    ensures
        forall|x: Seq<char>|
            #[trigger] repositories_upto(v.paths, v.stages, n).contains(x) <==> exists|i: int|
                0 <= i < n && v.stages[i] is Repository && #[trigger] v.paths[i] == x,
        repositories_upto(v.paths, v.stages, n).no_duplicates(),
    decreases n,
{
    let now = repositories_upto(v.paths, v.stages, n);
    if n == 0 {
    } else {
        let m = (n - 1) as nat;
        let before = repositories_upto(v.paths, v.stages, m);
        lemma_repositories_upto(v, m);
        if v.stages[n - 1] is Repository {
            let last = v.paths[n - 1];
            assert(now == before.push(last));
            assert forall|x: Seq<char>| #[trigger] now.contains(x) <==> exists|i: int|
                0 <= i < n && v.stages[i] is Repository && #[trigger] v.paths[i] == x by {
                if now.contains(x) {
                    let at = choose|at: int| 0 <= at < now.len() && now[at] == x;
                    if at < before.len() {
                        assert(before[at] == x);
                        assert(before.contains(x));
                    } else {
                        assert(v.paths[n - 1] == x);
                    }
                }
                if exists|i: int| 0 <= i < n && v.stages[i] is Repository && #[trigger] v.paths[i]
                    == x {
                    let i = choose|i: int|
                        0 <= i < n && v.stages[i] is Repository && #[trigger] v.paths[i] == x;
                    if i < m {
                        assert(before.contains(x));
                        let at = choose|at: int| 0 <= at < before.len() && before[at] == x;
                        assert(now[at] == x);
                    } else {
                        assert(now[before.len() as int] == x);
                    }
                }
            }
            if before.contains(last) {
                let i = choose|i: int|
                    0 <= i < m && v.stages[i] is Repository && #[trigger] v.paths[i] == last;
                lemma_repositories_not_nested(v, i, n - 1);
            }
            assert forall|p: int, q: int| 0 <= p < now.len() && 0 <= q < now.len() && p != q implies now[p]
                != now[q] by {
                if p < before.len() && q < before.len() {
                    assert(before[p] != before[q]);
                } else if p < before.len() {
                    assert(before.contains(before[p]));
                } else {
                    assert(before.contains(before[q]));
                }
            }
        } else {
            assert(now == before);
            assert forall|x: Seq<char>| #[trigger] now.contains(x) <==> exists|i: int|
                0 <= i < n && v.stages[i] is Repository && #[trigger] v.paths[i] == x by {
                if exists|i: int| 0 <= i < n && v.stages[i] is Repository && #[trigger] v.paths[i]
                    == x {
                    let i = choose|i: int|
                        0 <= i < n && v.stages[i] is Repository && #[trigger] v.paths[i] == x;
                    assert(i < m);
                }
            }
        }
    }
}

/// The list of the repositories of a walk names each directory that was
/// found to be one, names no other, and names none twice.
pub proof fn lemma_repositories(v: WalkerView)
    requires
        v.wf(),
    ensures
        forall|x: Seq<char>|
            #[trigger] v.repositories().contains(x) <==> exists|i: int|
                0 <= i < v.paths.len() && v.stages[i] is Repository && #[trigger] v.paths[i] == x,
        v.repositories().no_duplicates(),
{
    lemma_repositories_upto(v, v.paths.len());
}

} // verus!
