//! What the status of a repository means, and the summary of all
//! repositories, one line each.

use vstd::prelude::*;

use crate::git_data::GitData;
use crate::text::{chars_of, contains, contains_chars};

verus! {

/// What is left to do in a repository.
#[derive(Debug, Clone, Copy, PartialEq, Eq, Structural)]
pub enum RepoState {
    /// Nothing.
    Clean,
    /// Changes that were not added.
    NotAdded,
    /// Changes that were added and not committed.
    NotCommitted,
    /// Commits that were not pushed.
    NotPushed,
    /// The status text holds none of the known phrases.
    Unknown,
}

/// One line of the summary.
#[derive(Debug)]
pub enum Line {
    /// The name of the program, drawn in characters.
    Banner,
    /// No repository was found.
    NoRepositories,
    /// How to say where to search.
    Hint,
    /// The directory that was searched.
    Heading(String),
    /// A repository, by the path under which it is shown, and its state.
    Repository(String, RepoState),
}

/// The name of the program, drawn in characters.
pub const BANNER: &'static str = r#"
 ________ ___  ___  ________  ________  ___  _________   
|\  _____\\  \|\  \|\_____  \|\_____  \|\  \|\___   ___\ 
\ \  \__/\ \  \\\  \\|___/  /|\|___/  /\ \  \|___ \  \_| 
 \ \   __\\ \  \\\  \   /  / /    /  / /\ \  \   \ \  \  
  \ \  \_| \ \  \\\  \ /  /_/__  /  /_/__\ \  \   \ \  \ 
   \ \__\   \ \_______\\________\\________\ \__\   \ \__\
    \|__|    \|_______|\|_______|\|_______|\|__|    \|__|
"#;

/// The status text says that nothing is left to commit and does not say
/// that the branch is ahead of its upstream.
pub open spec fn is_settled(status: Seq<char>) -> bool {
    contains(status, "nothing to commit"@) && !contains(status, "branch is ahead"@)
}

/// The status text says that commits wait to be pushed.
pub open spec fn is_ahead(status: Seq<char>) -> bool {
    contains(status, "branch is ahead"@) || contains(status, "diverged"@)
}

/// The state that the summary gives a repository. A settled repository
/// whose diff against its upstream is not empty holds commits that were
/// not pushed. The phrases are tried in this order: changes not added,
/// among them untracked files; changes added; commits not pushed.
pub open spec fn spec_classify(status: Seq<char>, diff: Seq<char>) -> RepoState {
    if is_settled(status) {
        if diff.len() == 0 {
            RepoState::Clean
        } else {
            RepoState::NotPushed
        }
    } else if contains(status, "no changes added to commit"@) || contains(status, "untracked"@) {
        RepoState::NotAdded
    } else if contains(status, "Changes to be committed"@) {
        RepoState::NotCommitted
    } else if is_ahead(status) {
        RepoState::NotPushed
    } else {
        RepoState::Unknown
    }
}

/// The state that the list of repositories gives a repository: by the
/// status text alone, and without a look at untracked files.
pub open spec fn spec_classify_listed(status: Seq<char>) -> RepoState {
    if is_settled(status) {
        RepoState::Clean
    } else if contains(status, "no changes added to commit"@) {
        RepoState::NotAdded
    } else if contains(status, "Changes to be committed"@) {
        RepoState::NotCommitted
    } else if is_ahead(status) {
        RepoState::NotPushed
    } else {
        RepoState::Unknown
    }
}

/// Whether the text holds the phrase.
fn holds(text: &Vec<char>, phrase: &str) -> (found: bool)
    ensures
        found == contains(text@, phrase@),
{
    let phrase = chars_of(phrase);
    contains_chars(text.as_slice(), phrase.as_slice())
}

/// The state that the summary gives a repository.
pub fn classify(data: &GitData) -> (state: RepoState)
    ensures
        state == spec_classify(data.status@, data.diff@),
{
    let status = chars_of(data.status.as_str());
    let ahead = holds(&status, "branch is ahead");
    if holds(&status, "nothing to commit") && !ahead {
        if data.diff.as_str().is_empty() {
            RepoState::Clean
        } else {
            RepoState::NotPushed
        }
    } else if holds(&status, "no changes added to commit") || holds(&status, "untracked") {
        RepoState::NotAdded
    } else if holds(&status, "Changes to be committed") {
        RepoState::NotCommitted
    } else if ahead || holds(&status, "diverged") {
        RepoState::NotPushed
    } else {
        RepoState::Unknown
    }
}

/// The state that the list of repositories gives a repository.
pub fn classify_listed(data: &GitData) -> (state: RepoState)
    ensures
        state == spec_classify_listed(data.status@),
{
    let status = chars_of(data.status.as_str());
    let ahead = holds(&status, "branch is ahead");
    if holds(&status, "nothing to commit") && !ahead {
        RepoState::Clean
    } else if holds(&status, "no changes added to commit") {
        RepoState::NotAdded
    } else if holds(&status, "Changes to be committed") {
        RepoState::NotCommitted
    } else if ahead || holds(&status, "diverged") {
        RepoState::NotPushed
    } else {
        RepoState::Unknown
    }
}

impl RepoState {
    /// The words that stand for the state.
    pub fn label(&self) -> (out: &'static str)
        ensures
            out@ == match *self {
                RepoState::Clean => "CLEAN"@,
                RepoState::NotAdded => "DIRTY (changes not added)"@,
                RepoState::NotCommitted => "DIRTY (changes added, not committed)"@,
                RepoState::NotPushed => "DIRTY (changes committed, not pushed)"@,
                RepoState::Unknown => "UNKNOWN"@,
            },
    {
        match self {
            RepoState::Clean => "CLEAN",
            RepoState::NotAdded => "DIRTY (changes not added)",
            RepoState::NotCommitted => "DIRTY (changes added, not committed)",
            RepoState::NotPushed => "DIRTY (changes committed, not pushed)",
            RepoState::Unknown => "UNKNOWN",
        }
    }
}

impl Line {
    /// The words of the line, before its state where it names a repository.
    pub open spec fn spec_text(self) -> Seq<char> {
        match self {
            Line::Banner => BANNER@,
            Line::NoRepositories => "Could not find any git repos from provided path"@,
            Line::Hint => "Make sure to add FUZZIT_BASE_PATH to your environment (ex: ~/.zshrc) or use FUZZIT_PATH before command"@,
            Line::Heading(base_path) => "Iterating git repos from "@ + base_path@ + "\n"@,
            Line::Repository(repo_path, _) => repo_path@ + " .. "@,
        }
    }

    /// The state that the line closes with, where it names a repository.
    pub open spec fn spec_state(self) -> Option<RepoState> {
        match self {
            Line::Repository(_, state) => Some(state),
            _ => None,
        }
    }

    /// The words of the line, before its state where it names a repository.
    pub fn text(&self) -> (out: String)
        ensures
            out@ == self.spec_text(),
    {
        match self {
            Line::Banner => BANNER.to_owned(),
            Line::NoRepositories => "Could not find any git repos from provided path".to_owned(),
            Line::Hint => "Make sure to add FUZZIT_BASE_PATH to your environment (ex: ~/.zshrc) or use FUZZIT_PATH before command".to_owned(),
            Line::Heading(base_path) => {
                let mut out = "Iterating git repos from ".to_owned();
                out.append(base_path.as_str());
                out.append("\n");
                out
            },
            Line::Repository(repo_path, _) => {
                let mut out = repo_path.clone();
                out.append(" .. ");
                out
            },
        }
    }

    /// The state that the line closes with, where it names a repository.
    pub fn state(&self) -> (out: Option<RepoState>)
        ensures
            out == self.spec_state(),
    {
        match self {
            Line::Repository(_, state) => Some(*state),
            _ => None,
        }
    }
}

/// The lines of the summary after the banner: where there is no repository,
/// two lines that say so; else a heading and one line for each repository.
pub open spec fn is_summary(
    lines: Seq<Line>,
    base_path: Seq<char>,
    git_data: Seq<(String, GitData)>,
) -> bool {
    if git_data.len() == 0 {
        lines.len() == 2 && lines[0] is NoRepositories && lines[1] is Hint
    } else {
        &&& lines.len() == git_data.len() + 1
        &&& lines[0] matches Line::Heading(shown) && shown@ == base_path
        &&& forall|i: int|
            0 <= i < git_data.len() ==> (#[trigger] lines[i + 1] matches Line::Repository(
                repo_path,
                state,
            ) && repo_path@ == git_data[i].0@ && state == spec_classify(
                git_data[i].1.status@,
                git_data[i].1.diff@,
            ))
    }
}

/// The summary of the repositories found under `base_path`, line by line.
/// The banner comes first unless it is switched off.
pub fn display(base_path: String, disable_ascii_art: bool, git_data: Vec<(String, GitData)>) -> (out:
    Vec<Line>)
    ensures
        disable_ascii_art ==> is_summary(out@, base_path@, git_data@),
        !disable_ascii_art ==> out@.len() > 0 && out@[0] is Banner && is_summary(
            out@.skip(1),
            base_path@,
            git_data@,
        ),
{
    let mut out: Vec<Line> = Vec::new();
    if !disable_ascii_art {
        out.push(Line::Banner);
    }
    let ghost head = out@;
    if git_data.len() == 0 {
        out.push(Line::NoRepositories);
        out.push(Line::Hint);
        proof {
            assert(out@.skip(head.len() as int) == seq![Line::NoRepositories, Line::Hint]);
        }
        return out;
    }
    out.push(Line::Heading(base_path));
    let ghost start = out@;
    for entry in it: git_data
        invariant
            it.seq() == git_data@,
            out@.len() == start.len() + it.index(),
            start.len() == head.len() + 1,
            out@.take(start.len() as int) == start,
            forall|k: int|
                0 <= k < it.index() ==> (#[trigger] out@[start.len() + k] matches Line::Repository(
                    repo_path,
                    state,
                ) && repo_path@ == git_data@[k].0@ && state == spec_classify(
                    git_data@[k].1.status@,
                    git_data@[k].1.diff@,
                )),
    {
        let ghost before = out@;
        let state = classify(&entry.1);
        out.push(Line::Repository(entry.0, state));
        proof {
            assert(out@.take(start.len() as int) == before.take(start.len() as int));
        }
    }
    proof {
        let lines = out@.skip(head.len() as int);
        assert(out@[head.len() as int] == out@.take(start.len() as int)[head.len() as int]);
        assert(lines[0] == start[head.len() as int]);
        assert forall|k: int| 0 <= k < git_data@.len() implies (#[trigger] lines[k + 1]
            matches Line::Repository(repo_path, state) && repo_path@ == git_data@[k].0@ && state
            == spec_classify(git_data@[k].1.status@, git_data@[k].1.diff@)) by {
            assert(lines[k + 1] == out@[start.len() + k]);
        }
        assert(is_summary(lines, base_path@, git_data@));
        if disable_ascii_art {
            assert(lines == out@);
        } else {
            assert(out@[0] == out@.take(start.len() as int)[0]);
        }
    }
    out
}

} // verus!
