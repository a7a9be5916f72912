use fuzzit::git_data::GitData;
use fuzzit::status::{classify, classify_listed, display, Line, RepoState, BANNER};

fn state(status: &str, diff: &str) -> GitData {
    GitData { status: status.to_string(), diff: diff.to_string() }
}

#[test]
fn clean_repository() {
    let data = state("On branch main\nnothing to commit, working tree clean\n", "");
    assert_eq!(classify(&data), RepoState::Clean);
    assert_eq!(classify_listed(&data), RepoState::Clean);
}

#[test]
fn settled_with_a_diff_is_not_pushed() {
    let data = state("nothing to commit, working tree clean", "diff --git a/x b/x\n");
    assert_eq!(classify(&data), RepoState::NotPushed);
    assert_eq!(classify_listed(&data), RepoState::Clean);
}

#[test]
fn ahead_is_not_pushed() {
    let data = state(
        "Your branch is ahead of 'origin/main' by 1 commit.\nnothing to commit, working tree clean",
        "",
    );
    assert_eq!(classify(&data), RepoState::NotPushed);
    assert_eq!(classify_listed(&data), RepoState::NotPushed);
    assert_eq!(classify(&state("have diverged", "")), RepoState::NotPushed);
}

#[test]
fn unstaged_changes() {
    let data = state("Changes not staged\nno changes added to commit", "x");
    assert_eq!(classify(&data), RepoState::NotAdded);
    assert_eq!(classify_listed(&data), RepoState::NotAdded);
}

#[test]
fn untracked_counts_in_the_summary_only() {
    let data = state("nothing added to commit but untracked files present", "");
    assert_eq!(classify(&data), RepoState::NotAdded);
    assert_eq!(classify_listed(&data), RepoState::Unknown);
}

#[test]
fn staged_changes() {
    let data = state("Changes to be committed:\n  new file: x", "");
    assert_eq!(classify(&data), RepoState::NotCommitted);
    assert_eq!(classify_listed(&data), RepoState::NotCommitted);
}

#[test]
fn unstaged_comes_before_staged() {
    let data = state("Changes to be committed:\nno changes added to commit", "");
    assert_eq!(classify(&data), RepoState::NotAdded);
    let data = state("Changes to be committed:\nYour branch is ahead", "");
    assert_eq!(classify(&data), RepoState::NotCommitted);
}

#[test]
fn unknown_status() {
    assert_eq!(classify(&state("", "")), RepoState::Unknown);
    assert_eq!(classify(&state("fatal: not a git repository", "x")), RepoState::Unknown);
    assert_eq!(classify_listed(&state("", "")), RepoState::Unknown);
}

#[test]
fn labels() {
    assert_eq!(RepoState::Clean.label(), "CLEAN");
    assert_eq!(RepoState::NotAdded.label(), "DIRTY (changes not added)");
    assert_eq!(RepoState::NotCommitted.label(), "DIRTY (changes added, not committed)");
    assert_eq!(RepoState::NotPushed.label(), "DIRTY (changes committed, not pushed)");
    assert_eq!(RepoState::Unknown.label(), "UNKNOWN");
}

#[test]
fn summary_without_repositories() {
    let lines = display("/r".to_string(), true, vec![]);
    assert_eq!(lines.len(), 2);
    assert!(matches!(lines[0], Line::NoRepositories));
    assert!(matches!(lines[1], Line::Hint));
    assert_eq!(lines[0].text(), "Could not find any git repos from provided path");
    assert_eq!(
        lines[1].text(),
        "Make sure to add FUZZIT_BASE_PATH to your environment (ex: ~/.zshrc) or use FUZZIT_PATH before command"
    );
    assert_eq!(lines[0].state(), None);
}

#[test]
fn summary_with_banner() {
    let lines = display("/r".to_string(), false, vec![]);
    assert_eq!(lines.len(), 3);
    assert!(matches!(lines[0], Line::Banner));
    assert_eq!(lines[0].text(), BANNER);
    assert!(BANNER.starts_with("\n ________"));
    assert_eq!(BANNER.lines().count(), 8);
}

#[test]
fn summary_lists_each_repository() {
    let data = vec![
        ("a".to_string(), state("nothing to commit", "")),
        ("b/c".to_string(), state("no changes added to commit", "d")),
        ("d".to_string(), state("??", "")),
    ];
    let lines = display("~/code".to_string(), true, data);
    assert_eq!(lines.len(), 4);
    assert_eq!(lines[0].text(), "Iterating git repos from ~/code\n");
    assert_eq!(lines[1].text(), "a .. ");
    assert_eq!(lines[1].state(), Some(RepoState::Clean));
    assert_eq!(lines[2].text(), "b/c .. ");
    assert_eq!(lines[2].state(), Some(RepoState::NotAdded));
    assert_eq!(lines[3].text(), "d .. ");
    assert_eq!(lines[3].state(), Some(RepoState::Unknown));
}
