use fuzzit::path::{
    begins_at_home, expand_home, join, push_component, resolve_base_path, resolve_root, RootError,
};

#[test]
fn join_puts_one_separator_between() {
    assert_eq!(join("/home/u", "code"), "/home/u/code");
    assert_eq!(join("/home/u/", "code"), "/home/u/code");
    assert_eq!(join("/", "code"), "/code");
    assert_eq!(join("", "code"), "code");
    assert_eq!(join("/home/u", ""), "/home/u/");
}

#[test]
fn push_component_appends_in_place() {
    let mut dir: Vec<char> = "a/b".chars().collect();
    push_component(&mut dir, &['c']);
    assert_eq!(dir.iter().collect::<String>(), "a/b/c");
}

#[test]
fn explicit_path_comes_first() {
    assert_eq!(
        resolve_base_path(Some("/x".to_string()), Some("/y".to_string())),
        Ok("/x".to_string())
    );
    assert_eq!(resolve_base_path(None, Some("/y".to_string())), Ok("/y".to_string()));
}

#[test]
fn no_path_at_all_is_an_error() {
    assert_eq!(resolve_base_path(None, None), Err(RootError::NoBasePath));
    assert_eq!(resolve_root(None, None), Err(RootError::NoBasePath));
    let message = RootError::NoBasePath.message();
    assert_eq!(
        message,
        "Add FUZZIT_BASE_PATH to your environment (ex: ~/.zshrc) or use FUZZIT_PATH before command"
    );
    assert!(message.contains("FUZZIT_BASE_PATH"));
    assert!(message.contains("FUZZIT_PATH"));
}

#[test]
fn home_error_message() {
    assert_eq!(
        RootError::NoHomeDirectory.message(),
        "Home directory could not be determined, please use full path for FUZZIT_BASE_PATH or FUZZIT_PATH"
    );
}

#[test]
fn tilde_is_a_component_of_its_own() {
    let c = |s: &str| s.chars().collect::<Vec<char>>();
    assert!(begins_at_home(&c("~")));
    assert!(begins_at_home(&c("~/code")));
    assert!(!begins_at_home(&c("~code")));
    assert!(!begins_at_home(&c("/~")));
    assert!(!begins_at_home(&c("")));
}

#[test]
fn expand_home_replaces_the_tilde() {
    let home = || Some("/home/u".to_string());
    assert_eq!(expand_home("~", home()), Ok("/home/u".to_string()));
    assert_eq!(expand_home("~/code", home()), Ok("/home/u/code".to_string()));
    assert_eq!(expand_home("~/code/rust", home()), Ok("/home/u/code/rust".to_string()));
    assert_eq!(expand_home("~/code", Some("/".to_string())), Ok("/code".to_string()));
}

#[test]
fn expand_home_leaves_out_empty_components_and_dots() {
    let home = || Some("/home/u".to_string());
    assert_eq!(expand_home("~//code/", home()), Ok("/home/u/code".to_string()));
    assert_eq!(expand_home("~/./code/./x", home()), Ok("/home/u/code/x".to_string()));
    assert_eq!(expand_home("~/../v", home()), Ok("/home/u/../v".to_string()));
    assert_eq!(expand_home("~/.config", home()), Ok("/home/u/.config".to_string()));
}

#[test]
fn expand_home_agrees_with_std_paths() {
    for path in ["~", "~/a", "~//a//b/", "~/./a/.", "~/a/../b", "~/.x/y"] {
        let mut expected = std::path::PathBuf::from("/home/u");
        let given = std::path::PathBuf::from(path);
        let mut components = given.components();
        components.next();
        expected.extend(components);
        assert_eq!(
            expand_home(path, Some("/home/u".to_string())),
            Ok(expected.display().to_string()),
            "path {:?}",
            path
        );
    }
}

#[test]
fn other_paths_are_kept() {
    assert_eq!(expand_home("/srv/code", None), Ok("/srv/code".to_string()));
    assert_eq!(expand_home("~code", None), Ok("~code".to_string()));
    assert_eq!(expand_home("rel//x/", Some("/h".to_string())), Ok("rel//x/".to_string()));
    assert_eq!(expand_home("", None), Ok("".to_string()));
}

#[test]
fn tilde_without_home_is_an_error() {
    assert_eq!(expand_home("~/code", None), Err(RootError::NoHomeDirectory));
    assert_eq!(expand_home("~", None), Err(RootError::NoHomeDirectory));
}

#[test]
fn resolve_root_keeps_the_given_path_as_label() {
    assert_eq!(
        resolve_root(Some("/srv/code".to_string()), None),
        Ok(("/srv/code".to_string(), "/srv/code".to_string()))
    );
    assert_eq!(
        resolve_root(None, Some("/srv/base".to_string())),
        Ok(("/srv/base".to_string(), "/srv/base".to_string()))
    );
}

#[test]
fn resolve_root_expands_a_tilde_or_fails() {
    match resolve_root(Some("~/code".to_string()), None) {
        Ok((base, root)) => {
            assert_eq!(base, "~/code");
            assert!(root.ends_with("code"));
            assert!(!root.starts_with('~'));
        }
        Err(e) => assert_eq!(e, RootError::NoHomeDirectory),
    }
}
