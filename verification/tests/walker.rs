use fuzzit::cache::create_cache;
use fuzzit::git_data::{assemble, sort_paths, GitData};
use fuzzit::walker::{
    begin, check_component, check_skipped, keep, Found, Search, Stage, WalkError, Walker,
};

fn strings(v: &[&str]) -> Vec<String> {
    v.iter().map(|s| s.to_string()).collect()
}

fn subdirs(v: &[&str]) -> Found {
    Found::Subdirectories(strings(v))
}

fn skips(name: &str) -> bool {
    check_skipped(&name.chars().collect::<Vec<char>>())
}

fn kept_names(v: &[&str]) -> Vec<String> {
    keep(&strings(v)).iter().map(|n| n.iter().collect()).collect()
}

#[test]
fn hidden_directories_are_skipped() {
    assert!(skips(".cache"));
    assert!(skips(".github"));
    assert!(skips("."));
    assert!(skips(".."));
    assert!(skips(".gitignore"));
    assert!(!skips(".git"));
}

#[test]
fn generated_directories_are_skipped() {
    for name in ["node_modules", "target", "dist", "build"] {
        assert!(skips(name), "{}", name);
    }
    for name in ["src", "targets", "Build", "node_module", "", "dist2", "a.b"] {
        assert!(!skips(name), "{}", name);
    }
    assert!(check_skipped(&['.', 'x']));
}

#[test]
fn components_hold_no_separator() {
    let c = |s: &str| s.chars().collect::<Vec<char>>();
    assert!(check_component(&c("proj-a")));
    assert!(check_component(&c(".git")));
    assert!(!check_component(&c("")));
    assert!(!check_component(&c("a/b")));
    assert!(!check_component(&c("/")));
}

#[test]
fn listing_keeps_what_is_searched() {
    assert_eq!(
        kept_names(&["src", ".git", "node_modules", "docs", ".cache", "target", "src", "a/b", ""]),
        strings(&["src", ".git", "docs"])
    );
    assert_eq!(kept_names(&[]), Vec::<String>::new());
    assert_eq!(kept_names(&["b", "a", "b", "a"]), strings(&["b", "a"]));
}

#[test]
fn new_walk_knows_the_root_only() {
    let mut walker = Walker::new("/r".to_string(), 4);
    assert!(!walker.is_done());
    assert_eq!(walker.visiting(), 0);
    assert_eq!(walker.stage(0), Some(Stage::Waiting));
    assert_eq!(walker.stage(1), None);
    assert_eq!(walker.take_next(), Some((0, "/r".to_string())));
    assert_eq!(walker.stage(0), Some(Stage::Visiting));
    assert_eq!(walker.visiting(), 1);
    assert_eq!(walker.take_next(), None);
}

#[test]
fn root_that_is_a_repository() {
    let mut walker = Walker::new("/r".to_string(), 4);
    let (ticket, _) = walker.take_next().unwrap();
    assert!(walker.report(ticket, Found::Repository));
    assert!(walker.is_done());
    assert_eq!(walker.held(), 0);
    assert_eq!(walker.finish(), Ok(strings(&["/r"])));
}

#[test]
fn unreadable_root_is_fatal() {
    let mut walker = Walker::new("/r".to_string(), 4);
    let (ticket, _) = walker.take_next().unwrap();
    assert!(walker.report(ticket, Found::Unreadable));
    assert!(walker.is_done());
    assert_eq!(walker.finish(), Err(WalkError::RootUnreadable));
}

#[test]
fn unreadable_subdirectory_is_passed_over() {
    let mut walker = Walker::new("/r".to_string(), 4);
    let (root, _) = walker.take_next().unwrap();
    assert!(walker.report(root, subdirs(&["locked", "open"])));
    let (locked, path) = walker.take_next().unwrap();
    assert_eq!(path, "/r/locked");
    let (open, path) = walker.take_next().unwrap();
    assert_eq!(path, "/r/open");
    assert!(walker.report(locked, Found::Unreadable));
    assert!(walker.report(open, Found::Repository));
    assert_eq!(walker.stage(locked), Some(Stage::Unreadable));
    assert!(walker.is_done());
    assert_eq!(walker.finish(), Ok(strings(&["/r/open"])));
}

#[test]
fn search_stops_at_a_repository() {
    // /home/u/code holds proj-a/.git, proj-b/.git and proj-b/vendor/.git
    let mut walker = Walker::new("/home/u/code".to_string(), 8);
    let mut read = Vec::new();
    while let Some((ticket, path)) = walker.take_next() {
        read.push(path.clone());
        let found = match path.as_str() {
            "/home/u/code" => subdirs(&["proj-b", "proj-a"]),
            "/home/u/code/proj-a" => Found::Repository,
            "/home/u/code/proj-b" => Found::Repository,
            other => panic!("{} must not be read", other),
        };
        assert!(walker.report(ticket, found));
    }
    assert!(walker.is_done());
    assert_eq!(read, strings(&["/home/u/code", "/home/u/code/proj-b", "/home/u/code/proj-a"]));
    let found = walker.finish().unwrap();
    let sorted = sort_paths(found);
    let states = sorted
        .iter()
        .map(|_| GitData { status: "s".to_string(), diff: "d".to_string() })
        .collect();
    let result = assemble("/home/u/code", &sorted, states).unwrap();
    let shown: Vec<&str> = result.iter().map(|(p, _)| p.as_str()).collect();
    assert_eq!(shown, vec!["proj-a", "proj-b"]);
}

#[test]
fn skipped_directories_are_never_handed_out() {
    let mut walker = Walker::new("/r".to_string(), 8);
    let (root, _) = walker.take_next().unwrap();
    assert!(walker.report(root, subdirs(&[".hidden", "node_modules", "app", "target", "build", "dist"])));
    let (app, path) = walker.take_next().unwrap();
    assert_eq!(path, "/r/app");
    assert_eq!(walker.take_next(), None);
    assert!(walker.report(app, subdirs(&[".venv", "pkg"])));
    let (pkg, path) = walker.take_next().unwrap();
    assert_eq!(path, "/r/app/pkg");
    assert!(walker.report(pkg, Found::Repository));
    assert!(walker.is_done());
    assert_eq!(walker.finish(), Ok(strings(&["/r/app/pkg"])));
}

#[test]
fn limit_bounds_the_slots_held() {
    let mut walker = Walker::new("/r".to_string(), 3);
    let (root, _) = walker.take_next().unwrap();
    assert!(walker.report(root, subdirs(&["a", "b", "c"])));
    assert_eq!(walker.held(), 1);
    let (a, _) = walker.take_next().unwrap();
    let (b, _) = walker.take_next().unwrap();
    assert_eq!(walker.visiting(), 2);
    assert_eq!(walker.held(), 3);
    assert_eq!(walker.take_next(), None);
    assert!(!walker.is_done());
    assert!(!walker.is_stalled());
    assert!(walker.report(a, Found::Repository));
    assert_eq!(walker.visiting(), 1);
    assert_eq!(walker.held(), 2);
    let (c, path) = walker.take_next().unwrap();
    assert_eq!(path, "/r/c");
    assert_eq!(walker.take_next(), None);
    assert!(walker.report(c, subdirs(&[])));
    assert_eq!(walker.held(), 2);
    assert!(walker.report(b, Found::Repository));
    assert_eq!(walker.held(), 0);
    assert!(walker.is_done());
    assert_eq!(walker.finish(), Ok(strings(&["/r/a", "/r/b"])));
}

#[test]
fn slot_is_kept_while_a_directory_below_waits() {
    let mut walker = Walker::new("/r".to_string(), 8);
    let (root, _) = walker.take_next().unwrap();
    assert_eq!(walker.held(), 1);
    assert!(walker.report(root, subdirs(&["a"])));
    assert_eq!(walker.visiting(), 0);
    assert_eq!(walker.held(), 1);
    assert!(!walker.is_done());
    let (a, _) = walker.take_next().unwrap();
    assert_eq!(walker.held(), 2);
    assert!(walker.report(a, subdirs(&["b", "c"])));
    assert_eq!(walker.held(), 2);
    let (b, path) = walker.take_next().unwrap();
    assert_eq!(path, "/r/a/b");
    let (c, _) = walker.take_next().unwrap();
    assert_eq!(walker.held(), 4);
    assert!(walker.report(b, Found::Unreadable));
    assert_eq!(walker.held(), 3);
    assert!(walker.report(c, Found::Repository));
    assert_eq!(walker.held(), 0);
    assert!(walker.is_done());
    assert_eq!(walker.finish(), Ok(strings(&["/r/a/c"])));
}

#[test]
fn last_report_of_a_subtree_frees_the_slots_above() {
    let mut walker = Walker::new("/r".to_string(), 8);
    let (root, _) = walker.take_next().unwrap();
    assert!(walker.report(root, subdirs(&["deep", "flat"])));
    let (deep, _) = walker.take_next().unwrap();
    let (flat, _) = walker.take_next().unwrap();
    assert!(walker.report(deep, subdirs(&["x"])));
    let (x, _) = walker.take_next().unwrap();
    assert!(walker.report(x, subdirs(&["y"])));
    let (y, path) = walker.take_next().unwrap();
    assert_eq!(path, "/r/deep/x/y");
    assert_eq!(walker.held(), 5);
    assert!(walker.report(y, subdirs(&[".hidden", "target"])));
    assert_eq!(walker.held(), 2);
    assert_eq!(walker.stage(deep), Some(Stage::Searched));
    assert!(!walker.is_done());
    assert!(walker.report(flat, Found::Repository));
    assert_eq!(walker.held(), 0);
    assert!(walker.is_done());
}

#[test]
fn limit_no_greater_than_the_depth_stalls_the_walk() {
    let mut walker = Walker::new("/r".to_string(), 2);
    let (root, _) = walker.take_next().unwrap();
    assert!(!walker.is_stalled());
    assert!(walker.report(root, subdirs(&["a"])));
    assert!(!walker.is_stalled());
    let (a, _) = walker.take_next().unwrap();
    assert!(!walker.is_stalled());
    assert!(walker.report(a, subdirs(&["b"])));
    assert_eq!(walker.held(), 2);
    assert_eq!(walker.visiting(), 0);
    assert_eq!(walker.take_next(), None);
    assert!(walker.is_stalled());
    assert!(!walker.is_done());
    assert!(!walker.report(a, Found::Repository));
    assert_eq!(walker.finish(), Err(WalkError::Unfinished));
}

#[test]
fn wide_tree_stalls_where_every_slot_is_kept() {
    let mut walker = Walker::new("/r".to_string(), 3);
    let (root, _) = walker.take_next().unwrap();
    assert!(walker.report(root, subdirs(&["a", "b", "c"])));
    let (a, _) = walker.take_next().unwrap();
    let (b, _) = walker.take_next().unwrap();
    assert!(walker.report(a, subdirs(&["x"])));
    assert!(!walker.is_stalled());
    assert!(walker.report(b, subdirs(&["y"])));
    assert_eq!(walker.held(), 3);
    assert!(walker.is_stalled());
}

#[test]
fn limit_of_zero_hands_nothing_out() {
    let mut walker = Walker::new("/r".to_string(), 0);
    assert_eq!(walker.take_next(), None);
    assert!(!walker.is_done());
    assert!(walker.is_stalled());
    assert_eq!(walker.finish(), Err(WalkError::Unfinished));
}

#[test]
fn unfinished_walk_has_no_result() {
    let walker = Walker::new("/r".to_string(), 4);
    assert_eq!(walker.finish(), Err(WalkError::Unfinished));
    let mut walker = Walker::new("/r".to_string(), 4);
    let (root, _) = walker.take_next().unwrap();
    assert!(walker.report(root, subdirs(&["a", "b"])));
    let (a, _) = walker.take_next().unwrap();
    assert!(walker.report(a, Found::Repository));
    assert!(!walker.is_done());
    assert_eq!(walker.finish(), Err(WalkError::Unfinished));
}

#[test]
fn report_on_a_directory_that_is_not_out_is_refused() {
    let mut walker = Walker::new("/r".to_string(), 4);
    assert!(!walker.report(0, Found::Repository));
    assert!(!walker.report(7, Found::Repository));
    assert_eq!(walker.stage(0), Some(Stage::Waiting));
    let (root, _) = walker.take_next().unwrap();
    assert!(walker.report(root, subdirs(&["a"])));
    assert!(!walker.report(root, Found::Repository));
    assert_eq!(walker.stage(root), Some(Stage::Searched));
    assert!(!walker.report(1, Found::Repository));
    assert_eq!(walker.stage(1), Some(Stage::Waiting));
}

#[test]
fn reports_may_come_in_any_order() {
    let mut walker = Walker::new("/r/".to_string(), 16);
    let (root, _) = walker.take_next().unwrap();
    assert!(walker.report(root, subdirs(&["x", "y"])));
    let (x, px) = walker.take_next().unwrap();
    let (y, py) = walker.take_next().unwrap();
    assert_eq!((px.as_str(), py.as_str()), ("/r/x", "/r/y"));
    assert!(walker.report(y, subdirs(&["deep"])));
    assert!(walker.report(x, Found::Repository));
    let (deep, path) = walker.take_next().unwrap();
    assert_eq!(path, "/r/y/deep");
    assert!(walker.report(deep, Found::Repository));
    assert_eq!(walker.finish(), Ok(strings(&["/r/x", "/r/y/deep"])));
}

#[test]
fn no_repository_lies_inside_another() {
    let mut walker = Walker::new("/r".to_string(), 64);
    while let Some((ticket, path)) = walker.take_next() {
        let depth = path.matches('/').count();
        let found = if path.ends_with("repo") {
            Found::Repository
        } else if depth < 4 {
            subdirs(&["repo", "more", "repo", ".git", "target"])
        } else {
            subdirs(&[])
        };
        assert!(walker.report(ticket, found));
    }
    let found = walker.finish().unwrap();
    assert_eq!(
        found,
        strings(&["/r/repo", "/r/more/repo", "/r/.git/repo", "/r/more/more/repo",
            "/r/more/.git/repo", "/r/.git/more/repo", "/r/.git/.git/repo"])
    );
    for a in &found {
        for b in &found {
            assert!(a == b || !b.starts_with(&format!("{}/", a)));
        }
        assert!(!a.contains("target"));
    }
}

#[test]
fn fresh_record_spares_the_walk() {
    let paths = strings(&["/r/b", "/r/a"]);
    let content = create_cache(77, &paths);
    match begin("/r".to_string(), 4, false, Some(77), Some(content)) {
        Search::Cached(found) => assert_eq!(found, paths),
        Search::Walk(_) => panic!("the record holds"),
    }
}

#[test]
fn stale_record_forces_a_walk() {
    let content = create_cache(77, &strings(&["/r/a"]));
    match begin("/r".to_string(), 4, false, Some(78), Some(content)) {
        Search::Cached(_) => panic!("the record is stale"),
        Search::Walk(mut walker) => {
            assert_eq!(walker.take_next(), Some((0, "/r".to_string())));
        }
    }
}

#[test]
fn refresh_forces_a_walk() {
    let content = create_cache(77, &strings(&["/r/a"]));
    assert!(matches!(begin("/r".to_string(), 4, true, Some(77), Some(content)), Search::Walk(_)));
    assert!(matches!(begin("/r".to_string(), 4, false, Some(77), None), Search::Walk(_)));
    assert!(matches!(
        begin("/r".to_string(), 4, false, None, Some("77\n".to_string())),
        Search::Walk(_)
    ));
}
