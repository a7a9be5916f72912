use fuzzit::cache::{
    cache_dir, cache_dir_for, cache_file_name, create_cache, get_cache_path, lookup,
    mtime_matches_cache, parse_u64, resolve_cache_dir,
};

fn strings(v: &[&str]) -> Vec<String> {
    v.iter().map(|s| s.to_string()).collect()
}

fn parse(s: &str) -> Option<u64> {
    parse_u64(&s.chars().collect::<Vec<char>>())
}

#[test]
fn file_name_replaces_separators() {
    assert_eq!(cache_file_name("/home/u/code"), "_home_u_code");
    assert_eq!(cache_file_name("/"), "_");
    assert_eq!(cache_file_name("plain"), "plain");
    assert_eq!(cache_file_name(""), "");
}

#[test]
fn file_name_marks_what_could_be_mistaken() {
    assert_eq!(cache_file_name("C:\\Users\\u"), "C%c%bUsers%bu");
    assert_eq!(cache_file_name("/a_b"), "_a%ub");
    assert_eq!(cache_file_name("50%"), "50%%");
    assert_eq!(cache_file_name("%u"), "%%u");
    assert_eq!(cache_file_name("~/my_code"), "~_my%ucode");
}

#[test]
fn file_name_holds_no_separator() {
    for root in ["/a/b", "a:b\\c/d", "_x_", "~/code", "/", "%/%:", "\\\\host\\share"] {
        let name = cache_file_name(root);
        assert!(!name.contains('/') && !name.contains('\\') && !name.contains(':'), "{}", name);
    }
}

#[test]
fn distinct_roots_have_distinct_files() {
    let roots = [
        "/a/b", "/a_b", "/a:b", "/a\\b", "/a%ub", "/a%b", "/a%%b", "_a_b", "/a/b/", "/a//b", "",
        "/", "_", "%", "%u", "%%", "%_", ":", "\\", "%b", "%c", "a", "/a", "a/",
    ];
    for (i, a) in roots.iter().enumerate() {
        for (j, b) in roots.iter().enumerate() {
            if i != j {
                assert_ne!(cache_file_name(a), cache_file_name(b), "{:?} and {:?}", a, b);
                assert_ne!(get_cache_path("/c", a), get_cache_path("/c", b));
            }
        }
    }
}

#[test]
fn cache_lies_under_the_home_directory() {
    assert_eq!(cache_dir("/home/u"), "/home/u/.cache/fuzzit");
    assert_eq!(cache_dir("/"), "/.cache/fuzzit");
    assert_eq!(
        get_cache_path("/home/u/.cache/fuzzit", "/home/u/code"),
        "/home/u/.cache/fuzzit/_home_u_code"
    );
}

#[test]
fn cache_dir_follows_the_home_directory() {
    assert_eq!(cache_dir_for(Some("/home/u".to_string())), Some("/home/u/.cache/fuzzit".to_string()));
    assert_eq!(cache_dir_for(Some("/home/u/".to_string())), Some("/home/u/.cache/fuzzit".to_string()));
    assert_eq!(cache_dir_for(None), None);
}

#[test]
fn resolved_cache_dir_ends_in_the_fixed_names() {
    if let Some(dir) = resolve_cache_dir() {
        assert!(dir.ends_with(".cache/fuzzit"));
    }
}

#[test]
fn same_root_same_file() {
    assert_eq!(
        get_cache_path("/c", "/home/u/code"),
        get_cache_path("/c", "/home/u/code")
    );
    assert_ne!(get_cache_path("/c", "/home/u/code"), get_cache_path("/c", "/home/u/work"));
}

#[test]
fn record_has_time_then_one_path_per_line() {
    assert_eq!(
        create_cache(1700000000, &strings(&["/r/b", "/r/a"])),
        "1700000000\n/r/b\n/r/a\n"
    );
    assert_eq!(create_cache(0, &strings(&[])), "0\n");
    assert_eq!(create_cache(u64::MAX, &strings(&["x"])), "18446744073709551615\nx\n");
    assert_eq!(create_cache(10, &strings(&[""])), "10\n\n");
}

#[test]
fn numbers_are_read_as_std_reads_them() {
    for text in [
        "0", "7", "42", "007", "+5", "+", "", "-1", "1 ", " 1", "1a", "18446744073709551615",
        "18446744073709551616", "99999999999999999999999", "000000000000000000000000001", "++1",
        "1_000", "٣",
    ] {
        assert_eq!(parse(text), text.parse::<u64>().ok(), "text {:?}", text);
    }
}

#[test]
fn numbers_exact_values() {
    assert_eq!(parse("1700000000"), Some(1700000000));
    assert_eq!(parse("18446744073709551615"), Some(u64::MAX));
    assert_eq!(parse("18446744073709551616"), None);
    assert_eq!(parse("+0"), Some(0));
}

#[test]
fn record_is_found_while_the_time_matches() {
    let paths = strings(&["/r/zeta", "/r/alpha", "/r/mid/x"]);
    let content = create_cache(1234, &paths);
    assert_eq!(mtime_matches_cache(1234, &content), Some(paths.clone()));
    assert_eq!(lookup(false, Some(1234), Some(content)), Some(paths));
}

#[test]
fn record_without_paths_is_found_empty() {
    let content = create_cache(5, &strings(&[]));
    assert_eq!(mtime_matches_cache(5, &content), Some(Vec::<String>::new()));
}

#[test]
fn record_is_not_found_once_the_time_differs() {
    let content = create_cache(1234, &strings(&["/r/a"]));
    assert_eq!(mtime_matches_cache(1235, &content), None);
    assert_eq!(mtime_matches_cache(1233, &content), None);
    assert_eq!(lookup(false, Some(1235), Some(content)), None);
}

#[test]
fn text_that_is_no_record_is_a_miss() {
    assert_eq!(mtime_matches_cache(0, ""), None);
    assert_eq!(mtime_matches_cache(0, "\n/r/a\n"), None);
    assert_eq!(mtime_matches_cache(12, "twelve\n/r/a\n"), None);
    assert_eq!(mtime_matches_cache(12, "12 \n/r/a\n"), None);
    assert_eq!(mtime_matches_cache(12, "-12\n"), None);
}

#[test]
fn record_is_read_as_lines() {
    assert_eq!(mtime_matches_cache(12, "12"), Some(strings(&[])));
    assert_eq!(mtime_matches_cache(12, "12\r\n/r/a\r\n/r/b"), Some(strings(&["/r/a", "/r/b"])));
    assert_eq!(mtime_matches_cache(12, "+12\n\n/r/a\n"), Some(strings(&["", "/r/a"])));
}

#[test]
fn lookup_misses_on_refresh_or_missing_input() {
    let content = || Some(create_cache(9, &strings(&["/r/a"])));
    assert_eq!(lookup(true, Some(9), content()), None);
    assert_eq!(lookup(false, None, content()), None);
    assert_eq!(lookup(false, Some(9), None), None);
    assert_eq!(lookup(false, Some(9), content()), Some(strings(&["/r/a"])));
}

#[test]
fn path_with_a_line_feed_does_not_come_back() {
    let paths = strings(&["/r/a\nb"]);
    let content = create_cache(1, &paths);
    assert_eq!(mtime_matches_cache(1, &content), Some(strings(&["/r/a", "b"])));
}
