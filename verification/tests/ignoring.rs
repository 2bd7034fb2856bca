use openbolt::ignore::build_globset;
use openbolt::ignore::ignores;
use openbolt::ignore::relative_or_self;
use openbolt::ignore::should_ignore_path;
use openbolt::sync_engine::preview::preview_ignore_patterns;

fn strings(items: &[&str]) -> Vec<String> {
    items.iter().map(|s| s.to_string()).collect()
}

#[test]
fn no_patterns_ignore_nothing() {
    let none = strings(&[]);
    assert!(build_globset(&none).is_none());
    assert!(!should_ignore_path("/root", "/root/a.tmp", &none, None));
    let blank = strings(&["", "  "]);
    assert!(build_globset(&blank).is_none());
    assert!(!should_ignore_path("/root", "/root/a.tmp", &blank, None));
}

#[test]
fn globs_and_fragments_ignore() {
    let patterns = strings(&["*.TMP", " node_modules "]);
    let set = build_globset(&patterns);
    assert!(set.is_some());
    assert!(should_ignore_path("/root", "/root/x/A.tmp", &patterns, set.as_ref()));
    assert!(should_ignore_path("/root", "/root/web/Node_Modules/a.js", &patterns, set.as_ref()));
    assert!(!should_ignore_path("/root", "/root/a.txt", &patterns, set.as_ref()));
    assert!(!should_ignore_path("/root", "/root/x/a.tmp", &patterns, None));
}

#[test]
fn a_pattern_that_is_no_glob_is_still_a_fragment() {
    let patterns = strings(&["a[b"]);
    assert!(build_globset(&patterns).is_none());
    assert!(should_ignore_path("/root", "/root/xa[bx", &patterns, None));
}

#[test]
fn only_the_part_below_the_folder_counts() {
    let patterns = strings(&["sync"]);
    assert!(!should_ignore_path("/home/sync", "/home/sync/a.txt", &patterns, None));
    assert!(!should_ignore_path("/home/sync/", "/home/sync/a.txt", &patterns, None));
    assert!(should_ignore_path("/home/other", "/home/sync/a.txt", &patterns, None));
    assert_eq!(relative_or_self("/home/sync/a/b", "/home/sync"), "a/b");
    assert_eq!(relative_or_self("/home/syncer/a", "/home/sync"), "/home/syncer/a");
    assert_eq!(relative_or_self("/home/sync", "/home/sync"), "");
}

#[test]
fn case_and_slashes_do_not_matter() {
    let patterns = strings(&["Build/Out"]);
    assert!(ignores("x\\BUILD\\out\\y", &patterns, None));
    assert!(ignores("x/build/OUT", &patterns, None));
    assert!(!ignores("x/build-out", &patterns, None));
}

#[test]
fn preview_shows_what_is_left_out() {
    let mut preview = preview_ignore_patterns("/r".to_string(), strings(&["*.log", "Skip"]), true)
        .ok()
        .expect("the folder exists");
    assert_eq!(preview.next_folder().as_deref(), Some("/r"));
    assert!(preview.see("/r/A.log".to_string(), false));
    assert!(preview.see("/r/keep".to_string(), true));
    assert!(preview.see("/r/skip".to_string(), true));
    assert!(preview.see("/r/a.txt".to_string(), false));
    assert_eq!(preview.next_folder().as_deref(), Some("/r/keep"));
    assert!(preview.see("/r/keep/b.log".to_string(), false));
    assert_eq!(preview.next_folder(), None);
    let shown = preview.finish();
    assert_eq!(shown, vec!["A.log", "skip", "keep/b.log"]);
    for (i, a) in shown.iter().enumerate() {
        for b in &shown[i + 1..] {
            assert!(a != b && !a.starts_with(&format!("{b}/")) && !b.starts_with(&format!("{a}/")));
        }
    }
}

#[test]
fn preview_stops_at_its_limit() {
    let mut preview = preview_ignore_patterns("/r".to_string(), strings(&["x"]), true)
        .ok()
        .expect("the folder exists");
    for i in 0..199 {
        assert!(preview.see(format!("/r/x{i}"), false));
    }
    assert!(!preview.see("/r/x199".to_string(), false));
    assert_eq!(preview.finish().len(), 200);
}

#[test]
fn preview_needs_a_folder() {
    let err = preview_ignore_patterns("/r".to_string(), strings(&["x"]), false).err().unwrap();
    assert_eq!(
        openbolt::error::to_err(err),
        "external command failed: directory does not exist"
    );
}

#[test]
fn texts_and_extensions_always_make_a_set() {
    assert!(build_globset(&strings(&["Thumbs.DB"])).is_some());
    assert!(build_globset(&strings(&["*."])).is_some());
    assert!(build_globset(&strings(&["a,b]!"])).is_some());
    let mixed = strings(&[" ", "a[b", " *.Log ", "x/y"]);
    let set = build_globset(&mixed);
    assert!(set.is_some());
    assert!(ignores("deep/a.log", &mixed, set.as_ref()));
    assert!(!ignores("deep/a.logs", &mixed, set.as_ref()));
}

#[test]
fn groups_that_are_too_deep_are_no_glob() {
    let deep = format!("{}a{}", "{".repeat(20_000), "}".repeat(20_000));
    assert!(build_globset(&vec![deep.clone()]).is_none());
    assert!(ignores(&deep, &vec![deep.clone()], None));
    let mixed = vec![deep, "*.log".to_string()];
    let set = build_globset(&mixed);
    assert!(ignores("a.log", &mixed, set.as_ref()));
    let hidden = format!("{}a{}", "{[}]".repeat(300), "}".repeat(300));
    assert!(build_globset(&vec![hidden]).is_none());
    let wide = "{a,b}".repeat(300);
    let set = build_globset(&vec![wide.clone()]);
    assert!(ignores(&"ab".repeat(150), &vec![wide], set.as_ref()));
    let classes = "[{]{a,b}[}]".repeat(250);
    let set = build_globset(&vec![classes.clone()]);
    assert!(ignores(&"{a}".repeat(250), &vec![classes], set.as_ref()));
    let some = format!("{}a{}", "{".repeat(100), "}".repeat(100));
    let set = build_globset(&vec![some.clone()]);
    assert!(ignores("a", &vec![some], set.as_ref()));
}

#[test]
fn texts_and_extensions_match_as_they_say() {
    let patterns = strings(&["*.TXT"]);
    let set = build_globset(&patterns);
    for (rel, left_out) in [("a.txt", true), ("x/.txt", true), ("a.txt/b", false), ("txt", false)] {
        assert_eq!(ignores(rel, &patterns, set.as_ref()), left_out, "{rel}");
    }
    let exact = globset_only("a/b");
    assert!(exact("A/b"));
    assert!(!exact("x/a/b"));
}

fn globset_only(pattern: &str) -> impl Fn(&str) -> bool {
    let set = build_globset(&strings(&[pattern]));
    move |rel| ignores(rel, &strings(&["no such fragment"]), set.as_ref())
}
