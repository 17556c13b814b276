use picker_hook::filter::{everything_search_terms, pattern_accepts, strip_star_dot};
use picker_hook::matches_filter;
use picker_hook::walk::{
    choose_es, es_candidates, drive_parts, es_from_where_output, everything_args, tree_from_everything, tree_from_walk,
    walk_admits, winget_es_path, WalkEntry,
};
use picker_hook::Node;

fn strings(v: &[&str]) -> Vec<String> {
    v.iter().map(|s| s.to_string()).collect()
}

#[test]
fn matches_filter_compares_extensions_without_case() {
    assert!(matches_filter("dir/file.TXT", "*.txt;*.md"));
    assert!(matches_filter("notes.md", "*.txt; *.MD "));
    assert!(!matches_filter("main.rs", "*.txt;*.md"));
    assert!(matches_filter("main.rs", "*"));
    assert!(matches_filter("main.rs", "*.txt;*.*"));
    assert!(!matches_filter("Makefile", "*.txt"));
    assert!(matches_filter("Makefile", "*."));
    assert!(!matches_filter("a.txt", ""));
}

#[test]
fn pattern_accepts_lowercase_extension() {
    assert!(pattern_accepts("*.JPG;*.png", "jpg"));
    assert!(!pattern_accepts("*.JPG;*.png", "gif"));
    assert!(pattern_accepts("*", "anything"));
}

#[test]
fn strip_star_dot_takes_extension() {
    assert_eq!(strip_star_dot("*.txt"), Some("txt".to_string()));
    assert_eq!(strip_star_dot("*."), Some(String::new()));
    assert_eq!(strip_star_dot("txt"), None);
    assert_eq!(strip_star_dot("*"), None);
}

#[test]
fn search_terms_name_extensions() {
    assert_eq!(everything_search_terms(Some("*.txt;*.md")), "ext:txt;md");
    assert_eq!(everything_search_terms(Some(" *.jpg ; *.png ")), "ext:jpg;png");
    assert_eq!(everything_search_terms(Some("*.*")), "");
    assert_eq!(everything_search_terms(Some("*.;*.rs")), "ext:rs");
    assert_eq!(everything_search_terms(Some("readme")), "");
    assert_eq!(everything_search_terms(None), "");
}

#[test]
fn everything_args_pick_files_or_folders() {
    assert_eq!(everything_args(false), strings(&["-n", "10000", "/a-d"]));
    assert_eq!(everything_args(true), strings(&["-n", "10000", "/ad"]));
}

#[test]
fn drive_parts_merge_drive_and_names() {
    assert_eq!(
        drive_parts(&strings(&["C:\\", "\\", "Users", "x.txt"])),
        strings(&["C:", "Users", "x.txt"])
    );
    assert_eq!(drive_parts(&strings(&["C:", "\\", "a", "/", "b"])), strings(&["C:", "a", "b"]));
    assert_eq!(drive_parts(&strings(&["rel"])), strings(&["rel"]));
}

#[test]
fn add_everything_path_uses_given_components() {
    let mut n = Node::new();
    assert!(!n.add_everything_path("x", &vec![], false));
    assert!(n.add_everything_path("C:\\a\\b.txt", &strings(&["C:", "\\", "a", "b.txt"]), false));
    assert_eq!(
        n.render_yaml(false),
        "- name: 'C:'\n  children:\n    - name: 'a'\n      children:\n        - name: 'b.txt'\n          description: 'C:\\a\\b.txt'\n"
    );
}

#[test]
fn tree_from_everything_lists_paths() {
    let (yaml, count) = tree_from_everything("a/b.txt\r\na/c.txt\n\nd/e.txt\n", false);
    assert_eq!(count, 3);
    assert_eq!(
        yaml,
        "- name: 'a'\n  children:\n    - name: 'b.txt'\n      description: 'a/b.txt'\n    - name: 'c.txt'\n      description: 'a/c.txt'\n\
         - name: 'd'\n  children:\n    - name: 'e.txt'\n      description: 'd/e.txt'\n"
    );
}

#[test]
fn tree_from_everything_folders_only_lists_directories() {
    let (yaml, count) = tree_from_everything("a/b\na/c\n", true);
    assert_eq!(count, 2);
    assert_eq!(
        yaml,
        "- name: 'a'\n  children:\n    - name: 'b'\n      children:\n    - name: 'c'\n      children:\n"
    );
    let (yaml, count) = tree_from_everything("", false);
    assert_eq!(count, 0);
    assert_eq!(yaml, "");
}

fn entry(depth: usize, is_dir: bool, path: &str) -> WalkEntry {
    WalkEntry { depth, is_dir, path: path.to_string() }
}

#[test]
fn walk_admits_filters_entries() {
    assert!(!walk_admits(&entry(0, true, "r"), None, false));
    assert!(walk_admits(&entry(1, true, "r/a"), Some("*.txt"), false));
    assert!(!walk_admits(&entry(1, false, "r/a.md"), Some("*.txt"), false));
    assert!(walk_admits(&entry(1, false, "r/a.TXT"), Some("*.txt"), false));
    assert!(!walk_admits(&entry(1, false, "r/a.txt"), None, true));
    assert!(walk_admits(&entry(1, false, "r/a.md"), None, false));
}

#[test]
fn tree_from_walk_lists_relative_paths() {
    let entries = vec![
        entry(0, true, "r"),
        entry(1, true, "r/a"),
        entry(2, false, "r/a/x.txt"),
        entry(2, false, "r/a/y.md"),
        entry(1, false, "r/z.txt"),
        entry(1, false, "elsewhere/w.txt"),
    ];
    let (yaml, count) = tree_from_walk(&entries, "r", Some("*.txt"), false);
    assert_eq!(count, 2);
    assert_eq!(
        yaml,
        "- name: 'a'\n  children:\n    - name: 'x.txt'\n      description: 'r/a/x.txt'\n\
         - name: 'z.txt'\n  description: 'r/z.txt'\n"
    );
}

#[test]
fn tree_from_walk_counts_folders_when_asked() {
    let entries = vec![entry(0, true, "r"), entry(1, true, "r/a"), entry(2, true, "r/a/b"), entry(1, false, "r/f")];
    let (yaml, count) = tree_from_walk(&entries, "r", None, true);
    assert_eq!(count, 2);
    assert_eq!(yaml, "- name: 'a'\n  children:\n    - name: 'b'\n      children:\n");
    let (yaml2, count2) = tree_from_walk(&entries, "r", Some("*.txt"), true);
    assert_eq!((yaml2, count2), (yaml, count));
}

#[test]
fn add_walk_components_counts() {
    let mut n = Node::new();
    assert!(!n.add_walk_components(true, "r/a", &strings(&["a"]), false));
    assert!(n.add_walk_components(true, "r/b", &strings(&["b"]), true));
    assert!(n.add_walk_components(false, "r/a/f", &strings(&["a", "f"]), false));
    assert!(!n.add_walk_components(false, "r", &vec![], false));
    assert_eq!(n.render_yaml(false), "- name: 'a'\n  children:\n    - name: 'f'\n      description: 'r/a/f'\n");
}

#[test]
fn es_is_found_in_where_output() {
    assert_eq!(
        es_from_where_output("C:\\Program Files\\Everything\\es.exe\r\nC:\\other\\es.exe\r\n"),
        Some("C:\\Program Files\\Everything\\es.exe".to_string())
    );
    assert_eq!(es_from_where_output("  C:\\EVERYTHING\\es.exe  "), Some("C:\\EVERYTHING\\es.exe".to_string()));
    assert_eq!(es_from_where_output("C:\\tools\\es.exe\nC:\\Everything\\es.exe\n"), None);
    assert_eq!(es_from_where_output(""), None);
    assert_eq!(es_from_where_output("\n"), None);
}

#[test]
fn winget_path_is_below_local_app_data() {
    assert_eq!(
        winget_es_path("C:\\Users\\u\\AppData\\Local"),
        "C:\\Users\\u\\AppData\\Local\\Microsoft\\WinGet\\Packages\\voidtools.Everything.Cli_Microsoft.Winget.Source_8wekyb3d8bbwe\\es.exe"
    );
}

#[test]
fn everything_bytes_are_read_as_utf8() {
    let (yaml, count) = picker_hook::walk::tree_from_everything_bytes("dé/f.txt\n".as_bytes(), false);
    assert_eq!(count, 1);
    assert_eq!(yaml, "- name: 'dé'\n  children:\n    - name: 'f.txt'\n      description: 'dé/f.txt'\n");
    let (yaml, count) = picker_hook::walk::tree_from_everything_bytes(b"a\xff/b\n", false);
    assert_eq!(count, 1);
    assert_eq!(yaml, "- name: 'a\u{fffd}'\n  children:\n    - name: 'b'\n      description: 'a\u{fffd}/b'\n");
}

#[test]
fn where_bytes_are_read_as_utf8() {
    assert_eq!(
        picker_hook::walk::es_from_where_bytes(b"C:\\Everything\\es.exe\r\n"),
        Some("C:\\Everything\\es.exe".to_string())
    );
    assert_eq!(picker_hook::walk::es_from_where_bytes(b"\xff\n"), None);
}

#[test]
fn es_is_chosen_in_order() {
    let cands = |a: bool, b: bool| {
        let c = es_candidates();
        vec![(c[0].clone(), a), (c[1].clone(), b)]
    };
    assert_eq!(
        es_candidates(),
        strings(&["C:\\Program Files\\Everything\\es.exe", "C:\\Program Files\\Everything 1.5a\\es.exe"])
    );
    assert_eq!(
        choose_es(Some("P".to_string()), Some(("W".to_string(), true)), cands(true, true)),
        Some("P".to_string())
    );
    assert_eq!(choose_es(None, Some(("W".to_string(), true)), cands(true, true)), Some("W".to_string()));
    assert_eq!(
        choose_es(None, Some(("W".to_string(), false)), cands(false, true)),
        Some("C:\\Program Files\\Everything 1.5a\\es.exe".to_string())
    );
    assert_eq!(
        choose_es(None, None, cands(true, true)),
        Some("C:\\Program Files\\Everything\\es.exe".to_string())
    );
    assert_eq!(choose_es(None, None, cands(false, false)), None);
}

#[test]
fn filter_ignores_case_of_extension() {
    for pattern in ["*.txt", "*.TXT;*.md", "*.Txt"] {
        assert_eq!(matches_filter("a.txt", pattern), matches_filter("a.TxT", pattern));
        assert!(matches_filter("a.TXT", pattern));
    }
}
