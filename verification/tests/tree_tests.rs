use picker_hook::tree::{compare_names, NameOrder};
use picker_hook::Node;

fn yaml(n: &Node) -> String {
    let mut buf = String::new();
    n.write_yaml(&mut buf, 0);
    buf
}

#[test]
fn new_node_is_empty() {
    let n = Node::new();
    assert!(!n.has_content());
    assert_eq!(yaml(&n), "");
    assert_eq!(n.render_yaml(false), "");
}

#[test]
fn insert_file_builds_nested_yaml() {
    let mut n = Node::new();
    n.insert_file(&["C:", "Users", "a.txt"], "C:\\Users\\a.txt");
    assert!(n.has_content());
    assert_eq!(
        yaml(&n),
        "- name: 'C:'\n  children:\n    - name: 'Users'\n      children:\n        - name: 'a.txt'\n          description: 'C:\\Users\\a.txt'\n"
    );
}

#[test]
fn directories_come_sorted_then_files_in_order() {
    let mut n = Node::new();
    n.insert_file(&["z.txt"], "/z.txt");
    n.insert_file(&["b", "f.txt"], "/b/f.txt");
    n.insert_file(&["a.txt"], "/a.txt");
    n.insert_file(&["a", "g.txt"], "/a/g.txt");
    assert_eq!(
        yaml(&n),
        "- name: 'a'\n  children:\n    - name: 'g.txt'\n      description: '/a/g.txt'\n\
         - name: 'b'\n  children:\n    - name: 'f.txt'\n      description: '/b/f.txt'\n\
         - name: 'z.txt'\n  description: '/z.txt'\n\
         - name: 'a.txt'\n  description: '/a.txt'\n"
    );
}

#[test]
fn folder_listing_keeps_empty_directories() {
    let mut n = Node::new();
    n.insert_dir(&["D:"]);
    n.insert_dir(&["C:", "Windows"]);
    assert_eq!(
        n.render_yaml(true),
        "- name: 'C:'\n  children:\n    - name: 'Windows'\n      children:\n- name: 'D:'\n  children:\n"
    );
    let mut buf = String::from("x\n");
    n.write_listing(&mut buf, 2, true);
    assert_eq!(buf, "x\n  - name: 'C:'\n    children:\n      - name: 'Windows'\n        children:\n  - name: 'D:'\n    children:\n");
    assert_eq!(n.render_yaml(false), "");
}

#[test]
fn directories_without_files_are_not_listed() {
    let mut n = Node::new();
    n.insert_dir(&["C:", "Windows"]);
    n.insert_dir(&["D:"]);
    assert!(!n.has_content());
    assert_eq!(yaml(&n), "");
    n.insert_file(&["D:", "x", "y.txt"], "D:\\x\\y.txt");
    assert!(n.has_content());
    assert_eq!(
        yaml(&n),
        "- name: 'D:'\n  children:\n    - name: 'x'\n      children:\n        - name: 'y.txt'\n          description: 'D:\\x\\y.txt'\n"
    );
}

#[test]
fn insert_dir_order_does_not_matter() {
    let mut a = Node::new();
    a.insert_dir(&["b", "c"]);
    a.insert_dir(&["a"]);
    a.insert_file(&["b", "c", "f"], "p");
    a.insert_file(&["a", "g"], "q");
    let mut b = Node::new();
    b.insert_dir(&["a"]);
    b.insert_dir(&["b", "c"]);
    b.insert_dir(&["b", "c"]);
    b.insert_file(&["b", "c", "f"], "p");
    b.insert_file(&["a", "g"], "q");
    assert_eq!(yaml(&a), yaml(&b));
    assert!(yaml(&a).starts_with("- name: 'a'"));
}

#[test]
fn the_same_file_twice_is_listed_twice() {
    let mut n = Node::new();
    n.insert_file(&["d", "f"], "d/f");
    n.insert_file(&["d", "f"], "d/f");
    assert_eq!(
        yaml(&n),
        "- name: 'd'\n  children:\n    - name: 'f'\n      description: 'd/f'\n    - name: 'f'\n      description: 'd/f'\n"
    );
}

#[test]
fn empty_components_change_nothing() {
    let mut n = Node::new();
    n.insert_file(&[], "x");
    n.insert_dir(&[]);
    assert!(!n.has_content());
    assert_eq!(yaml(&n), "");
}

#[test]
fn write_yaml_appends_with_indent() {
    let mut n = Node::new();
    n.insert_file(&["it's"], "/it's");
    let mut buf = String::from("head\n");
    n.write_yaml(&mut buf, 2);
    assert_eq!(buf, "head\n  - name: 'it''s'\n    description: '/it''s'\n");
    assert!(n.fits_indents(0));
    assert_eq!(n.render_yaml(false), "- name: 'it''s'\n  description: '/it''s'\n");
}

#[test]
fn deep_trees_do_not_fit_every_indent() {
    let mut n = Node::new();
    n.insert_dir(&["a", "b"]);
    assert!(n.fits_indents(usize::MAX - 8));
    assert!(!n.fits_indents(usize::MAX - 7));
}

#[test]
fn compare_names_orders_by_code_point() {
    assert!(matches!(compare_names("a", "b"), NameOrder::Less));
    assert!(matches!(compare_names("b", "a"), NameOrder::Greater));
    assert!(matches!(compare_names("ab", "ab"), NameOrder::Equal));
    assert!(matches!(compare_names("ab", "abc"), NameOrder::Less));
    assert!(matches!(compare_names("B", "a"), NameOrder::Less));
    assert!(matches!(compare_names("é", "z"), NameOrder::Greater));
    assert!(matches!(compare_names("", ""), NameOrder::Equal));
}
