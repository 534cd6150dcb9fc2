use gitcat::render::{render_tree, RenderLine};
use gitcat::tree::{build_tree, flatten_paths, flatten_tree, Entry, TreeNode};

fn paths(ps: &[&str]) -> Vec<String> {
    ps.iter().map(|p| String::from(*p)).collect()
}

fn texts(lines: &[RenderLine]) -> Vec<String> {
    lines.iter().map(|l| l.text()).collect()
}

fn children(root: &TreeNode) -> &Vec<Entry> {
    match root {
        TreeNode::Dir(es) => es,
        TreeNode::File => panic!("root must be a directory"),
    }
}

#[test]
fn builds_two_dirs_and_file() {
    let root = build_tree(&paths(&["a/b.txt", "a/c.txt", "d.txt"]));
    let es = children(&root);
    assert_eq!(es.len(), 2);
    assert_eq!(es[0].name, "a");
    match &es[0].node {
        TreeNode::Dir(sub) => {
            assert_eq!(sub.len(), 2);
            assert_eq!(sub[0].name, "b.txt");
            assert!(matches!(sub[0].node, TreeNode::File));
            assert_eq!(sub[1].name, "c.txt");
            assert!(matches!(sub[1].node, TreeNode::File));
        }
        TreeNode::File => panic!("a must be a directory"),
    }
    assert_eq!(es[1].name, "d.txt");
    assert!(matches!(es[1].node, TreeNode::File));
}

#[test]
fn renders_in_sorted_order_with_connectors() {
    let root = build_tree(&paths(&["a/b.txt", "a/c.txt", "d.txt"]));
    let lines = texts(&render_tree(&root, ""));
    assert_eq!(
        lines,
        vec![
            String::from("├── a"),
            String::from("│   ├── b.txt"),
            String::from("│   └── c.txt"),
            String::from("└── d.txt"),
        ]
    );
}

#[test]
fn rendering_twice_is_identical() {
    let root = build_tree(&paths(&["src/lib.ext", "src/sub/mod.ext", "top.txt"]));
    let first = texts(&render_tree(&root, ""));
    let second = texts(&render_tree(&root, ""));
    assert_eq!(first, second);
}

#[test]
fn duplicate_path_inserted_once() {
    let root = build_tree(&paths(&["x.txt", "x.txt"]));
    let es = children(&root);
    assert_eq!(es.len(), 1);
    assert_eq!(es[0].name, "x.txt");
    assert!(matches!(es[0].node, TreeNode::File));
}

#[test]
fn connector_selection_last_sibling_gets_elbow() {
    let root = build_tree(&paths(&["alpha", "beta", "gamma"]));
    let lines = render_tree(&root, "");
    assert_eq!(lines.len(), 3);
    assert_eq!(lines[0].lead, "├── ");
    assert_eq!(lines[0].name, "alpha");
    assert_eq!(lines[1].lead, "├── ");
    assert_eq!(lines[1].name, "beta");
    assert_eq!(lines[2].lead, "└── ");
    assert_eq!(lines[2].name, "gamma");
}

#[test]
fn empty_path_list_builds_empty_root() {
    let root = build_tree(&paths(&[]));
    assert_eq!(children(&root).len(), 0);
    assert!(render_tree(&root, "").is_empty());
}

#[test]
fn single_segment_path_is_child_of_root() {
    let root = build_tree(&paths(&["only.txt"]));
    let es = children(&root);
    assert_eq!(es.len(), 1);
    assert_eq!(es[0].name, "only.txt");
}

#[test]
fn doubled_and_leading_separators_collapse() {
    let root = build_tree(&paths(&["a//b.txt", "/c.txt", ""]));
    let es = children(&root);
    assert_eq!(es.len(), 2);
    assert_eq!(es[0].name, "a");
    match &es[0].node {
        TreeNode::Dir(sub) => {
            assert_eq!(sub.len(), 1);
            assert_eq!(sub[0].name, "b.txt");
        }
        TreeNode::File => panic!("a must be a directory"),
    }
    assert_eq!(es[1].name, "c.txt");
}

#[test]
fn directories_marked_files_not() {
    let root = build_tree(&paths(&["dir/file.txt", "plain.txt"]));
    let lines = render_tree(&root, "");
    assert_eq!(lines.len(), 3);
    assert!(lines[0].is_dir);
    assert_eq!(lines[0].name, "dir");
    assert!(!lines[1].is_dir);
    assert_eq!(lines[1].name, "file.txt");
    assert!(!lines[2].is_dir);
    assert_eq!(lines[2].name, "plain.txt");
}

#[test]
fn order_is_by_character_code_capitals_first() {
    let root = build_tree(&paths(&["b.txt", "A.txt", "a.txt"]));
    let lines = render_tree(&root, "");
    let names: Vec<&String> = lines.iter().map(|l| &l.name).collect();
    assert_eq!(names, vec!["A.txt", "a.txt", "b.txt"]);
}

#[test]
fn flatten_recovers_original_paths_once_each() {
    let files = paths(&["d.txt", "a/b.txt", "a/c.txt", "a/b.txt"]);
    let root = build_tree(&files);
    let flat = flatten_paths(&root);
    assert_eq!(
        flat,
        vec![
            String::from("a/b.txt"),
            String::from("a/c.txt"),
            String::from("d.txt"),
        ]
    );
}

#[test]
fn flatten_deep_tree_by_segments() {
    let files = paths(&["x/y/z.txt", "x/w.txt"]);
    let root = build_tree(&files);
    let segs = flatten_tree(&root);
    assert_eq!(
        segs,
        vec![
            vec![String::from("x"), String::from("w.txt")],
            vec![String::from("x"), String::from("y"), String::from("z.txt")],
        ]
    );
    assert_eq!(
        flatten_paths(&root),
        vec![String::from("x/w.txt"), String::from("x/y/z.txt")]
    );
}

#[test]
fn nested_prefix_extends_with_bar_and_blank() {
    let root = build_tree(&paths(&["a/b/c.txt", "a/d.txt", "z/y.txt"]));
    let lines = texts(&render_tree(&root, ""));
    assert_eq!(
        lines,
        vec![
            String::from("├── a"),
            String::from("│   ├── b"),
            String::from("│   │   └── c.txt"),
            String::from("│   └── d.txt"),
            String::from("└── z"),
            String::from("    └── y.txt"),
        ]
    );
}
