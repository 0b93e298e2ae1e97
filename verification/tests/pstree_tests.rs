use pstree::color::{parse_color, parse_rgb, ColorValue};
use pstree::config::{parse_config, PsTreePrintConfig};
use pstree::proc_status::{is_numeric_name, parse_proc_stat, scan_records, sort_records};
use pstree::record::ProcessInfo;
use pstree::render::make_label;
use pstree::tree::{treefy_proc, wf_check, ProcessNode, ProcessTree, TreeError};

fn rec(pid: u32, ppid: u32, name: &str) -> ProcessInfo {
    ProcessInfo::new(pid, ppid, name.to_string())
}

fn names_of(tree: &ProcessTree, node: usize) -> Vec<String> {
    tree.nodes[node]
        .children
        .iter()
        .map(|&c| tree.nodes[c].proc_info.name.clone())
        .collect()
}

#[test]
fn default_root_is_lowest_pid() {
    // pids {1,50,7,200} in scrambled order: after sorting, the auto root is pid 1.
    let records = sort_records(vec![
        rec(50, 1, "b"),
        rec(200, 7, "d"),
        rec(1, 0, "a"),
        rec(7, 1, "c"),
    ]);
    assert_eq!(records[0].pid, 1);
    let tree = treefy_proc(records, 0).unwrap();
    assert_eq!(tree.nodes[tree.root].proc_info.pid, 1);
}

#[test]
fn explicit_root_selects_that_pid() {
    let records = sort_records(vec![
        rec(50, 1, "b"),
        rec(200, 7, "d"),
        rec(1, 0, "a"),
        rec(7, 1, "c"),
    ]);
    let tree = treefy_proc(records, 7).unwrap();
    assert_eq!(tree.nodes[tree.root].proc_info.pid, 7);
    // only pid 7 and its descendant 200 are reachable from the root
    let kids = names_of(&tree, tree.root);
    assert_eq!(kids, vec!["d".to_string()]);
}

#[test]
fn absent_root_fails_with_root_not_found() {
    let records = sort_records(vec![rec(1, 0, "a"), rec(7, 1, "c")]);
    match treefy_proc(records, 999) {
        Err(e) => assert_eq!(e, TreeError::RootNotFound),
        Ok(_) => panic!("an absent root must be rejected"),
    }
}

#[test]
fn empty_input_without_explicit_root_fails() {
    match treefy_proc(Vec::new(), 0) {
        Err(e) => assert_eq!(e, TreeError::EmptyInput),
        Ok(_) => panic!("empty input without an explicit root must be rejected"),
    }
}

#[test]
fn sibling_order_follows_pid_ascending_input() {
    let records = vec![
        rec(1, 0, "init"),
        rec(2, 1, "first"),
        rec(3, 1, "second"),
        rec(4, 1, "third"),
    ];
    let tree = treefy_proc(records, 0).unwrap();
    assert_eq!(
        names_of(&tree, tree.root),
        vec!["first".to_string(), "second".to_string(), "third".to_string()]
    );
}

#[test]
fn every_scanned_pid_becomes_exactly_one_node() {
    // pid 9's parent 8 never appears: it stays a (detached) node.
    let records = vec![rec(1, 0, "a"), rec(5, 1, "b"), rec(9, 8, "orphan")];
    let tree = treefy_proc(records, 0).unwrap();
    let mut pids: Vec<u32> = tree.nodes.iter().map(|n| n.proc_info.pid).collect();
    pids.sort();
    assert_eq!(pids, vec![1, 5, 9]);
}

#[test]
fn collapse_merges_only_adjacent_childless_duplicates() {
    // children [A(leaf), A(leaf), B(leaf), A(leaf)] collapse to [A, B, A]
    let records = vec![
        rec(1, 0, "root"),
        rec(2, 1, "A"),
        rec(3, 1, "A"),
        rec(4, 1, "B"),
        rec(5, 1, "A"),
    ];
    let mut tree = treefy_proc(records, 0).unwrap();
    tree.filter_unique();
    assert_eq!(
        names_of(&tree, tree.root),
        vec!["A".to_string(), "B".to_string(), "A".to_string()]
    );
}

#[test]
fn collapse_keeps_a_duplicate_that_has_children() {
    // children [A(leaf), A(has-children)] do not collapse
    let records = vec![
        rec(1, 0, "root"),
        rec(2, 1, "A"),
        rec(3, 1, "A"),
        rec(4, 3, "grandchild"),
    ];
    let mut tree = treefy_proc(records, 0).unwrap();
    tree.filter_unique();
    assert_eq!(names_of(&tree, tree.root), vec!["A".to_string(), "A".to_string()]);
}

#[test]
fn render_leaf_and_branch_shapes() {
    let records = vec![rec(1, 0, "init"), rec(2, 1, "daemon"), rec(3, 2, "worker")];
    let tree = treefy_proc(records, 0).unwrap();
    let item = tree.render(false).unwrap();
    // root label, one opened branch holding one opened branch holding a leaf
    assert_eq!(item.text, "init");
    assert_eq!(item.children.len(), 1);
    assert_eq!(item.children[0].text, "daemon");
    assert_eq!(item.children[0].children.len(), 1);
    assert_eq!(item.children[0].children[0].text, "worker");
    assert!(item.children[0].children[0].children.is_empty());
}

#[test]
fn render_keeps_sibling_order_and_visits_once() {
    let records = vec![
        rec(1, 0, "init"),
        rec(2, 1, "a"),
        rec(3, 1, "b"),
        rec(4, 2, "c"),
    ];
    let tree = treefy_proc(records, 0).unwrap();
    let item = tree.render(false).unwrap();
    let kid_texts: Vec<&str> = item.children.iter().map(|c| c.text.as_str()).collect();
    assert_eq!(kid_texts, vec!["a", "b"]);
    // count every label in the whole rendered tree: each node appears once
    let mut labels = Vec::new();
    let mut stack = vec![&item];
    while let Some(it) = stack.pop() {
        labels.push(it.text.clone());
        for ch in it.children.iter() {
            stack.push(ch);
        }
    }
    labels.sort();
    assert_eq!(labels, vec!["a", "b", "c", "init"]);
}

#[test]
fn render_with_pid_prefixes_labels() {
    let records = vec![rec(1, 0, "init"), rec(42, 1, "bash")];
    let tree = treefy_proc(records, 0).unwrap();
    let item = tree.render(true).unwrap();
    assert_eq!(item.text, "[1] init");
    assert_eq!(item.children[0].text, "[42] bash");
}

#[test]
fn make_label_formats_decimal_pid() {
    let info = rec(4029500, 1, "svc");
    assert_eq!(make_label(&info, true), "[4029500] svc");
    assert_eq!(make_label(&info, false), "svc");
    let zero = rec(0, 0, "z");
    assert_eq!(make_label(&zero, true), "[0] z");
}

#[test]
fn tree_checker_rejects_bad_shapes() {
    // child position pointing at itself
    let mut n0 = ProcessNode::new(rec(1, 0, "a"));
    n0.add_child(0);
    assert!(ProcessTree::new(vec![n0], 0).is_none());
    // root out of range
    let n1 = ProcessNode::new(rec(1, 0, "a"));
    assert!(ProcessTree::new(vec![n1], 3).is_none());
    // two parents claiming one child
    let mut a = ProcessNode::new(rec(1, 0, "a"));
    a.add_child(2);
    let mut b = ProcessNode::new(rec(2, 1, "b"));
    b.add_child(2);
    let c = ProcessNode::new(rec(3, 2, "c"));
    let nodes = vec![a, b, c];
    assert!(!wf_check(&nodes, 0));
    // a well-shaped arena passes
    let mut a2 = ProcessNode::new(rec(1, 0, "a"));
    a2.add_child(1);
    let b2 = ProcessNode::new(rec(2, 1, "b"));
    assert!(ProcessTree::new(vec![a2, b2], 0).is_some());
}

#[test]
fn node_helpers_work() {
    let mut n = ProcessNode::new(rec(1, 0, "a"));
    assert_eq!(n.children_count(), 0);
    n.add_child(1);
    n.add_child(2);
    assert_eq!(n.children_count(), 2);
    let boxed = n.to_heap();
    assert_eq!(boxed.children_count(), 2);
}

#[test]
fn parse_status_blob_extracts_fields() {
    let blob = "Name:\tbash\nUmask:\t0022\nState:\tS (sleeping)\nPid:\t4242\nPPid:\t17\nTracerPid:\t0\n";
    let info = parse_proc_stat(blob).unwrap();
    assert_eq!(info.name, "bash");
    assert_eq!(info.pid, 4242);
    assert_eq!(info.ppid, 17);
}

#[test]
fn parse_status_blob_requires_all_three_lines() {
    assert!(parse_proc_stat("Name:\tbash\nPPid:\t17\n").is_none());
    assert!(parse_proc_stat("Pid:\t1\nPPid:\t0\n").is_none());
    assert!(parse_proc_stat("").is_none());
    // a pid too large for a pid field is rejected, not mangled
    assert!(parse_proc_stat("Name:\tx\nPid:\t99999999999999\nPPid:\t0\n").is_none());
    // the PPid line must come after the Pid line
    assert!(parse_proc_stat("Name:\tx\nPPid:\t0\nPid:\t1\n").is_none());
}

#[test]
fn parse_status_blob_edge_shapes() {
    // no trailing newline on the last line
    let info = parse_proc_stat("Name:\tx\nPid:\t1\nPPid:\t0").unwrap();
    assert_eq!((info.pid, info.ppid), (1, 0));
    assert_eq!(info.name, "x");
    // an empty Name line is passed over in favour of a later full one
    let info2 = parse_proc_stat("Name:\nName:\tzsh\nPid:\t2\nPPid:\t1\n").unwrap();
    assert_eq!(info2.name, "zsh");
    // leading blanks before the fields are skipped
    let info3 = parse_proc_stat("Name:   spaced name\nPid:   33\nPPid:   2\n").unwrap();
    assert_eq!(info3.name, "spaced name");
    assert_eq!(info3.pid, 33);
}

#[test]
fn scan_records_sorts_by_pid() {
    let blobs = vec![
        "Name:\tc\nPid:\t30\nPPid:\t1\n".to_string(),
        "Name:\ta\nPid:\t1\nPPid:\t0\n".to_string(),
        "Name:\tb\nPid:\t7\nPPid:\t1\n".to_string(),
    ];
    let recs = scan_records(&blobs).unwrap();
    let pids: Vec<u32> = recs.iter().map(|r| r.pid).collect();
    assert_eq!(pids, vec![1, 7, 30]);
    assert_eq!(recs[1].name, "b");
}

#[test]
fn scan_records_fails_on_one_bad_blob() {
    let blobs = vec![
        "Name:\ta\nPid:\t1\nPPid:\t0\n".to_string(),
        "garbage".to_string(),
    ];
    assert!(scan_records(&blobs).is_none());
}

#[test]
fn numeric_names_filter() {
    assert!(is_numeric_name("12345"));
    assert!(!is_numeric_name("self"));
    assert!(!is_numeric_name("12a"));
}

#[test]
fn color_names_parse_case_insensitively() {
    assert_eq!(parse_color("black"), Some(ColorValue::Black));
    assert_eq!(parse_color("RED"), Some(ColorValue::Red));
    assert_eq!(parse_color("Green"), Some(ColorValue::Green));
    assert_eq!(parse_color("yellow"), Some(ColorValue::Yellow));
    assert_eq!(parse_color("blue"), Some(ColorValue::Blue));
    assert_eq!(parse_color("purple"), Some(ColorValue::Purple));
    assert_eq!(parse_color("cyan"), Some(ColorValue::Cyan));
    assert_eq!(parse_color("white"), Some(ColorValue::White));
}

#[test]
fn rgb_triples_parse_exactly() {
    assert_eq!(parse_rgb("255,255,0"), Some(ColorValue::Rgb(255, 255, 0)));
    assert_eq!(parse_color("10,20,30"), Some(ColorValue::Rgb(10, 20, 30)));
    assert_eq!(parse_rgb("0,0,0"), Some(ColorValue::Rgb(0, 0, 0)));
    assert_eq!(parse_rgb("256,0,0"), None);
    assert_eq!(parse_rgb("1,2"), None);
    assert_eq!(parse_rgb("1,2,3,4"), None);
    assert_eq!(parse_rgb(",1,2"), None);
}

#[test]
fn invalid_color_token_means_no_color() {
    assert_eq!(parse_color("notacolor"), None);
    assert_eq!(parse_color(""), None);
    assert_eq!(parse_color("reddish"), None);
}

#[test]
fn config_resolves_options() {
    let c = parse_config(
        &Some("red".to_string()),
        &Some("notacolor".to_string()),
        &None,
        true,
        7,
        Some(3),
    );
    assert_eq!(c.node_color, Some(ColorValue::Red));
    assert_eq!(c.branch_color, None);
    assert_eq!(c.background, None);
    assert!(c.show_pid);
    assert_eq!(c.root_pid, 7);
    assert_eq!(c.depth, Some(3));
    let d = PsTreePrintConfig::new();
    assert!(!d.show_pid);
    assert_eq!(d.root_pid, 0);
    assert_eq!(d.depth, None);
}
