use ash::fstree::{fstree, write_tree};
use ash::render::tree_show;
use ash::tree::{
    add_node_to_level, add_node_to_parent, append_base_tree, get_parent, recurse_tree, remove_node,
    return_children, walk_order, ParentNode, SnapshotTree,
};

const SAMPLE: &str = "{'name': 'root', 'children': [{'name': 0}, {'name': 1, 'children': [{'name': 4, 'children': [{'name': 6}, {'name': 2}]}]}]}";

fn sample() -> SnapshotTree {
    fstree(SAMPLE).expect("sample tree parses")
}

#[test]
fn new_tree_is_empty() {
    let t = SnapshotTree::new();
    assert_eq!(t.len(), 0);
    assert_eq!(write_tree(&t), "{'name': 'root'}");
}

#[test]
fn parse_sample_tree() {
    let t = sample();
    assert_eq!(t.preorder(), vec![0, 1, 4, 6, 2]);
    assert_eq!(t.depth_at(0), 1);
    assert_eq!(t.depth_at(2), 2);
    assert_eq!(t.depth_at(4), 3);
}

#[test]
fn write_then_read_gives_the_same_tree() {
    let t = sample();
    let line = write_tree(&t);
    assert_eq!(line, SAMPLE);
    let back = fstree(&line).unwrap();
    assert_eq!(back.preorder(), t.preorder());
    for i in 0..t.len() {
        assert_eq!(back.depth_at(i), t.depth_at(i));
    }
}

#[test]
fn malformed_tree_lines_are_refused() {
    assert!(fstree("").is_none());
    assert!(fstree("{'name': 'root', 'children': [{'name': 1}]").is_none());
    assert!(fstree("{'name': 'root', 'children': [{'name': 1}, {'name': 1}]}").is_none());
    assert!(fstree("{'name': 'root', 'children': [{'name': 01}]}").is_none());
    assert!(fstree("{'name': 'root'}").is_some());
}

#[test]
fn append_base_tree_adds_a_root_child() {
    let mut t = sample();
    append_base_tree(&mut t, 9);
    assert_eq!(t.preorder(), vec![0, 1, 4, 6, 2, 9]);
    assert_eq!(get_parent(&t, 9), Some(ParentNode::Root));
}

#[test]
fn add_node_to_parent_adds_last_child() {
    let mut t = sample();
    add_node_to_parent(&mut t, 4, 7);
    assert_eq!(t.preorder(), vec![0, 1, 4, 6, 2, 7]);
    assert_eq!(get_parent(&t, 7), Some(ParentNode::Snapshot(4)));
    assert_eq!(write_tree(&t), "{'name': 'root', 'children': [{'name': 0}, {'name': 1, 'children': [{'name': 4, 'children': [{'name': 6}, {'name': 2}, {'name': 7}]}]}]}");
}

#[test]
fn add_node_to_missing_parent_changes_nothing() {
    let mut t = sample();
    add_node_to_parent(&mut t, 42, 7);
    assert_eq!(t.preorder(), vec![0, 1, 4, 6, 2]);
}

#[test]
fn add_node_to_level_adds_a_sibling() {
    let mut t = sample();
    add_node_to_level(&mut t, 6, 8);
    assert_eq!(get_parent(&t, 8), Some(ParentNode::Snapshot(4)));
    add_node_to_level(&mut t, 1, 10);
    assert_eq!(get_parent(&t, 10), Some(ParentNode::Root));
    assert_eq!(t.preorder(), vec![0, 1, 4, 6, 2, 8, 10]);
}

#[test]
fn parents_and_children() {
    let t = sample();
    assert_eq!(get_parent(&t, 2), Some(ParentNode::Snapshot(4)));
    assert_eq!(get_parent(&t, 1), Some(ParentNode::Root));
    assert_eq!(get_parent(&t, 3), None);
    assert_eq!(return_children(&t, 1), vec![4, 6, 2]);
    assert_eq!(return_children(&t, 6), Vec::<u32>::new());
}

#[test]
fn recurse_tree_lists_parent_child_pairs() {
    let t = sample();
    assert_eq!(recurse_tree(&t, 1), vec![1, 4, 4, 6, 4, 2]);
    assert_eq!(recurse_tree(&t, 0), Vec::<u32>::new());
}

#[test]
fn walk_order_visits_every_branch() {
    assert_eq!(walk_order(&vec![1, 4, 4, 6, 4, 2]), vec![(1, 4), (4, 6), (4, 2)]);
    assert_eq!(walk_order(&vec![1, 4]), vec![(1, 4)]);
    assert_eq!(walk_order(&vec![]), Vec::<(u32, u32)>::new());
}

#[test]
fn remove_node_removes_the_subtree() {
    let mut t = sample();
    remove_node(&mut t, 4);
    assert_eq!(t.preorder(), vec![0, 1]);
    assert_eq!(write_tree(&t), "{'name': 'root', 'children': [{'name': 0}, {'name': 1}]}");
}

#[test]
fn tree_show_matches_the_documented_drawing() {
    let t = sample();
    let descs = vec![
        "ignored".to_string(),
        "multiuser system".to_string(),
        "applications".to_string(),
        "MATE full desktop".to_string(),
        "Plasma full desktop".to_string(),
    ];
    let view = tree_show(&t, "2", "root", &descs);
    let expected = "root - root\n\
├── 0 - base snapshot\n\
└── 1 - multiuser system\n\
\u{20}   └── 4 - applications\n\
\u{20}       ├── 6 - MATE full desktop\n\
\u{20}       └── 2*- Plasma full desktop\n";
    assert_eq!(view, expected);
}

#[test]
fn tree_show_without_descriptions() {
    let t = fstree("{'name': 'root', 'children': [{'name': 3, 'children': [{'name': 5}]}, {'name': 7}]}").unwrap();
    let view = tree_show(&t, "9", "", &vec![]);
    assert_eq!(view, "root - \n├── 3 - \n│   └── 5 - \n└── 7 - \n");
}
