use donner::avl::{collect_entries, dump_tree, TreeNode, TreeState};
use donner::json::Json;

fn leaf(key: u8, value: &[u8]) -> Box<TreeNode> {
    Box::new(TreeNode::Leaf { key: vec![key; 32], value: value.to_vec() })
}

fn tree() -> TreeNode {
    TreeNode::Internal(
        Box::new(TreeNode::Internal(leaf(0x00, &[9]), leaf(0x10, &[1, 2]))),
        Box::new(TreeNode::Internal(
            leaf(0x20, &[]),
            Box::new(TreeNode::Internal(Box::new(TreeNode::LabelOnly), leaf(0xff, &[8]))),
        )),
    )
}

#[test]
fn entries_come_from_left_to_right_without_the_ends() {
    let mut out = vec![(vec![1], vec![2])];
    collect_entries(&tree(), 32, &mut out);
    assert_eq!(
        out,
        vec![
            (vec![1], vec![2]),
            (vec![0x10; 32], vec![1, 2]),
            (vec![0x20; 32], vec![]),
        ]
    );
}

#[test]
fn ends_are_told_by_the_whole_key() {
    let mut out = Vec::new();
    let mut key = vec![0u8; 32];
    key[31] = 1;
    let near = TreeNode::Leaf { key: key.clone(), value: vec![] };
    collect_entries(&near, 32, &mut out);
    let short = TreeNode::Leaf { key: vec![0; 31], value: vec![] };
    collect_entries(&short, 32, &mut out);
    assert_eq!(out, vec![(key, vec![]), (vec![0; 31], vec![])]);
    let mut none = Vec::new();
    collect_entries(&TreeNode::Leaf { key: vec![0xff; 31], value: vec![] }, 31, &mut none);
    assert!(none.is_empty());
}

#[test]
fn a_report_lists_state_and_entries() {
    let state = TreeState {
        block_height: 28473,
        digest: vec![0xab, 0x01],
        version_count: 3,
        version: Some(vec![0x0f]),
    };
    let text = |s: &str| Json::Text(s.to_string());
    let obj = |fields: Vec<(&str, Json)>| {
        Json::Object(fields.into_iter().map(|(k, v)| (k.to_string(), v)).collect())
    };
    let expected = obj(vec![
        (
            "meta",
            obj(vec![
                ("block_height", Json::Unsigned(28473)),
                ("tree_digest", text("ab01")),
                ("version_count", Json::Unsigned(3)),
                ("current_version_digest", text("0f")),
            ]),
        ),
        ("key_length", Json::Unsigned(32)),
        ("value_length", Json::Null),
        (
            "entries",
            Json::Array(vec![
                obj(vec![("key", text(&"10".repeat(32))), ("value", text("0102"))]),
                obj(vec![("key", text(&"20".repeat(32))), ("value", text(""))]),
            ]),
        ),
    ]);
    assert_eq!(dump_tree(&tree(), &state), expected);
}

#[test]
fn a_report_without_a_version_says_null() {
    let state = TreeState { block_height: 0, digest: vec![], version_count: 0, version: None };
    let report = dump_tree(&TreeNode::LabelOnly, &state);
    assert_eq!(report.get2("meta", "current_version_digest"), Some(&Json::Null));
    assert_eq!(report.get("entries"), Some(&Json::Array(vec![])));
}
