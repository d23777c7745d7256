use hn_core::records::Record;
use hn_core::tree::{
    build_empty_line_prefix, build_meta_tree_prefix, build_text_prefix, compute_tree_context,
};

fn comment_at_depth(id: u64, depth: usize, kids: Vec<u64>) -> Record {
    Record {
        id,
        author: Some("user".to_string()),
        created_at: 1700000000,
        body: Some("text".to_string()),
        children: kids,
        depth,
    }
}

#[test]
fn test_compute_tree_context_single_comment() {
    let comments = vec![comment_at_depth(1, 0, vec![])];
    let visible = vec![0];
    let context = compute_tree_context(&comments, &visible);

    assert_eq!(context.len(), 1);
    assert_eq!(context[0], vec![false]); // No more at depth 0
}

#[test]
fn test_compute_tree_context_siblings() {
    let comments = vec![comment_at_depth(1, 0, vec![]), comment_at_depth(2, 0, vec![])];
    let visible = vec![0, 1];
    let context = compute_tree_context(&comments, &visible);

    assert_eq!(context[0], vec![true]); // More siblings at depth 0
    assert_eq!(context[1], vec![false]); // Last at depth 0
}

#[test]
fn test_compute_tree_context_nested() {
    let comments = vec![
        comment_at_depth(1, 0, vec![2]),
        comment_at_depth(2, 1, vec![]),
        comment_at_depth(3, 0, vec![]),
    ];
    let visible = vec![0, 1, 2];
    let context = compute_tree_context(&comments, &visible);

    assert_eq!(context[0], vec![true]); // More at depth 0
    assert_eq!(context[1], vec![true, false]); // More at 0, none at 1
    assert_eq!(context[2], vec![false]); // Last at depth 0
}

#[test]
fn test_build_meta_tree_prefix_root() {
    let prefix = build_meta_tree_prefix(0, &vec![false]);
    assert_eq!(prefix, "");
}

#[test]
fn test_build_meta_tree_prefix_with_sibling() {
    let prefix = build_meta_tree_prefix(1, &vec![false, true]);
    assert_eq!(prefix, " \u{251c}\u{2500} ");
}

#[test]
fn test_build_meta_tree_prefix_last_sibling() {
    let prefix = build_meta_tree_prefix(1, &vec![false, false]);
    assert_eq!(prefix, " \u{2514}\u{2500} ");
}

#[test]
fn test_build_text_prefix_with_children() {
    let prefix = build_text_prefix(0, &vec![false], true);
    assert_eq!(prefix, " \u{2502}  ");
}

#[test]
fn test_build_text_prefix_no_children() {
    let prefix = build_text_prefix(0, &vec![false], false);
    assert_eq!(prefix, "    ");
}

#[test]
fn test_build_empty_line_prefix() {
    assert_eq!(build_empty_line_prefix(0, &vec![false], true), " \u{2502}");
    assert_eq!(build_empty_line_prefix(0, &vec![false], false), "");
    assert_eq!(
        build_empty_line_prefix(1, &vec![false, true], false),
        " \u{2502}  "
    );
}

#[test]
fn test_build_meta_tree_prefix_deep() {
    // depth 2, ancestor level 1 continues, level 2 is the last sibling
    let prefix = build_meta_tree_prefix(2, &vec![false, true, false]);
    assert_eq!(prefix, " \u{2502}   \u{2514}\u{2500} ");
}
