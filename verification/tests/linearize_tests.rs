use hn_core::arena::{IdSet, RecordArena};
use hn_core::linearize::{build_comment_tree, find_parent_id, order_cached_comments};
use hn_core::records::{CachedRecord, Record};

fn make_comment_record(id: u64, by: &str, text: &str, kids: Vec<u64>) -> Record {
    Record {
        id,
        author: Some(by.to_string()),
        created_at: 1700000000,
        body: Some(text.to_string()),
        children: kids,
        depth: 0,
    }
}

/// Verifies that deleted children (attempted but not fetched) are filtered
/// out of the kids array.
#[test]
fn test_deleted_children_filtered_from_kids() {
    let mut items = RecordArena::new();
    let mut attempted = IdSet::new();

    // Parent comment with kids [2, 3] - child 3 was attempted but deleted
    items.insert(make_comment_record(1, "parent", "Parent comment", vec![2, 3]));
    items.insert(make_comment_record(2, "child", "Child comment", vec![]));

    // Both children were attempted, but child 3 was deleted (not in items)
    attempted.insert(2);
    attempted.insert(3);

    let comments = build_comment_tree(items, &attempted, &vec![1]);

    assert_eq!(comments.len(), 2);
    let parent = &comments[0];
    assert_eq!(parent.id, 1);
    assert_eq!(parent.children, vec![2]);
}

/// Verifies that a comment whose only child was deleted ends up with
/// an empty kids array (showing [ ] instead of [+] in the UI).
#[test]
fn test_all_children_deleted_results_in_empty_kids() {
    let mut items = RecordArena::new();
    let mut attempted = IdSet::new();

    items.insert(make_comment_record(1, "author", "Comment with deleted reply", vec![999]));

    // Child 999 was attempted but deleted (not in items)
    attempted.insert(999);

    let comments = build_comment_tree(items, &attempted, &vec![1]);

    assert_eq!(comments.len(), 1);
    assert!(comments[0].children.is_empty());
}

/// Verifies that children beyond max_depth (never attempted) are kept in
/// the kids array so the UI shows they have replies.
#[test]
fn test_children_beyond_max_depth_kept_in_kids() {
    let mut items = RecordArena::new();
    let attempted = IdSet::new();

    // Comment at max_depth with a child that was never fetched
    items.insert(make_comment_record(1, "deep_commenter", "Comment at max depth", vec![999]));

    // Child 999 was NOT attempted (beyond max_depth)
    let comments = build_comment_tree(items, &attempted, &vec![1]);

    assert_eq!(comments.len(), 1);
    assert_eq!(comments[0].children, vec![999]);
}

fn clone_record(c: &Record) -> Record {
    Record {
        id: c.id,
        author: c.author.clone(),
        created_at: c.created_at,
        body: c.body.clone(),
        children: c.children.clone(),
        depth: c.depth,
    }
}

/// Persists each record with its resolved parent id, as the cache layer
/// stores it, then turns the rows back into records.
fn persist_and_reload(fresh: &Vec<Record>, root_scope_id: u64) -> Vec<Record> {
    let mut rows = Vec::new();
    for c in fresh.iter() {
        let parent = find_parent_id(fresh, c.id);
        rows.push(CachedRecord::from_record(clone_record(c), root_scope_id, parent).into_record());
    }
    rows
}

/// Verifies that fresh fetch and cached load produce identical tree ordering.
#[test]
fn test_cached_comments_match_fresh_tree_order() {
    //   1 (root)
    //   with children 2 and 3; 2 has 4 and 5; 3 has 6; 6 has 7
    let mut items = RecordArena::new();
    items.insert(make_comment_record(1, "user1", "Root comment 1", vec![2, 3]));
    items.insert(make_comment_record(2, "user2", "Child of 1", vec![4, 5]));
    items.insert(make_comment_record(3, "user3", "Child of 1", vec![6]));
    items.insert(make_comment_record(4, "user4", "Child of 2", vec![]));
    items.insert(make_comment_record(5, "user5", "Child of 2", vec![]));
    items.insert(make_comment_record(6, "user6", "Child of 3", vec![7]));
    items.insert(make_comment_record(7, "user7", "Child of 6", vec![]));

    let story_kids = vec![1];
    let mut attempted = IdSet::new();
    for id in 1..=7u64 {
        attempted.insert(id);
    }

    // Fresh path: build tree from the retained items
    let fresh_comments = build_comment_tree(items, &attempted, &story_kids);

    // Simulated cache round trip
    let story_id = 12345u64;
    let cached_as_comments = persist_and_reload(&fresh_comments, story_id);
    let cached_comments = order_cached_comments(cached_as_comments, &story_kids);

    // Both paths must produce identical results
    assert_eq!(
        fresh_comments.len(),
        cached_comments.len(),
        "Comment count mismatch"
    );

    for (i, (fresh, cached)) in fresh_comments.iter().zip(cached_comments.iter()).enumerate() {
        assert_eq!(fresh.id, cached.id, "ID mismatch at position {}", i);
        assert_eq!(
            fresh.depth, cached.depth,
            "Depth mismatch at position {} (id={})",
            i, fresh.id
        );
        assert_eq!(
            fresh.children, cached.children,
            "Kids mismatch at position {} (id={})",
            i, fresh.id
        );
    }
}

/// Verifies tree ordering with multiple root comments.
#[test]
fn test_cached_comments_multiple_roots() {
    //   10 (root 1) with child 11
    //   20 (root 2) with child 21, which has child 22
    let mut items = RecordArena::new();
    items.insert(make_comment_record(10, "a", "Root 1", vec![11]));
    items.insert(make_comment_record(11, "b", "Child of 10", vec![]));
    items.insert(make_comment_record(20, "c", "Root 2", vec![21]));
    items.insert(make_comment_record(21, "d", "Child of 20", vec![22]));
    items.insert(make_comment_record(22, "e", "Child of 21", vec![]));

    let story_kids = vec![10, 20];
    let mut attempted = IdSet::new();
    for id in [10u64, 11, 20, 21, 22] {
        attempted.insert(id);
    }

    let fresh_comments = build_comment_tree(items, &attempted, &story_kids);

    let story_id = 99999u64;
    let cached_as_comments = persist_and_reload(&fresh_comments, story_id);
    let cached_comments = order_cached_comments(cached_as_comments, &story_kids);

    // Verify DFS order: 10, 11, 20, 21, 22
    let expected_order = vec![10, 11, 20, 21, 22];
    let fresh_order: Vec<u64> = fresh_comments.iter().map(|c| c.id).collect();
    let cached_order: Vec<u64> = cached_comments.iter().map(|c| c.id).collect();

    assert_eq!(fresh_order, expected_order, "Fresh order incorrect");
    assert_eq!(cached_order, expected_order, "Cached order incorrect");
}

/// The pre-order scenario: a three-level tree comes out parent-first with
/// the right depths.
#[test]
fn test_preorder_and_depths() {
    let mut items = RecordArena::new();
    items.insert(make_comment_record(1, "u", "a", vec![2, 3]));
    items.insert(make_comment_record(2, "u", "b", vec![4, 5]));
    items.insert(make_comment_record(3, "u", "c", vec![6]));
    items.insert(make_comment_record(4, "u", "d", vec![]));
    items.insert(make_comment_record(5, "u", "e", vec![]));
    items.insert(make_comment_record(6, "u", "f", vec![7]));
    items.insert(make_comment_record(7, "u", "g", vec![]));

    let mut attempted = IdSet::new();
    for id in 1..=7u64 {
        attempted.insert(id);
    }

    let out = build_comment_tree(items, &attempted, &vec![1]);
    let order: Vec<u64> = out.iter().map(|c| c.id).collect();
    let depths: Vec<usize> = out.iter().map(|c| c.depth).collect();
    assert_eq!(order, vec![1, 2, 4, 5, 3, 6, 7]);
    assert_eq!(depths, vec![0, 1, 2, 2, 1, 2, 3]);
}

/// A node referenced twice is emitted once, at its first position.
#[test]
fn test_duplicate_reference_emitted_once() {
    let mut items = RecordArena::new();
    items.insert(make_comment_record(1, "u", "a", vec![3]));
    items.insert(make_comment_record(2, "u", "b", vec![3]));
    items.insert(make_comment_record(3, "u", "c", vec![]));

    let attempted = IdSet::new();
    let out = build_comment_tree(items, &attempted, &vec![1, 2]);
    let order: Vec<u64> = out.iter().map(|c| c.id).collect();
    assert_eq!(order, vec![1, 3, 2]);
}

#[test]
fn test_find_parent_id() {
    let records = vec![
        make_comment_record(1, "u", "a", vec![2, 3]),
        make_comment_record(2, "u", "b", vec![]),
        make_comment_record(3, "u", "c", vec![]),
    ];
    assert_eq!(find_parent_id(&records, 2), Some(1));
    assert_eq!(find_parent_id(&records, 3), Some(1));
    assert_eq!(find_parent_id(&records, 1), None);
    assert_eq!(find_parent_id(&records, 42), None);
}
