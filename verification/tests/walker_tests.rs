use hn_core::linearize::build_comment_tree;
use hn_core::records::Item;
use hn_core::walker::Traversal;

fn make_item(id: u64, kids: Vec<u64>, deleted: bool, dead: bool) -> Item {
    Item {
        id,
        kind: Some("comment".to_string()),
        author: Some("user".to_string()),
        created_at: 1700000000,
        body: Some("text".to_string()),
        title: None,
        url: None,
        score: 0,
        descendants: 0,
        children: kids,
        deleted,
        dead,
    }
}

/// Drives a traversal against a canned item table, as the application's
/// fan-out loop would against the network.
fn run_traversal(table: &[(u64, Item)], roots: Vec<u64>, max_depth: usize) -> (Traversal, Vec<u64>) {
    let mut t = Traversal::new(roots, max_depth);
    let mut fetched: Vec<u64> = Vec::new();
    while t.is_active() {
        let ids: Vec<u64> = t.frontier_ids().clone();
        let mut results: Vec<Option<Item>> = Vec::new();
        for id in ids.iter() {
            fetched.push(*id);
            let hit = table.iter().find(|(tid, _)| tid == id).map(|(_, it)| Item {
                id: it.id,
                kind: it.kind.clone(),
                author: it.author.clone(),
                created_at: it.created_at,
                body: it.body.clone(),
                title: it.title.clone(),
                url: it.url.clone(),
                score: it.score,
                descendants: it.descendants,
                children: it.children.clone(),
                deleted: it.deleted,
                dead: it.dead,
            });
            results.push(hit);
        }
        t.absorb_level(results);
    }
    (t, fetched)
}

#[test]
fn test_traversal_two_levels() {
    let table = vec![
        (1, make_item(1, vec![2, 3], false, false)),
        (2, make_item(2, vec![], false, false)),
        (3, make_item(3, vec![], false, false)),
    ];
    let (t, fetched) = run_traversal(&table, vec![1], 5);
    assert_eq!(fetched, vec![1, 2, 3]);

    let (items, attempted) = t.into_parts();
    assert!(items.contains(1));
    assert!(items.contains(2));
    assert!(items.contains(3));
    assert!(attempted.contains(1));
    assert!(attempted.contains(3));
    assert!(!attempted.contains(4));
}

#[test]
fn test_traversal_depth_bound_stops_expansion() {
    let table = vec![
        (1, make_item(1, vec![2], false, false)),
        (2, make_item(2, vec![3], false, false)),
        (3, make_item(3, vec![], false, false)),
    ];
    // depth bound 0: only the root children are fetched, their children never
    let (t, fetched) = run_traversal(&table, vec![1], 0);
    assert_eq!(fetched, vec![1]);
    let (items, attempted) = t.into_parts();
    assert!(items.contains(1));
    assert!(!items.contains(2));
    assert!(!attempted.contains(2));
}

#[test]
fn test_traversal_tombstones_dropped_but_attempted() {
    let table = vec![
        (1, make_item(1, vec![2, 3], false, false)),
        (2, make_item(2, vec![4], true, false)),  // deleted: children not followed
        (3, make_item(3, vec![], false, true)),   // dead
    ];
    let (t, fetched) = run_traversal(&table, vec![1], 5);
    assert_eq!(fetched, vec![1, 2, 3]);
    let (items, attempted) = t.into_parts();
    assert!(items.contains(1));
    assert!(!items.contains(2));
    assert!(!items.contains(3));
    assert!(attempted.contains(2));
    assert!(attempted.contains(3));
    assert!(!attempted.contains(4));
}

#[test]
fn test_traversal_failed_fetch_is_absent_downstream() {
    let table = vec![
        (1, make_item(1, vec![2, 3], false, false)),
        (3, make_item(3, vec![], false, false)),
        // id 2 missing: the fetch fails
    ];
    let (t, fetched) = run_traversal(&table, vec![1], 5);
    assert_eq!(fetched, vec![1, 2, 3]);
    let (items, attempted) = t.into_parts();
    assert!(!items.contains(2));
    assert!(attempted.contains(2));

    // downstream, node 2 is pruned from its parent's children
    let comments = build_comment_tree(items, &attempted, &vec![1]);
    let order: Vec<u64> = comments.iter().map(|c| c.id).collect();
    assert_eq!(order, vec![1, 3]);
    assert_eq!(comments[0].children, vec![3]);
}

/// End to end: breadth-first retrieval, then the depth-first reorder.
#[test]
fn test_traversal_then_linearize() {
    let table = vec![
        (1, make_item(1, vec![2, 3], false, false)),
        (2, make_item(2, vec![4, 5], false, false)),
        (3, make_item(3, vec![6], false, false)),
        (4, make_item(4, vec![], false, false)),
        (5, make_item(5, vec![], false, false)),
        (6, make_item(6, vec![7], false, false)),
        (7, make_item(7, vec![], false, false)),
    ];
    let (t, fetched) = run_traversal(&table, vec![1], 10);
    // breadth-first: level by level
    assert_eq!(fetched, vec![1, 2, 3, 4, 5, 6, 7]);

    let (items, attempted) = t.into_parts();
    let comments = build_comment_tree(items, &attempted, &vec![1]);
    let order: Vec<u64> = comments.iter().map(|c| c.id).collect();
    let depths: Vec<usize> = comments.iter().map(|c| c.depth).collect();
    // depth-first for display
    assert_eq!(order, vec![1, 2, 4, 5, 3, 6, 7]);
    assert_eq!(depths, vec![0, 1, 2, 2, 1, 2, 3]);
}

/// No id is fetched twice when the children arrays form a proper tree.
#[test]
fn test_at_most_one_fetch_per_id() {
    let table = vec![
        (1, make_item(1, vec![2, 3], false, false)),
        (2, make_item(2, vec![4], false, false)),
        (3, make_item(3, vec![5, 6], false, false)),
        (4, make_item(4, vec![], false, false)),
        (5, make_item(5, vec![], false, false)),
        (6, make_item(6, vec![], false, false)),
    ];
    let (_, fetched) = run_traversal(&table, vec![1], 10);
    let mut seen = std::collections::HashSet::new();
    for id in fetched.iter() {
        assert!(seen.insert(*id), "id {} fetched more than once", id);
    }
}
