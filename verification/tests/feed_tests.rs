use hn_core::arena::IdSet;
use hn_core::cache::{is_fresh, plan_story_request, plan_thread_request, RequestSource};
use hn_core::feed::{missing_ids, order_stories_by_ids, page_bounds, slice_page, PAGE_SIZE};
use hn_core::records::{classify_status, status_is_success, GatewayError, Item, Story};
use hn_core::theme::{choose_variant, resolve_theme_source, ThemeSource, ThemeVariant};

fn story(id: u64) -> Story {
    Story {
        id,
        title: format!("story {}", id),
        url: None,
        score: 10,
        author: "user".to_string(),
        created_at: 1700000000,
        descendants: 0,
        children: vec![],
    }
}

#[test]
fn test_page_bounds() {
    assert_eq!(page_bounds(100, 0, PAGE_SIZE), (0, 30));
    assert_eq!(page_bounds(100, 2, PAGE_SIZE), (60, 90));
    assert_eq!(page_bounds(100, 3, PAGE_SIZE), (90, 100));
    assert_eq!(page_bounds(100, 4, PAGE_SIZE), (100, 100));
    assert_eq!(page_bounds(50, 1, 30), (30, 50));
    assert_eq!(page_bounds(10, usize::MAX, 30), (10, 10));
}

#[test]
fn test_slice_page() {
    let ids = vec![5, 6, 7, 8, 9];
    assert_eq!(slice_page(&ids, 1, 3), vec![6, 7]);
    assert_eq!(slice_page(&ids, 0, 5), vec![5, 6, 7, 8, 9]);
    assert_eq!(slice_page(&ids, 2, 2), Vec::<u64>::new());
}

#[test]
fn test_missing_ids() {
    let mut have = IdSet::new();
    have.insert(2);
    have.insert(4);
    let ids = vec![1, 2, 3, 4, 5];
    assert_eq!(missing_ids(&ids, &have), vec![1, 3, 5]);
}

#[test]
fn test_order_stories_by_ids() {
    let stories = vec![story(3), story(1), story(7), story(2)];
    let ids = vec![1, 2, 3];
    let ordered = order_stories_by_ids(stories, &ids);
    let out: Vec<u64> = ordered.iter().map(|s| s.id).collect();
    // listed ids first in list order, unlisted stories keep their place at the end
    assert_eq!(out, vec![1, 2, 3, 7]);
}

#[test]
fn test_order_stories_by_ids_duplicate_reference() {
    let stories = vec![story(2), story(1)];
    let ids = vec![1, 1, 2];
    let ordered = order_stories_by_ids(stories, &ids);
    let out: Vec<u64> = ordered.iter().map(|s| s.id).collect();
    assert_eq!(out, vec![1, 2]);
}

#[test]
fn test_is_fresh() {
    assert!(is_fresh(1000, 950, 60));
    assert!(!is_fresh(1000, 940, 60));
    assert!(is_fresh(900, 950, 60)); // clock went backwards: still fresh
}

#[test]
fn test_plan_thread_request() {
    assert_eq!(plan_thread_request(false, true), RequestSource::Cache);
    assert_eq!(plan_thread_request(false, false), RequestSource::Network);
    assert_eq!(plan_thread_request(true, true), RequestSource::Network);
}

#[test]
fn test_plan_story_request() {
    assert_eq!(plan_story_request(false, Some(950), 1000, 60), RequestSource::Cache);
    assert_eq!(plan_story_request(false, Some(940), 1000, 60), RequestSource::Network);
    assert_eq!(plan_story_request(false, None, 1000, 60), RequestSource::Network);
    assert_eq!(plan_story_request(true, Some(999), 1000, 60), RequestSource::Network);
}

#[test]
fn test_status_classification() {
    assert!(status_is_success(200));
    assert!(status_is_success(299));
    assert!(!status_is_success(199));
    assert!(!status_is_success(404));
    assert_eq!(classify_status(204), Ok(()));
    assert_eq!(classify_status(404), Err(GatewayError::HttpStatus(404)));
    assert_eq!(classify_status(500), Err(GatewayError::HttpStatus(500)));
}

#[test]
fn test_story_projection() {
    let item = Item {
        id: 42,
        kind: Some("story".to_string()),
        author: None,
        created_at: 1700000000,
        body: None,
        title: Some("A title".to_string()),
        url: Some("https://example.com".to_string()),
        score: 77,
        descendants: 5,
        children: vec![1, 2],
        deleted: false,
        dead: false,
    };
    let s = item.into_story().unwrap();
    assert_eq!(s.id, 42);
    assert_eq!(s.title, "A title");
    assert_eq!(s.author, ""); // a deleted author becomes the empty name
    assert_eq!(s.score, 77);

    let untitled = Item {
        id: 43,
        kind: None,
        author: None,
        created_at: 0,
        body: None,
        title: None,
        url: None,
        score: 0,
        descendants: 0,
        children: vec![],
        deleted: false,
        dead: false,
    };
    assert!(untitled.into_story().is_none());
}

#[test]
fn test_choose_variant() {
    assert_eq!(choose_variant(true, false, true), ThemeVariant::Dark);
    assert_eq!(choose_variant(true, true, false), ThemeVariant::Dark);
    assert_eq!(choose_variant(false, true, false), ThemeVariant::Light);
    assert_eq!(choose_variant(false, false, true), ThemeVariant::Light);
    assert_eq!(choose_variant(false, false, false), ThemeVariant::Dark);
}

#[test]
fn test_resolve_theme_source() {
    assert_eq!(resolve_theme_source(false, false, false, false), ThemeSource::DefaultForVariant);
    assert_eq!(resolve_theme_source(true, true, true, true), ThemeSource::File);
    assert_eq!(resolve_theme_source(true, false, true, true), ThemeSource::BuiltIn);
    assert_eq!(resolve_theme_source(true, false, false, true), ThemeSource::CustomDir);
    assert_eq!(resolve_theme_source(true, false, false, false), ThemeSource::NotFound);
}
