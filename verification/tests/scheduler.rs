use std::collections::HashSet;

use inlay_hint_cache::cache::InlayHintCache;
use inlay_hint_cache::clock::Global;
use inlay_hint_cache::display::visible_inlay_hints;
use inlay_hint_cache::hint::{same_kind, Anchor, Inlay, InlayHint, InlayHintKind};
use inlay_hint_cache::query::{ExcerptQuery, ExcerptRequest, InvalidationStrategy};
use inlay_hint_cache::settings::InlayHintSettings;
use inlay_hint_cache::splice::InlaySplice;
use inlay_hint_cache::update::ExcerptHintsUpdate;

fn new_cache() -> InlayHintCache {
    InlayHintCache::new(InlayHintSettings {
        enabled: true,
        show_type_hints: true,
        show_parameter_hints: true,
        show_other_hints: true,
    })
}

fn request(excerpt_id: usize, operations: &[u32]) -> ExcerptRequest {
    ExcerptRequest {
        excerpt_id,
        buffer_id: 7,
        excerpt_range: Some((10, 20)),
        buffer_version: Global { operations: operations.to_vec() },
    }
}

fn sent(excerpt_id: usize, cache_version: usize, invalidate: InvalidationStrategy) -> ExcerptQuery {
    ExcerptQuery {
        buffer_id: 7,
        excerpt_id,
        excerpt_range_start: 10,
        excerpt_range_end: 20,
        cache_version,
        invalidate,
    }
}

/// Applies an update that caches one hint for the excerpt, as of the given
/// buffer version, and so raises the cache version by one.
fn cache_one_hint(cache: &mut InlayHintCache, excerpt_id: usize, operations: &[u32]) {
    let mut next_inlay_id = 100 + cache.version();
    let update = ExcerptHintsUpdate {
        excerpt_id,
        cache_version: cache.version(),
        remove_from_visible: vec![],
        remove_from_cache: HashSet::new(),
        add_to_cache: vec![InlayHint {
            buffer_id: 7,
            position: 12,
            kind: None,
            label: String::from("hint"),
        }],
    };
    let buffer_version = Global { operations: operations.to_vec() };
    assert!(cache.apply_update(update, buffer_version, &mut next_inlay_id).is_some());
}

#[test]
fn first_request_is_sent() {
    let mut cache = new_cache();
    let queries = cache
        .spawn_hints_update(vec![request(1, &[1]), request(2, &[1])], InvalidationStrategy::Nothing);
    assert_eq!(
        queries,
        vec![
            sent(1, 0, InvalidationStrategy::Nothing),
            sent(2, 0, InvalidationStrategy::Nothing),
        ]
    );
    assert_eq!(cache.task_version(1), Some(0));
    assert_eq!(cache.task_version(2), Some(0));
    assert_eq!(cache.task_version(3), None);
    assert_eq!(cache.version(), 0);
}

#[test]
fn request_at_the_version_of_a_fetch_on_record_needs_invalidation() {
    let mut cache = new_cache();
    cache.spawn_hints_update(vec![request(1, &[1])], InvalidationStrategy::Nothing);
    assert!(cache.spawn_hints_update(vec![request(1, &[1])], InvalidationStrategy::Nothing).is_empty());
    assert_eq!(
        cache.spawn_hints_update(vec![request(1, &[1])], InvalidationStrategy::OnConflict),
        vec![sent(1, 0, InvalidationStrategy::OnConflict)]
    );
    assert_eq!(
        cache.spawn_hints_update(vec![request(1, &[1])], InvalidationStrategy::All),
        vec![sent(1, 0, InvalidationStrategy::All)]
    );
    assert_eq!(cache.task_version(1), Some(0));
}

#[test]
fn request_after_a_change_of_the_cache_supersedes_the_fetch_on_record() {
    let mut cache = new_cache();
    cache.spawn_hints_update(vec![request(1, &[1])], InvalidationStrategy::Nothing);
    cache_one_hint(&mut cache, 2, &[1]);
    assert_eq!(cache.version(), 1);
    assert_eq!(
        cache.spawn_hints_update(vec![request(1, &[1])], InvalidationStrategy::Nothing),
        vec![sent(1, 1, InvalidationStrategy::Nothing)]
    );
    assert_eq!(cache.task_version(1), Some(1));
}

#[test]
fn invalidation_forgets_fetches_of_excerpts_not_asked_for() {
    let mut cache = new_cache();
    cache.spawn_hints_update(vec![request(1, &[1]), request(2, &[1])], InvalidationStrategy::Nothing);
    cache.spawn_hints_update(vec![request(3, &[1])], InvalidationStrategy::Nothing);
    assert_eq!(cache.task_version(1), Some(0));
    assert_eq!(cache.task_version(2), Some(0));
    assert_eq!(cache.task_version(3), Some(0));
    cache.spawn_hints_update(vec![request(2, &[1])], InvalidationStrategy::OnConflict);
    assert_eq!(cache.task_version(1), None);
    assert_eq!(cache.task_version(2), Some(0));
    assert_eq!(cache.task_version(3), None);
}

#[test]
fn excerpt_without_a_range_is_skipped() {
    let mut cache = new_cache();
    let gone = ExcerptRequest { excerpt_range: None, ..request(1, &[1]) };
    assert!(cache.spawn_hints_update(vec![gone, request(2, &[1])], InvalidationStrategy::All)
        == vec![sent(2, 0, InvalidationStrategy::All)]);
    assert_eq!(cache.task_version(1), None);
    assert_eq!(cache.task_version(2), Some(0));
}

#[test]
fn unchanged_buffer_is_fetched_only_when_all_is_invalidated() {
    let mut cache = new_cache();
    cache_one_hint(&mut cache, 1, &[3, 1]);
    assert!(cache.spawn_hints_update(vec![request(1, &[3, 1])], InvalidationStrategy::Nothing).is_empty());
    assert!(cache.spawn_hints_update(vec![request(1, &[3, 1])], InvalidationStrategy::OnConflict).is_empty());
    assert_eq!(cache.task_version(1), None);
    assert_eq!(
        cache.spawn_hints_update(vec![request(1, &[3, 1])], InvalidationStrategy::All),
        vec![sent(1, 1, InvalidationStrategy::All)]
    );
    assert_eq!(cache.task_version(1), Some(1));
}

#[test]
fn changed_buffer_is_fetched() {
    let mut cache = new_cache();
    cache_one_hint(&mut cache, 1, &[3, 1]);
    assert_eq!(
        cache.spawn_hints_update(vec![request(1, &[3, 2])], InvalidationStrategy::Nothing),
        vec![sent(1, 1, InvalidationStrategy::Nothing)]
    );
    cache_one_hint(&mut cache, 2, &[1]);
    assert_eq!(
        cache.spawn_hints_update(vec![request(1, &[3, 1, 1])], InvalidationStrategy::OnConflict),
        vec![sent(1, 2, InvalidationStrategy::OnConflict)]
    );
}

#[test]
fn buffer_behind_the_cache_is_not_fetched() {
    let mut cache = new_cache();
    cache_one_hint(&mut cache, 1, &[3, 1]);
    for invalidate in [
        InvalidationStrategy::All,
        InvalidationStrategy::OnConflict,
        InvalidationStrategy::Nothing,
    ] {
        assert!(cache.spawn_hints_update(vec![request(1, &[2, 1])], invalidate).is_empty());
        assert!(cache.spawn_hints_update(vec![request(1, &[2, 5])], invalidate).is_empty());
        assert!(cache.spawn_hints_update(vec![request(1, &[3])], invalidate).is_empty());
    }
    assert_eq!(cache.task_version(1), None);
}

#[test]
fn versions_compare_by_replica() {
    let v = |operations: &[u32]| Global { operations: operations.to_vec() };
    assert!(!Global::new().changed_since(&Global::new()));
    assert!(!v(&[1, 2]).changed_since(&v(&[1, 2])));
    assert!(v(&[1, 3]).changed_since(&v(&[1, 2])));
    assert!(!v(&[1, 2]).changed_since(&v(&[1, 3])));
    assert!(v(&[2, 0]).changed_since(&v(&[1, 3])));
    assert!(v(&[1, 3]).changed_since(&v(&[2, 0])));
    assert!(v(&[0, 0, 0]).changed_since(&v(&[5, 5])));
    assert!(!v(&[5]).changed_since(&v(&[5, 0])));
    assert!(v(&[1]).changed_since(&Global::new()));
    assert_eq!(v(&[1, 2]).clone(), v(&[1, 2]));
}

#[test]
fn queried_range_includes_both_ends() {
    let query = sent(1, 0, InvalidationStrategy::Nothing);
    assert!(!query.contains_position(9));
    assert!(query.contains_position(10));
    assert!(query.contains_position(15));
    assert!(query.contains_position(20));
    assert!(!query.contains_position(21));
    let empty = ExcerptQuery { excerpt_range_start: 5, excerpt_range_end: 4, ..query };
    assert!(!empty.contains_position(4));
    assert!(!empty.contains_position(5));
}

#[test]
fn only_invalidating_strategies_invalidate() {
    assert!(InvalidationStrategy::All.should_invalidate());
    assert!(InvalidationStrategy::OnConflict.should_invalidate());
    assert!(!InvalidationStrategy::Nothing.should_invalidate());
}

#[test]
fn suggestion_is_not_an_inlay_hint() {
    let inlay = |id: usize| Inlay {
        id,
        position: Anchor { buffer_id: Some(7), excerpt_id: 1, text_anchor: id },
    };
    let current = vec![inlay(1), inlay(2), inlay(3)];
    assert_eq!(visible_inlay_hints(&current, None), current);
    assert_eq!(visible_inlay_hints(&current, Some(2)), vec![inlay(1), inlay(3)]);
    assert_eq!(visible_inlay_hints(&current, Some(9)), current);
    assert!(visible_inlay_hints(&Vec::new(), Some(1)).is_empty());
}

#[test]
fn hints_are_equal_by_value() {
    let hint = InlayHint {
        buffer_id: 7,
        position: 5,
        kind: Some(InlayHintKind::Type),
        label: String::from(": u32"),
    };
    assert_eq!(hint.clone(), hint);
    assert_ne!(InlayHint { buffer_id: 8, ..hint.clone() }, hint);
    assert_ne!(InlayHint { position: 6, ..hint.clone() }, hint);
    assert_ne!(InlayHint { kind: None, ..hint.clone() }, hint);
    assert_ne!(InlayHint { kind: Some(InlayHintKind::Parameter), ..hint.clone() }, hint);
    assert_ne!(InlayHint { label: String::from(": u64"), ..hint.clone() }, hint);
    assert!(same_kind(None, None));
    assert!(same_kind(Some(InlayHintKind::Type), Some(InlayHintKind::Type)));
    assert!(!same_kind(Some(InlayHintKind::Type), Some(InlayHintKind::Parameter)));
    assert!(!same_kind(Some(InlayHintKind::Parameter), None));
}

#[test]
fn default_splice_is_empty() {
    assert_eq!(InlaySplice::default(), InlaySplice { to_remove: vec![], to_insert: vec![] });
}
