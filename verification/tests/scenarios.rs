use std::collections::HashSet;

use inlay_hint_cache::cache::InlayHintCache;
use inlay_hint_cache::clock::Global;
use inlay_hint_cache::hint::{Anchor, Inlay, InlayHint, InlayHintKind};
use inlay_hint_cache::query::{ExcerptQuery, ExcerptRequest, InvalidationStrategy};
use inlay_hint_cache::settings::InlayHintSettings;
use inlay_hint_cache::splice::InlaySplice;
use inlay_hint_cache::update::{new_excerpt_hints_update_result, ExcerptHintsUpdate};

const EXCERPT: usize = 1;
const OTHER_EXCERPT: usize = 99;
const BUFFER: u64 = 7;

fn all_kinds() -> InlayHintSettings {
    InlayHintSettings {
        enabled: true,
        show_type_hints: true,
        show_parameter_hints: true,
        show_other_hints: true,
    }
}

fn hint(position: usize, kind: Option<InlayHintKind>, label: &str) -> InlayHint {
    InlayHint { buffer_id: BUFFER, position, kind, label: label.to_string() }
}

fn inlay(id: usize, position: usize) -> Inlay {
    Inlay { id, position: anchor(position) }
}

fn anchor(position: usize) -> Anchor {
    Anchor { buffer_id: Some(BUFFER), excerpt_id: EXCERPT, text_anchor: position }
}

fn version(operations: &[u32]) -> Global {
    Global { operations: operations.to_vec() }
}

fn query(cache: &InlayHintCache, invalidate: InvalidationStrategy) -> ExcerptQuery {
    ExcerptQuery {
        buffer_id: BUFFER,
        excerpt_id: EXCERPT,
        excerpt_range_start: 0,
        excerpt_range_end: 100,
        cache_version: cache.version(),
        invalidate,
    }
}

/// A cache at version 4 whose excerpt holds, at cache version 3, a type hint
/// at 5 under identity 1 and a parameter hint at 10 under identity 2.
fn cache_with_two_hints(next_inlay_id: &mut usize) -> InlayHintCache {
    let mut cache = InlayHintCache::new(all_kinds());
    for _ in 0..3 {
        let bump = ExcerptHintsUpdate {
            excerpt_id: OTHER_EXCERPT,
            cache_version: cache.version(),
            remove_from_visible: vec![1000],
            remove_from_cache: HashSet::new(),
            add_to_cache: Vec::new(),
        };
        assert!(cache.apply_update(bump, version(&[0]), next_inlay_id).is_some());
    }
    assert_eq!(cache.version(), 3);
    let fetched = vec![
        hint(5, Some(InlayHintKind::Type), "same"),
        hint(10, Some(InlayHintKind::Parameter), "param"),
    ];
    let first = query(&cache, InvalidationStrategy::OnConflict);
    let update = new_excerpt_hints_update_result(first, fetched, None, &Vec::new())
        .expect("both hints are new");
    let splice = cache.apply_update(update, version(&[1]), next_inlay_id).expect("two inlays");
    assert_eq!(
        splice,
        InlaySplice {
            to_remove: vec![],
            to_insert: vec![
                (anchor(5), 1, hint(5, Some(InlayHintKind::Type), "same")),
                (anchor(10), 2, hint(10, Some(InlayHintKind::Parameter), "param")),
            ],
        }
    );
    assert_eq!(cache.version(), 4);
    assert_eq!(cache.excerpt_hints(EXCERPT).unwrap().version(), 3);
    cache
}

fn refetched() -> Vec<InlayHint> {
    vec![hint(5, Some(InlayHintKind::Type), "same"), hint(12, Some(InlayHintKind::Type), "new")]
}

#[test]
fn on_conflict_refresh_replaces_unconfirmed_hint() {
    let mut next_inlay_id = 1;
    let mut cache = cache_with_two_hints(&mut next_inlay_id);
    let visible = vec![inlay(1, 5), inlay(2, 10)];
    let q = query(&cache, InvalidationStrategy::OnConflict);
    assert_eq!(q.cache_version, 4);
    let update =
        new_excerpt_hints_update_result(q, refetched(), cache.excerpt_hints(EXCERPT), &visible)
            .expect("one hint goes and one comes");
    assert_eq!(update.excerpt_id, EXCERPT);
    assert_eq!(update.cache_version, 4);
    assert_eq!(update.remove_from_visible, vec![2]);
    assert_eq!(update.remove_from_cache, HashSet::from([2]));
    assert_eq!(update.add_to_cache, vec![hint(12, Some(InlayHintKind::Type), "new")]);

    let splice = cache.apply_update(update, version(&[2]), &mut next_inlay_id).expect("a change");
    assert_eq!(
        splice,
        InlaySplice {
            to_remove: vec![2],
            to_insert: vec![(anchor(12), 3, hint(12, Some(InlayHintKind::Type), "new"))],
        }
    );
    assert_eq!(next_inlay_id, 4);
    assert_eq!(cache.version(), 5);
    let cached = cache.excerpt_hints(EXCERPT).unwrap();
    assert_eq!(cached.version(), 4);
    assert_eq!(cached.buffer_version(), &version(&[2]));
    assert_eq!(
        cached.hints(),
        &vec![
            (1, hint(5, Some(InlayHintKind::Type), "same")),
            (3, hint(12, Some(InlayHintKind::Type), "new")),
        ]
    );
}

#[test]
fn additive_refresh_keeps_unconfirmed_hint() {
    let mut next_inlay_id = 1;
    let mut cache = cache_with_two_hints(&mut next_inlay_id);
    let visible = vec![inlay(1, 5), inlay(2, 10)];
    let q = query(&cache, InvalidationStrategy::Nothing);
    let update =
        new_excerpt_hints_update_result(q, refetched(), cache.excerpt_hints(EXCERPT), &visible)
            .expect("one hint comes");
    assert!(update.remove_from_visible.is_empty());
    assert!(update.remove_from_cache.is_empty());
    assert_eq!(update.add_to_cache, vec![hint(12, Some(InlayHintKind::Type), "new")]);

    let splice = cache.apply_update(update, version(&[2]), &mut next_inlay_id).expect("a change");
    assert_eq!(
        splice,
        InlaySplice {
            to_remove: vec![],
            to_insert: vec![(anchor(12), 3, hint(12, Some(InlayHintKind::Type), "new"))],
        }
    );
    assert_eq!(
        cache.excerpt_hints(EXCERPT).unwrap().hints(),
        &vec![
            (1, hint(5, Some(InlayHintKind::Type), "same")),
            (2, hint(10, Some(InlayHintKind::Parameter), "param")),
            (3, hint(12, Some(InlayHintKind::Type), "new")),
        ]
    );
}

#[test]
fn same_answer_changes_nothing() {
    let mut next_inlay_id = 1;
    let cache = cache_with_two_hints(&mut next_inlay_id);
    let visible = vec![inlay(1, 5), inlay(2, 10)];
    let same = vec![
        hint(10, Some(InlayHintKind::Parameter), "param"),
        hint(5, Some(InlayHintKind::Type), "same"),
    ];
    for invalidate in [
        InvalidationStrategy::All,
        InvalidationStrategy::OnConflict,
        InvalidationStrategy::Nothing,
    ] {
        let update = new_excerpt_hints_update_result(
            query(&cache, invalidate),
            same.clone(),
            cache.excerpt_hints(EXCERPT),
            &visible,
        );
        assert!(update.is_none());
    }
    assert_eq!(next_inlay_id, 3);
}

#[test]
fn confirmed_hint_keeps_its_identity() {
    let mut next_inlay_id = 1;
    let mut cache = cache_with_two_hints(&mut next_inlay_id);
    let visible = vec![inlay(1, 5), inlay(2, 10)];
    let fetched = vec![
        hint(10, Some(InlayHintKind::Parameter), "param"),
        hint(3, None, "early"),
    ];
    let update = new_excerpt_hints_update_result(
        query(&cache, InvalidationStrategy::All),
        fetched,
        cache.excerpt_hints(EXCERPT),
        &visible,
    )
    .unwrap();
    assert!(!update.remove_from_cache.contains(&2));
    assert_eq!(update.add_to_cache, vec![hint(3, None, "early")]);
    cache.apply_update(update, version(&[2]), &mut next_inlay_id).unwrap();
    assert_eq!(
        cache.excerpt_hints(EXCERPT).unwrap().hints(),
        &vec![(3, hint(3, None, "early")), (2, hint(10, Some(InlayHintKind::Parameter), "param"))]
    );
}

#[test]
fn changed_hint_at_same_position_gets_new_identity() {
    let mut next_inlay_id = 1;
    let mut cache = cache_with_two_hints(&mut next_inlay_id);
    let visible = vec![inlay(1, 5), inlay(2, 10)];
    let fetched = vec![
        hint(5, Some(InlayHintKind::Type), "changed"),
        hint(10, Some(InlayHintKind::Parameter), "param"),
    ];
    let update = new_excerpt_hints_update_result(
        query(&cache, InvalidationStrategy::OnConflict),
        fetched,
        cache.excerpt_hints(EXCERPT),
        &visible,
    )
    .unwrap();
    assert_eq!(update.remove_from_visible, vec![1]);
    assert_eq!(update.remove_from_cache, HashSet::from([1]));
    let splice = cache.apply_update(update, version(&[2]), &mut next_inlay_id).unwrap();
    assert_eq!(splice.to_remove, vec![1]);
    assert_eq!(
        splice.to_insert,
        vec![(anchor(5), 3, hint(5, Some(InlayHintKind::Type), "changed"))]
    );
    assert_eq!(
        cache.excerpt_hints(EXCERPT).unwrap().hints(),
        &vec![
            (3, hint(5, Some(InlayHintKind::Type), "changed")),
            (2, hint(10, Some(InlayHintKind::Parameter), "param")),
        ]
    );
}

#[test]
fn late_update_is_dropped() {
    let mut next_inlay_id = 1;
    let mut cache = cache_with_two_hints(&mut next_inlay_id);
    let visible = vec![inlay(1, 5), inlay(2, 10)];
    let older_query = ExcerptQuery { cache_version: 2, ..query(&cache, InvalidationStrategy::All) };
    let newer_query = query(&cache, InvalidationStrategy::All);
    let older = new_excerpt_hints_update_result(
        older_query,
        vec![hint(20, None, "old answer")],
        cache.excerpt_hints(EXCERPT),
        &visible,
    )
    .unwrap();
    let newer = new_excerpt_hints_update_result(
        newer_query,
        vec![hint(30, None, "new answer")],
        cache.excerpt_hints(EXCERPT),
        &visible,
    )
    .unwrap();
    assert!(cache.apply_update(newer, version(&[3]), &mut next_inlay_id).is_some());
    assert_eq!(cache.version(), 5);
    assert_eq!(next_inlay_id, 4);
    assert!(cache.apply_update(older, version(&[2]), &mut next_inlay_id).is_none());
    assert_eq!(cache.version(), 5);
    assert_eq!(next_inlay_id, 4);
    let cached = cache.excerpt_hints(EXCERPT).unwrap();
    assert_eq!(cached.version(), 4);
    assert_eq!(cached.buffer_version(), &version(&[3]));
    assert_eq!(cached.hints(), &vec![(3, hint(30, None, "new answer"))]);
}

#[test]
fn late_update_is_dropped_even_at_the_last_identity() {
    let mut next_inlay_id = 1;
    let mut cache = cache_with_two_hints(&mut next_inlay_id);
    let late = ExcerptHintsUpdate {
        excerpt_id: EXCERPT,
        cache_version: 2,
        remove_from_visible: vec![1],
        remove_from_cache: HashSet::from([1]),
        add_to_cache: vec![hint(7, None, "late"), hint(8, None, "later")],
    };
    let mut last_identity = usize::MAX;
    assert!(cache.apply_update(late, version(&[0]), &mut last_identity).is_none());
    assert_eq!(last_identity, usize::MAX);
    assert_eq!(cache.version(), 4);
    assert_eq!(cache.excerpt_hints(EXCERPT).unwrap().hints().len(), 2);
}

#[test]
fn additive_refresh_with_changed_hint_shares_a_position() {
    let mut next_inlay_id = 1;
    let mut cache = cache_with_two_hints(&mut next_inlay_id);
    let update = new_excerpt_hints_update_result(
        query(&cache, InvalidationStrategy::Nothing),
        vec![hint(5, Some(InlayHintKind::Type), "changed")],
        cache.excerpt_hints(EXCERPT),
        &vec![inlay(1, 5), inlay(2, 10)],
    )
    .unwrap();
    cache.apply_update(update, version(&[2]), &mut next_inlay_id).unwrap();
    assert_eq!(
        cache.excerpt_hints(EXCERPT).unwrap().hints(),
        &vec![
            (1, hint(5, Some(InlayHintKind::Type), "same")),
            (3, hint(5, Some(InlayHintKind::Type), "changed")),
            (2, hint(10, Some(InlayHintKind::Parameter), "param")),
        ]
    );
}

#[test]
fn update_at_same_version_is_applied() {
    let mut next_inlay_id = 1;
    let mut cache = cache_with_two_hints(&mut next_inlay_id);
    let same_version = ExcerptHintsUpdate {
        excerpt_id: EXCERPT,
        cache_version: 3,
        remove_from_visible: vec![],
        remove_from_cache: HashSet::new(),
        add_to_cache: vec![hint(7, None, "more")],
    };
    assert!(cache.apply_update(same_version, version(&[1]), &mut next_inlay_id).is_some());
    assert_eq!(cache.excerpt_hints(EXCERPT).unwrap().version(), 3);
    assert_eq!(cache.excerpt_hints(EXCERPT).unwrap().hints().len(), 3);
}

#[test]
fn committed_hints_are_sorted_by_position() {
    let mut next_inlay_id = 10;
    let mut cache = InlayHintCache::new(all_kinds());
    let fetched = vec![
        hint(30, None, "c"),
        hint(10, None, "a"),
        hint(20, None, "b"),
        hint(10, None, "a again"),
    ];
    let update = new_excerpt_hints_update_result(
        query(&cache, InvalidationStrategy::Nothing),
        fetched,
        None,
        &Vec::new(),
    )
    .unwrap();
    let splice = cache.apply_update(update, version(&[1]), &mut next_inlay_id).unwrap();
    assert_eq!(
        splice.to_insert.iter().map(|(_, id, _)| *id).collect::<Vec<_>>(),
        vec![10, 11, 12, 13]
    );
    assert_eq!(
        cache.excerpt_hints(EXCERPT).unwrap().hints(),
        &vec![
            (11, hint(10, None, "a")),
            (13, hint(10, None, "a again")),
            (12, hint(20, None, "b")),
            (10, hint(30, None, "c")),
        ]
    );
    assert_eq!(cache.excerpt_hints(EXCERPT).unwrap().position_index(10), Some(0));
    assert_eq!(cache.excerpt_hints(EXCERPT).unwrap().position_index(20), Some(2));
    assert_eq!(cache.excerpt_hints(EXCERPT).unwrap().position_index(25), None);
}

#[test]
fn hints_outside_the_queried_range_are_dropped() {
    let cache = InlayHintCache::new(all_kinds());
    let q = ExcerptQuery {
        excerpt_range_start: 10,
        excerpt_range_end: 20,
        ..query(&cache, InvalidationStrategy::All)
    };
    let fetched = vec![
        hint(9, None, "before"),
        hint(10, None, "start"),
        hint(20, None, "end"),
        hint(21, None, "after"),
    ];
    let update = new_excerpt_hints_update_result(q, fetched, None, &Vec::new()).unwrap();
    assert_eq!(update.add_to_cache, vec![hint(10, None, "start"), hint(20, None, "end")]);
    let only_outside = vec![hint(9, None, "before"), hint(21, None, "after")];
    assert!(new_excerpt_hints_update_result(q, only_outside, None, &Vec::new()).is_none());
}

#[test]
fn invalidation_spares_inlays_of_other_excerpts_and_ranges() {
    let mut next_inlay_id = 1;
    let cache = cache_with_two_hints(&mut next_inlay_id);
    let elsewhere = Inlay {
        id: 50,
        position: Anchor { buffer_id: Some(BUFFER), excerpt_id: OTHER_EXCERPT, text_anchor: 5 },
    };
    let visible = vec![elsewhere, inlay(1, 5), inlay(2, 10), inlay(60, 500)];
    let update = new_excerpt_hints_update_result(
        query(&cache, InvalidationStrategy::All),
        Vec::new(),
        cache.excerpt_hints(EXCERPT),
        &visible,
    )
    .unwrap();
    assert_eq!(update.remove_from_visible, vec![1, 2]);
    assert_eq!(update.remove_from_cache, HashSet::from([1, 2]));
    assert!(update.add_to_cache.is_empty());
}

#[test]
fn hints_of_disallowed_kinds_are_cached_but_not_shown() {
    let mut next_inlay_id = 1;
    let mut cache = InlayHintCache::new(InlayHintSettings {
        show_parameter_hints: false,
        ..all_kinds()
    });
    let fetched = vec![
        hint(5, Some(InlayHintKind::Type), "t"),
        hint(10, Some(InlayHintKind::Parameter), "p"),
        hint(15, None, "o"),
    ];
    let update = new_excerpt_hints_update_result(
        query(&cache, InvalidationStrategy::Nothing),
        fetched,
        None,
        &Vec::new(),
    )
    .unwrap();
    let splice = cache.apply_update(update, version(&[1]), &mut next_inlay_id).unwrap();
    assert_eq!(
        splice.to_insert,
        vec![
            (anchor(5), 1, hint(5, Some(InlayHintKind::Type), "t")),
            (anchor(15), 3, hint(15, None, "o")),
        ]
    );
    assert_eq!(cache.excerpt_hints(EXCERPT).unwrap().hints().len(), 3);
    assert_eq!(next_inlay_id, 4);
}

#[test]
fn update_that_shows_nothing_still_counts() {
    let mut next_inlay_id = 1;
    let mut cache = InlayHintCache::new(InlayHintSettings {
        show_parameter_hints: false,
        ..all_kinds()
    });
    let update = new_excerpt_hints_update_result(
        query(&cache, InvalidationStrategy::Nothing),
        vec![hint(10, Some(InlayHintKind::Parameter), "p")],
        None,
        &Vec::new(),
    )
    .unwrap();
    assert!(cache.apply_update(update, version(&[1]), &mut next_inlay_id).is_none());
    assert_eq!(cache.version(), 1);
    assert_eq!(cache.excerpt_count(), 1);
    assert_eq!(
        cache.excerpt_hints(EXCERPT).unwrap().hints(),
        &vec![(1, hint(10, Some(InlayHintKind::Parameter), "p"))]
    );
}

#[test]
fn refresh_through_the_scheduler() {
    let mut next_inlay_id = 1;
    let mut cache = cache_with_two_hints(&mut next_inlay_id);
    let queries = cache.spawn_hints_update(
        vec![ExcerptRequest {
            excerpt_id: EXCERPT,
            buffer_id: BUFFER,
            excerpt_range: Some((0, 100)),
            buffer_version: version(&[2]),
        }],
        InvalidationStrategy::OnConflict,
    );
    assert_eq!(queries, vec![query(&cache, InvalidationStrategy::OnConflict)]);
    assert_eq!(cache.task_version(EXCERPT), Some(4));
    let visible = vec![inlay(1, 5), inlay(2, 10)];
    let update = new_excerpt_hints_update_result(
        queries[0],
        refetched(),
        cache.excerpt_hints(EXCERPT),
        &visible,
    )
    .unwrap();
    let splice = cache.apply_update(update, version(&[2]), &mut next_inlay_id).unwrap();
    assert_eq!(splice.to_remove, vec![2]);
    assert_eq!(cache.excerpt_hints(EXCERPT).unwrap().version(), 4);
}
