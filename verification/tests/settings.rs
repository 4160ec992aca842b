use std::collections::HashSet;

use inlay_hint_cache::cache::InlayHintCache;
use inlay_hint_cache::clock::Global;
use inlay_hint_cache::hint::{Anchor, Inlay, InlayHint, InlayHintKind};
use inlay_hint_cache::query::{ExcerptQuery, ExcerptRequest, InvalidationStrategy};
use inlay_hint_cache::settings::{allowed_hint_types, AllowedHintKinds, InlayHintSettings};
use inlay_hint_cache::splice::InlaySplice;
use inlay_hint_cache::update::{new_excerpt_hints_update_result, ExcerptHintsUpdate};

fn settings(types: bool, parameters: bool, others: bool) -> InlayHintSettings {
    InlayHintSettings {
        enabled: true,
        show_type_hints: types,
        show_parameter_hints: parameters,
        show_other_hints: others,
    }
}

fn switched_off() -> InlayHintSettings {
    InlayHintSettings { enabled: false, ..settings(true, true, true) }
}

fn a_hint(buffer_id: u64, position: usize, kind: Option<InlayHintKind>, label: &str) -> InlayHint {
    InlayHint { buffer_id, position, kind, label: label.to_string() }
}

fn shown(id: usize, excerpt_id: usize, buffer_id: u64, position: usize) -> Inlay {
    Inlay { id, position: Anchor { buffer_id: Some(buffer_id), excerpt_id, text_anchor: position } }
}

fn at(excerpt_id: usize, buffer_id: u64, position: usize) -> Anchor {
    Anchor { buffer_id: Some(buffer_id), excerpt_id, text_anchor: position }
}

/// Excerpt 1 of buffer 7 holds a type hint at 5 (identity 1), a parameter hint
/// at 10 (2) and a hint without kind at 15 (3); excerpt 2 of buffer 8 holds a
/// parameter hint at 3 (4) and a type hint at 4 (5).
fn filled_cache(initial: InlayHintSettings) -> InlayHintCache {
    let mut cache = InlayHintCache::new(initial);
    let mut next_inlay_id = 1;
    let first = ExcerptHintsUpdate {
        excerpt_id: 1,
        cache_version: 0,
        remove_from_visible: vec![],
        remove_from_cache: HashSet::new(),
        add_to_cache: vec![
            a_hint(7, 5, Some(InlayHintKind::Type), "t"),
            a_hint(7, 10, Some(InlayHintKind::Parameter), "p"),
            a_hint(7, 15, None, "o"),
        ],
    };
    cache.apply_update(first, Global { operations: vec![1] }, &mut next_inlay_id);
    let second = ExcerptHintsUpdate {
        excerpt_id: 2,
        cache_version: 1,
        remove_from_visible: vec![],
        remove_from_cache: HashSet::new(),
        add_to_cache: vec![
            a_hint(8, 3, Some(InlayHintKind::Parameter), "q"),
            a_hint(8, 4, Some(InlayHintKind::Type), "u"),
        ],
    };
    cache.apply_update(second, Global { operations: vec![1] }, &mut next_inlay_id);
    assert_eq!(cache.version(), 2);
    cache
}

fn everything_shown() -> Vec<Inlay> {
    vec![shown(1, 1, 7, 5), shown(2, 1, 7, 10), shown(3, 1, 7, 15), shown(4, 2, 8, 3), shown(5, 2, 8, 4)]
}

#[test]
fn allowed_kinds_follow_the_flags() {
    assert_eq!(
        allowed_hint_types(settings(true, false, true)),
        AllowedHintKinds { type_hints: true, parameter_hints: false, other_hints: true }
    );
    let kinds = allowed_hint_types(settings(false, true, false));
    assert!(!kinds.contains(&Some(InlayHintKind::Type)));
    assert!(kinds.contains(&Some(InlayHintKind::Parameter)));
    assert!(!kinds.contains(&None));
    assert!(!kinds.is_empty());
    assert!(allowed_hint_types(settings(false, false, false)).is_empty());
    assert_eq!(AllowedHintKinds::empty(), allowed_hint_types(settings(false, false, false)));
    assert_eq!(
        allowed_hint_types(switched_off()),
        AllowedHintKinds { type_hints: true, parameter_hints: true, other_hints: true }
    );
}

#[test]
fn new_cache_is_empty() {
    let cache = InlayHintCache::new(settings(true, false, true));
    assert_eq!(cache.version(), 0);
    assert_eq!(cache.excerpt_count(), 0);
    assert_eq!(cache.allowed_hint_kinds(), allowed_hint_types(settings(true, false, true)));
    assert!(cache.excerpt_hints(1).is_none());
    assert_eq!(cache.task_version(1), None);
}

#[test]
fn same_settings_change_nothing() {
    let mut cache = filled_cache(settings(true, true, true));
    assert_eq!(cache.update_settings(settings(true, true, true), everything_shown()), None);
    assert_eq!(cache.version(), 2);
}

#[test]
fn switching_parameter_hints_off_and_on_restores_the_display() {
    let mut cache = filled_cache(settings(true, true, true));
    let off = cache
        .update_settings(settings(true, false, true), everything_shown())
        .expect("parameter hints go");
    assert_eq!(off, InlaySplice { to_remove: vec![2, 4], to_insert: vec![] });
    assert_eq!(cache.version(), 3);
    assert_eq!(cache.allowed_hint_kinds(), allowed_hint_types(settings(true, false, true)));

    let between = vec![shown(1, 1, 7, 5), shown(3, 1, 7, 15), shown(5, 2, 8, 4)];
    let on = cache
        .update_settings(settings(true, true, true), between)
        .expect("parameter hints come back");
    assert_eq!(
        on,
        InlaySplice {
            to_remove: vec![],
            to_insert: vec![
                (at(1, 7, 10), 2, a_hint(7, 10, Some(InlayHintKind::Parameter), "p")),
                (at(2, 8, 3), 4, a_hint(8, 3, Some(InlayHintKind::Parameter), "q")),
            ],
        }
    );
    assert_eq!(cache.version(), 4);
    assert_eq!(cache.allowed_hint_kinds(), allowed_hint_types(settings(true, true, true)));
    assert_eq!(cache.excerpt_hints(1).unwrap().hints().len(), 3);
    assert_eq!(cache.excerpt_hints(2).unwrap().hints().len(), 2);
}

#[test]
fn kinds_can_go_and_come_in_one_change() {
    let mut cache = filled_cache(settings(true, false, false));
    let visible = vec![shown(1, 1, 7, 5), shown(5, 2, 8, 4)];
    let splice = cache.update_settings(settings(false, true, true), visible).unwrap();
    assert_eq!(
        splice,
        InlaySplice {
            to_remove: vec![1, 5],
            to_insert: vec![
                (at(1, 7, 10), 2, a_hint(7, 10, Some(InlayHintKind::Parameter), "p")),
                (at(1, 7, 15), 3, a_hint(7, 15, None, "o")),
                (at(2, 8, 3), 4, a_hint(8, 3, Some(InlayHintKind::Parameter), "q")),
            ],
        }
    );
}

#[test]
fn change_of_kinds_without_effect_still_records_the_kinds() {
    let mut cache = InlayHintCache::new(settings(true, true, true));
    let mut next_inlay_id = 1;
    let update = ExcerptHintsUpdate {
        excerpt_id: 1,
        cache_version: 0,
        remove_from_visible: vec![],
        remove_from_cache: HashSet::new(),
        add_to_cache: vec![a_hint(7, 5, Some(InlayHintKind::Type), "t")],
    };
    cache.apply_update(update, Global { operations: vec![1] }, &mut next_inlay_id);
    cache.spawn_hints_update(
        vec![ExcerptRequest {
            excerpt_id: 1,
            buffer_id: 7,
            excerpt_range: Some((0, 100)),
            buffer_version: Global { operations: vec![2] },
        }],
        InvalidationStrategy::Nothing,
    );
    let visible = vec![shown(1, 1, 7, 5)];
    assert_eq!(cache.update_settings(settings(true, false, true), visible), None);
    assert_eq!(cache.version(), 1);
    assert_eq!(cache.task_version(1), Some(1));
    assert_eq!(cache.allowed_hint_kinds(), allowed_hint_types(settings(true, false, true)));

    let more = ExcerptHintsUpdate {
        excerpt_id: 1,
        cache_version: 1,
        remove_from_visible: vec![],
        remove_from_cache: HashSet::new(),
        add_to_cache: vec![
            a_hint(7, 10, Some(InlayHintKind::Parameter), "p"),
            a_hint(7, 15, None, "o"),
        ],
    };
    let splice = cache.apply_update(more, Global { operations: vec![2] }, &mut next_inlay_id).unwrap();
    assert_eq!(splice, InlaySplice { to_remove: vec![], to_insert: vec![(at(1, 7, 15), 3, a_hint(7, 15, None, "o"))] });
    assert_eq!(cache.excerpt_hints(1).unwrap().hints().len(), 3);
}

#[test]
fn inlays_the_cache_does_not_know_go() {
    let mut cache = filled_cache(settings(true, true, true));
    let visible = vec![
        shown(1, 1, 7, 5),
        shown(70, 1, 7, 7),
        shown(2, 1, 7, 10),
        shown(3, 1, 7, 15),
        shown(80, 3, 9, 1),
        shown(4, 2, 8, 3),
        shown(5, 2, 8, 4),
    ];
    let splice = cache.update_settings(settings(true, true, false), visible).unwrap();
    assert_eq!(splice, InlaySplice { to_remove: vec![70, 3, 80], to_insert: vec![] });
}

#[test]
fn inlays_without_a_buffer_are_left_alone() {
    let mut cache = filled_cache(settings(true, true, true));
    let orphan = Inlay {
        id: 2,
        position: Anchor { buffer_id: None, excerpt_id: 1, text_anchor: 10 },
    };
    let visible = vec![shown(1, 1, 7, 5), orphan, shown(3, 1, 7, 15), shown(4, 2, 8, 3), shown(5, 2, 8, 4)];
    let splice = cache.update_settings(settings(true, false, true), visible).unwrap();
    assert_eq!(splice, InlaySplice { to_remove: vec![4], to_insert: vec![] });
}

#[test]
fn switching_hints_off_clears_the_cache() {
    let mut cache = filled_cache(settings(true, true, true));
    cache.spawn_hints_update(
        vec![ExcerptRequest {
            excerpt_id: 1,
            buffer_id: 7,
            excerpt_range: Some((0, 100)),
            buffer_version: Global { operations: vec![2] },
        }],
        InvalidationStrategy::Nothing,
    );
    assert_eq!(cache.task_version(1), Some(2));
    let splice = cache.update_settings(switched_off(), everything_shown()).unwrap();
    assert_eq!(splice, InlaySplice { to_remove: vec![1, 2, 3, 4, 5], to_insert: vec![] });
    assert_eq!(cache.version(), 3);
    assert_eq!(cache.excerpt_count(), 0);
    assert!(cache.excerpt_hints(1).is_none());
    assert_eq!(cache.task_version(1), None);
    assert_eq!(cache.allowed_hint_kinds(), allowed_hint_types(switched_off()));
}

#[test]
fn switching_hints_off_with_nothing_cached_or_shown_only_records_the_kinds() {
    let mut cache = InlayHintCache::new(settings(true, true, true));
    let off = InlayHintSettings { enabled: false, ..settings(false, true, false) };
    assert_eq!(cache.update_settings(off, Vec::new()), None);
    assert_eq!(cache.version(), 0);
    assert_eq!(cache.allowed_hint_kinds(), allowed_hint_types(settings(false, true, false)));
}

#[test]
fn switching_hints_off_with_nothing_cached_removes_what_is_shown() {
    let mut cache = InlayHintCache::new(settings(true, true, true));
    cache.spawn_hints_update(
        vec![ExcerptRequest {
            excerpt_id: 1,
            buffer_id: 7,
            excerpt_range: Some((0, 100)),
            buffer_version: Global { operations: vec![1] },
        }],
        InvalidationStrategy::Nothing,
    );
    let off = InlayHintSettings { enabled: false, ..settings(false, true, false) };
    let splice = cache.update_settings(off, vec![shown(1, 1, 7, 5), shown(9, 2, 8, 3)]).unwrap();
    assert_eq!(splice, InlaySplice { to_remove: vec![1, 9], to_insert: vec![] });
    assert_eq!(cache.version(), 1);
    assert_eq!(cache.excerpt_count(), 0);
    assert_eq!(cache.task_version(1), None);
    assert_eq!(cache.allowed_hint_kinds(), allowed_hint_types(settings(false, true, false)));
}

#[test]
fn clear_forgets_everything() {
    let mut cache = filled_cache(settings(true, true, true));
    cache.clear();
    assert_eq!(cache.version(), 3);
    assert_eq!(cache.excerpt_count(), 0);
    assert!(cache.allowed_hint_kinds().is_empty());
}

#[test]
fn change_of_kinds_forgets_the_fetches_on_record() {
    let mut cache = filled_cache(settings(true, true, true));
    cache.spawn_hints_update(
        vec![ExcerptRequest {
            excerpt_id: 1,
            buffer_id: 7,
            excerpt_range: Some((0, 100)),
            buffer_version: Global { operations: vec![2] },
        }],
        InvalidationStrategy::Nothing,
    );
    assert_eq!(cache.task_version(1), Some(2));
    assert!(cache.update_settings(settings(false, true, true), everything_shown()).is_some());
    assert_eq!(cache.task_version(1), None);
}

#[test]
fn splice_for_unchanged_kinds_is_absent() {
    let cache = filled_cache(settings(true, true, true));
    let kinds = allowed_hint_types(settings(true, true, true));
    assert_eq!(cache.new_allowed_hint_kinds_splice(&everything_shown(), &kinds), None);
    let fewer = allowed_hint_types(settings(false, true, true));
    let splice = cache.new_allowed_hint_kinds_splice(&everything_shown(), &fewer).unwrap();
    assert_eq!(splice.to_remove, vec![1, 5]);
    assert_eq!(cache.version(), 2);
    assert_eq!(cache.allowed_hint_kinds(), kinds);
}

#[test]
fn refetch_after_kind_change_keeps_identities() {
    let mut cache = filled_cache(settings(true, true, true));
    cache.update_settings(settings(true, false, true), everything_shown()).unwrap();
    let visible = vec![shown(1, 1, 7, 5), shown(3, 1, 7, 15), shown(5, 2, 8, 4)];
    let query = ExcerptQuery {
        buffer_id: 7,
        excerpt_id: 1,
        excerpt_range_start: 0,
        excerpt_range_end: 100,
        cache_version: cache.version(),
        invalidate: InvalidationStrategy::All,
    };
    let same = vec![
        a_hint(7, 5, Some(InlayHintKind::Type), "t"),
        a_hint(7, 10, Some(InlayHintKind::Parameter), "p"),
        a_hint(7, 15, None, "o"),
    ];
    assert!(new_excerpt_hints_update_result(query, same, cache.excerpt_hints(1), &visible).is_none());
}
