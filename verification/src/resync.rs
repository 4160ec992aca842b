//! Bringing the display in line with a changed set of allowed hint kinds,
//! from what is cached and without asking the hint source.

use vstd::prelude::*;
use crate::cache::CacheView;
use crate::excerpt_hints::{cached_views, lemma_filter_push, ExcerptHintsView};
use crate::hint::{hint_anchor, Anchor, ExcerptId, HintView, Inlay, InlayHint, InlayHintKind, InlayId};
use crate::settings::{allowed_kinds_of, AllowedHintKinds, InlayHintSettings};
use crate::splice::{insert_views, InlaySplice, SpliceView};

verus! {

/// The displayed inlays of one excerpt, in the order in which they are
/// displayed.
pub open spec fn shown_in(visible: Seq<Inlay>, excerpt_id: ExcerptId) -> Seq<Inlay> {
    visible.filter(|inlay: Inlay| inlay.position.excerpt_id == excerpt_id)
}

/// Whether hints of kind `kind` were not on display under `old_kinds` and are
/// under `new_kinds`.
pub open spec fn newly_allowed(
    kind: Option<InlayHintKind>,
    old_kinds: Set<Option<InlayHintKind>>,
    new_kinds: Set<Option<InlayHintKind>>,
) -> bool {
    !old_kinds.contains(kind) && new_kinds.contains(kind)
}

/// What changes on the display of one excerpt when the allowed kinds change
/// from `old_kinds` to `new_kinds`: the identities to take off it and the
/// inlays to put on it. This is the rest of a walk that has come to index `i`
/// of the displayed inlays `shown` and to index `c` of the cached hints
/// `cached`, both of which are in the order of their positions.
///
/// A displayed inlay whose buffer is unknown is left alone. A displayed inlay
/// that is the next cached hint stays where its kind is allowed, and goes
/// where it is not. A cached hint at or before the next displayed inlay, and
/// any cached hint after the last one, comes onto the display where its kind
/// is newly allowed. A displayed inlay that the cache does not hold at its
/// place goes.
pub open spec fn walk(
    excerpt_id: ExcerptId,
    shown: Seq<Inlay>,
    cached: Seq<(InlayId, HintView)>,
    i: int,
    c: int,
    old_kinds: Set<Option<InlayHintKind>>,
    new_kinds: Set<Option<InlayHintKind>>,
) -> (Seq<InlayId>, Seq<(Anchor, InlayId, HintView)>)
    decreases shown.len() - i + (cached.len() - c),
{
    if !(0 <= i <= shown.len() && 0 <= c <= cached.len()) {
        (Seq::empty(), Seq::empty())
    } else if i == shown.len() {
        if c == cached.len() {
            (Seq::empty(), Seq::empty())
        } else {
            let rest = walk(excerpt_id, shown, cached, i, c + 1, old_kinds, new_kinds);
            if newly_allowed(cached[c].1.kind, old_kinds, new_kinds) {
                (rest.0, seq![inlay_of(excerpt_id, cached[c])] + rest.1)
            } else {
                rest
            }
        }
    } else if shown[i].position.buffer_id is None {
        walk(excerpt_id, shown, cached, i + 1, c, old_kinds, new_kinds)
    } else if c == cached.len() {
        let rest = walk(excerpt_id, shown, cached, i + 1, c, old_kinds, new_kinds);
        (seq![shown[i].id] + rest.0, rest.1)
    } else if cached[c].0 == shown[i].id {
        let rest = walk(excerpt_id, shown, cached, i + 1, c + 1, old_kinds, new_kinds);
        if new_kinds.contains(cached[c].1.kind) {
            rest
        } else {
            (seq![shown[i].id] + rest.0, rest.1)
        }
    } else if cached[c].1.position <= shown[i].position.text_anchor {
        let rest = walk(excerpt_id, shown, cached, i, c + 1, old_kinds, new_kinds);
        if newly_allowed(cached[c].1.kind, old_kinds, new_kinds) {
            (rest.0, seq![inlay_of(excerpt_id, cached[c])] + rest.1)
        } else {
            rest
        }
    } else {
        let rest = walk(excerpt_id, shown, cached, i + 1, c, old_kinds, new_kinds);
        (seq![shown[i].id] + rest.0, rest.1)
    }
}

/// The inlay to display for a cached hint of an excerpt.
pub open spec fn inlay_of(excerpt_id: ExcerptId, cached: (InlayId, HintView)) -> (
    Anchor,
    InlayId,
    HintView,
) {
    (hint_anchor(excerpt_id, cached.1), cached.0, cached.1)
}

/// What changes on the display of one excerpt when the allowed kinds change
/// from `old_kinds` to `new_kinds`, given all displayed inlays and the hints
/// cached for the excerpt.
pub open spec fn excerpt_kinds_splice(
    excerpt_id: ExcerptId,
    visible: Seq<Inlay>,
    cached: Seq<(InlayId, HintView)>,
    old_kinds: Set<Option<InlayHintKind>>,
    new_kinds: Set<Option<InlayHintKind>>,
) -> (Seq<InlayId>, Seq<(Anchor, InlayId, HintView)>) {
    walk(excerpt_id, shown_in(visible, excerpt_id), cached, 0, 0, old_kinds, new_kinds)
}

/// What changes on the display of the excerpts `order`, one after the other,
/// when the allowed kinds change from `old_kinds` to `new_kinds`.
pub open spec fn kinds_splice_over(
    order: Seq<ExcerptId>,
    excerpts: Map<ExcerptId, ExcerptHintsView>,
    visible: Seq<Inlay>,
    old_kinds: Set<Option<InlayHintKind>>,
    new_kinds: Set<Option<InlayHintKind>>,
) -> (Seq<InlayId>, Seq<(Anchor, InlayId, HintView)>)
    decreases order.len(),
{
    if order.len() == 0 {
        (Seq::empty(), Seq::empty())
    } else {
        let before = kinds_splice_over(order.drop_last(), excerpts, visible, old_kinds, new_kinds);
        let here = excerpt_kinds_splice(
            order.last(),
            visible,
            excerpts[order.last()].hints,
            old_kinds,
            new_kinds,
        );
        (before.0 + here.0, before.1 + here.1)
    }
}

/// The displayed inlays of excerpts that have no cached hints.
pub open spec fn uncached_inlays(cache: CacheView, visible: Seq<Inlay>) -> Seq<InlayId> {
    visible.filter(|inlay: Inlay| !cache.excerpts.contains_key(inlay.position.excerpt_id)).map_values(
        |inlay: Inlay| inlay.id,
    )
}

/// What changes on the display when the allowed kinds of `cache` become
/// `new_kinds`: for each excerpt with cached hints, in the order in which they
/// entered the cache, what [`excerpt_kinds_splice`] gives; beyond that, every
/// displayed inlay of an excerpt without cached hints goes.
pub open spec fn kinds_splice(
    cache: CacheView,
    visible: Seq<Inlay>,
    new_kinds: AllowedHintKinds,
) -> SpliceView {
    let cached = kinds_splice_over(
        cache.order,
        cache.excerpts,
        visible,
        cache.allowed_hint_kinds@,
        new_kinds@,
    );
    SpliceView { to_remove: cached.0 + uncached_inlays(cache, visible), to_insert: cached.1 }
}

/// The cache after the settings become `settings`, and the change to make to
/// the display, if there is one.
///
/// The allowed kinds become those of the settings in every case. Where hints
/// are switched off, the cache is cleared and every displayed inlay goes;
/// only where nothing is cached and nothing is displayed is there nothing to
/// do. Where they are on and the allowed kinds differ from those of the cache,
/// the display changes as [`kinds_splice`] says; if that is no change,
/// nothing else changes in the cache.
pub open spec fn settings_result(
    cache: CacheView,
    settings: InlayHintSettings,
    visible: Seq<Inlay>,
) -> (CacheView, Option<SpliceView>) {
    let new_kinds = allowed_kinds_of(settings);
    if !settings.enabled {
        if cache.order.len() == 0 && visible.len() == 0 {
            (CacheView { allowed_hint_kinds: new_kinds, ..cache }, None)
        } else {
            (
                CacheView {
                    excerpts: Map::empty(),
                    order: Seq::empty(),
                    allowed_hint_kinds: new_kinds,
                    version: (cache.version + 1) as usize,
                    update_tasks: Map::empty(),
                },
                Some(
                    SpliceView {
                        to_remove: visible.map_values(|inlay: Inlay| inlay.id),
                        to_insert: Seq::empty(),
                    },
                ),
            )
        }
    } else if new_kinds == cache.allowed_hint_kinds {
        (cache, None)
    } else {
        let splice = kinds_splice(cache, visible, new_kinds);
        if splice.is_empty() {
            (CacheView { allowed_hint_kinds: new_kinds, ..cache }, None)
        } else {
            (
                CacheView {
                    allowed_hint_kinds: new_kinds,
                    version: (cache.version + 1) as usize,
                    update_tasks: Map::empty(),
                    ..cache
                },
                Some(splice),
            )
        }
    }
}

/// The mathematical value of a splice that may be absent.
pub open spec fn splice_view(splice: Option<InlaySplice>) -> Option<SpliceView> {
    match splice {
        Some(s) => Some(s@),
        None => None,
    }
}

/// The displayed inlays of one excerpt, in the order in which they are
/// displayed.
pub fn inlays_in_excerpt(visible_hints: &Vec<Inlay>, excerpt_id: ExcerptId) -> (r: Vec<Inlay>)
    ensures
        r@ == shown_in(visible_hints@, excerpt_id),
{
    let ghost in_excerpt = |inlay: Inlay| inlay.position.excerpt_id == excerpt_id;
    let mut shown: Vec<Inlay> = Vec::new();
    let mut n: usize = 0;
    proof {
        reveal(Seq::filter);
        assert(visible_hints@.take(0) =~= Seq::empty());
    }
    while n < visible_hints.len()
        invariant
            n <= visible_hints.len(),
            in_excerpt == |inlay: Inlay| inlay.position.excerpt_id == excerpt_id,
            shown@ == visible_hints@.take(n as int).filter(in_excerpt),
        decreases visible_hints.len() - n,
    {
        let inlay = visible_hints[n];
        proof {
            assert(visible_hints@.take(n + 1) =~= visible_hints@.take(n as int).push(inlay));
            lemma_filter_push(visible_hints@.take(n as int), inlay, in_excerpt);
        }
        if inlay.position.excerpt_id == excerpt_id {
            shown.push(inlay);
        }
        n += 1;
    }
    proof {
        assert(visible_hints@.take(visible_hints@.len() as int) =~= visible_hints@);
    }
    shown
}

/// Walks the displayed inlays `shown` of an excerpt along the hints cached for
/// it, and appends to `to_remove` and `to_insert` what the change of the
/// allowed kinds from `old_kinds` to `new_kinds` takes off the display and
/// puts on it.
pub fn walk_excerpt(
    excerpt_id: ExcerptId,
    shown: &Vec<Inlay>,
    cached: &Vec<(InlayId, InlayHint)>,
    old_kinds: &AllowedHintKinds,
    new_kinds: &AllowedHintKinds,
    to_remove: &mut Vec<InlayId>,
    to_insert: &mut Vec<(Anchor, InlayId, InlayHint)>,
)
    ensures
        final(to_remove)@ == old(to_remove)@ + walk(
            excerpt_id,
            shown@,
            cached_views(cached@),
            0,
            0,
            old_kinds@,
            new_kinds@,
        ).0,
        insert_views(final(to_insert)@) == insert_views(old(to_insert)@) + walk(
            excerpt_id,
            shown@,
            cached_views(cached@),
            0,
            0,
            old_kinds@,
            new_kinds@,
        ).1,
{
    let ghost hints = cached_views(cached@);
    let ghost total = walk(excerpt_id, shown@, hints, 0, 0, old_kinds@, new_kinds@);
    let ghost removed_before = to_remove@;
    let ghost inserted_before = insert_views(to_insert@);
    let mut i: usize = 0;
    let mut c: usize = 0;
    while i < shown.len() || c < cached.len()
        invariant
            i <= shown.len(),
            c <= cached.len(),
            hints == cached_views(cached@),
            removed_before + total.0 == to_remove@ + walk(
                excerpt_id,
                shown@,
                hints,
                i as int,
                c as int,
                old_kinds@,
                new_kinds@,
            ).0,
            inserted_before + total.1 == insert_views(to_insert@) + walk(
                excerpt_id,
                shown@,
                hints,
                i as int,
                c as int,
                old_kinds@,
                new_kinds@,
            ).1,
        decreases shown.len() - i + (cached.len() - c),
    {
        let ghost rest_here = walk(
            excerpt_id,
            shown@,
            hints,
            i as int,
            c as int,
            old_kinds@,
            new_kinds@,
        );
        let ghost removed_here = to_remove@;
        let ghost inserted_here = insert_views(to_insert@);
        let ghost shown_before = to_insert@;
        let mut remove_shown = false;
        let mut insert_cached = false;
        let mut next_shown = false;
        let mut next_cached = false;
        if c < cached.len() {
            assert(hints[c as int] == (cached@[c as int].0, cached@[c as int].1@));
        }
        if i == shown.len() {
            insert_cached = !old_kinds.contains(&cached[c].1.kind) && new_kinds.contains(
                &cached[c].1.kind,
            );
            next_cached = true;
        } else if shown[i].position.buffer_id.is_none() {
            next_shown = true;
        } else if c == cached.len() {
            remove_shown = true;
            next_shown = true;
        } else if cached[c].0 == shown[i].id {
            remove_shown = !new_kinds.contains(&cached[c].1.kind);
            next_shown = true;
            next_cached = true;
        } else if cached[c].1.position <= shown[i].position.text_anchor {
            insert_cached = !old_kinds.contains(&cached[c].1.kind) && new_kinds.contains(
                &cached[c].1.kind,
            );
            next_cached = true;
        } else {
            remove_shown = true;
            next_shown = true;
        }
        if remove_shown {
            to_remove.push(shown[i].id);
        }
        if insert_cached {
            let cached_hint = &cached[c].1;
            to_insert.push(
                (
                    Anchor {
                        buffer_id: Some(cached_hint.buffer_id),
                        excerpt_id,
                        text_anchor: cached_hint.position,
                    },
                    cached[c].0,
                    cached_hint.clone(),
                ),
            );
            assert(insert_views(to_insert@) =~= inserted_here.push(
                inlay_of(excerpt_id, hints[c as int]),
            ));
        } else {
            assert(insert_views(to_insert@) =~= inserted_here);
        }
        if next_shown {
            i += 1;
        }
        if next_cached {
            c += 1;
        }
        proof {
            let rest_next = walk(
                excerpt_id,
                shown@,
                hints,
                i as int,
                c as int,
                old_kinds@,
                new_kinds@,
            );
            assert(removed_here + rest_here.0 =~= to_remove@ + rest_next.0);
            assert(inserted_here + rest_here.1 =~= insert_views(to_insert@) + rest_next.1);
        }
    }
    proof {
        let rest = walk(excerpt_id, shown@, hints, i as int, c as int, old_kinds@, new_kinds@);
        assert(to_remove@ + rest.0 =~= to_remove@);
        assert(insert_views(to_insert@) + rest.1 =~= insert_views(to_insert@));
    }
}

} // verus!
