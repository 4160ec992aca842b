//! What holds of the cache whatever the hint source answers and in whatever
//! order its answers arrive.

use vstd::prelude::*;
use vstd::multiset::{group_multiset_axioms, Multiset};
use vstd::seq_lib::{to_multiset_build, to_multiset_insert};
use crate::cache::{cache_after, is_stale, next_id_after, region_before, CacheView};
use crate::excerpt_hints::{
    cached_under, distinct_ids, first_at, insert_by_position, is_cached, lemma_filter_push,
    lemma_filter_sorted, lemma_insert_by_position_at, lemma_upper_bound, sorted_by_position,
    strictly_sorted_by_position, upper_bound, without_removed, ExcerptHintsView,
};
use crate::hint::{ExcerptId, HintView, Inlay, InlayId};
use crate::query::{ExcerptQuery, InvalidationStrategy, RequestView};
use crate::schedule::{
    dispatched_for, is_dispatched, lemma_filter_members, lemma_queried_excerpts, queried,
    queries_for, requested, survives, tasks_after,
};
use crate::update::{
    hints_to_add, insert_all, lemma_insert_all_sorted, persisted_ids, region_after, update_of,
    with_fresh_ids, UpdateView,
};

verus! {

/// No regression: once an update is applied to an excerpt, an update for the
/// same excerpt that was asked for at an earlier cache version changes
/// nothing, however late it arrives, and uses up no identity.
pub proof fn lemma_late_update_changes_nothing(
    cache: CacheView,
    newer: UpdateView,
    newer_buffer_version: Seq<u32>,
    newer_first_id: InlayId,
    older: UpdateView,
    older_buffer_version: Seq<u32>,
    older_first_id: InlayId,
)
    requires
        older.excerpt_id == newer.excerpt_id,
        older.cache_version < newer.cache_version,
    ensures
        ({
            let after = cache_after(cache, newer, newer_buffer_version, newer_first_id);
            &&& is_stale(after, older)
            &&& cache_after(after, older, older_buffer_version, older_first_id) == after
            &&& next_id_after(after, older, older_first_id) == older_first_id
        }),
{
}

/// Applying an update never lowers the cache version of an excerpt's hints,
/// nor that of the cache, and never takes an excerpt out of the cache.
pub proof fn lemma_versions_never_fall(
    cache: CacheView,
    update: UpdateView,
    buffer_version: Seq<u32>,
    first_id: InlayId,
)
    requires
        cache.version < usize::MAX,
    ensures
        ({
            let after = cache_after(cache, update, buffer_version, first_id);
            &&& after.version >= cache.version
            &&& forall|id: ExcerptId| #[trigger]
                cache.excerpts.contains_key(id) ==> after.excerpts.contains_key(id)
                    && after.excerpts[id].version >= cache.excerpts[id].version
        }),
{
}

/// Whether no two of `hints` share a position.
pub open spec fn distinct_positions(hints: Seq<HintView>) -> bool {
    forall|a: int, b: int|
        #![trigger hints[a], hints[b]]
        0 <= a < b < hints.len() ==> hints[a].position != hints[b].position
}

/// What a sorted sequence holds after a hint is inserted by position: what it
/// held, and the hint.
pub proof fn lemma_insert_by_position_members(
    hints: Seq<(InlayId, HintView)>,
    item: (InlayId, HintView),
)
    requires
        sorted_by_position(hints),
    ensures
        forall|x: (InlayId, HintView)| #[trigger]
            insert_by_position(hints, item).contains(x) <==> hints.contains(x) || x == item,
{
    let k = upper_bound(hints, item.1.position);
    lemma_upper_bound(hints, item.1.position);
    lemma_insert_by_position_at(hints, item, k);
    let r = hints.insert(k, item);
    assert forall|x: (InlayId, HintView)| #[trigger] r.contains(x) <==> hints.contains(x) || x
        == item by {
        if r.contains(x) {
            let i = choose|i: int| 0 <= i < r.len() && r[i] == x;
            if i < k {
                assert(hints[i] == x);
            } else if i > k {
                assert(hints[i - 1] == x);
            }
        }
        if hints.contains(x) {
            let i = choose|i: int| 0 <= i < hints.len() && hints[i] == x;
            if i < k {
                assert(r[i] == x);
            } else {
                assert(r[i + 1] == x);
            }
        }
        if x == item {
            assert(r[k] == x);
        }
    }
}

/// What a sorted sequence holds after hints are inserted by position: what it
/// held, and the hints.
pub proof fn lemma_insert_all_members(
    hints: Seq<(InlayId, HintView)>,
    items: Seq<(InlayId, HintView)>,
)
    requires
        sorted_by_position(hints),
    ensures
        forall|x: (InlayId, HintView)| #[trigger]
            insert_all(hints, items).contains(x) <==> hints.contains(x) || items.contains(x),
    decreases items.len(),
{
    if items.len() == 0 {
        assert forall|x: (InlayId, HintView)| !items.contains(x) by {}
    } else {
        let front = items.drop_last();
        let last = items.last();
        lemma_insert_all_members(hints, front);
        lemma_insert_all_sorted(hints, front);
        lemma_insert_by_position_members(insert_all(hints, front), last);
        assert forall|x: (InlayId, HintView)| #[trigger]
            insert_all(hints, items).contains(x) <==> hints.contains(x) || items.contains(x) by {
            assert(insert_by_position(insert_all(hints, front), last).contains(x) <==> insert_all(
                hints,
                front,
            ).contains(x) || x == last);
            assert(insert_all(hints, front).contains(x) <==> hints.contains(x) || front.contains(x));
            if front.contains(x) {
                let i = choose|i: int| 0 <= i < front.len() && front[i] == x;
                assert(items[i] == x);
            }
            if x == last {
                assert(items[items.len() - 1] == x);
            }
            if items.contains(x) {
                let i = choose|i: int| 0 <= i < items.len() && items[i] == x;
                if i < front.len() {
                    assert(front[i] == x);
                }
            }
        }
    }
}

/// Inserting a hint at a position that no hint has keeps positions distinct.
pub proof fn lemma_insert_by_position_strict(
    hints: Seq<(InlayId, HintView)>,
    item: (InlayId, HintView),
)
    requires
        strictly_sorted_by_position(hints),
        forall|i: int| 0 <= i < hints.len() ==> (#[trigger] hints[i]).1.position != item.1.position,
    ensures
        strictly_sorted_by_position(insert_by_position(hints, item)),
{
    assert(sorted_by_position(hints));
    let k = upper_bound(hints, item.1.position);
    lemma_upper_bound(hints, item.1.position);
    lemma_insert_by_position_at(hints, item, k);
    let r = hints.insert(k, item);
    assert forall|i: int, j: int| 0 <= i < j < r.len() implies r[i].1.position
        < r[j].1.position by {
        if i < k && j > k {
            assert(r[i] == hints[i] && r[j] == hints[j - 1]);
        } else if i > k {
            assert(r[i] == hints[i - 1] && r[j] == hints[j - 1]);
        } else if j < k {
            assert(r[i] == hints[i] && r[j] == hints[j]);
        } else if i == k {
            assert(r[j] == hints[j - 1]);
        } else {
            assert(r[i] == hints[i]);
        }
    }
}

/// Sortedness, in its strict form: where no two cached hints share a position,
/// and the hints to insert share no position with them or with each other, no
/// two hints share a position afterwards.
pub proof fn lemma_insert_all_strict(
    hints: Seq<(InlayId, HintView)>,
    items: Seq<(InlayId, HintView)>,
)
    requires
        strictly_sorted_by_position(hints),
        forall|a: int, b: int|
            #![trigger items[a], items[b]]
            0 <= a < b < items.len() ==> items[a].1.position != items[b].1.position,
        forall|i: int, a: int|
            #![trigger hints[i], items[a]]
            0 <= i < hints.len() && 0 <= a < items.len() ==> hints[i].1.position
                != items[a].1.position,
    ensures
        strictly_sorted_by_position(insert_all(hints, items)),
    decreases items.len(),
{
    if items.len() > 0 {
        let front = items.drop_last();
        let last = items.last();
        assert forall|a: int, b: int|
            #![trigger front[a], front[b]]
            0 <= a < b < front.len() implies front[a].1.position != front[b].1.position by {
            assert(front[a] == items[a] && front[b] == items[b]);
        }
        assert forall|i: int, a: int|
            #![trigger hints[i], front[a]]
            0 <= i < hints.len() && 0 <= a < front.len() implies hints[i].1.position
            != front[a].1.position by {
            assert(front[a] == items[a]);
        }
        lemma_insert_all_strict(hints, front);
        assert(sorted_by_position(hints));
        lemma_insert_all_members(hints, front);
        let merged = insert_all(hints, front);
        assert forall|i: int| 0 <= i < merged.len() implies (#[trigger] merged[i]).1.position
            != last.1.position by {
            assert(merged.contains(merged[i]));
            if hints.contains(merged[i]) {
                let j = choose|j: int| 0 <= j < hints.len() && hints[j] == merged[i];
                assert(hints[j].1.position != items[items.len() - 1].1.position);
            } else {
                let a = choose|a: int| 0 <= a < front.len() && front[a] == merged[i];
                assert(items[a].1.position != items[items.len() - 1].1.position);
            }
        }
        lemma_insert_by_position_strict(merged, last);
    }
}

/// Filtering keeps positions distinct.
pub proof fn lemma_filter_strictly_sorted(
    hints: Seq<(InlayId, HintView)>,
    pred: spec_fn((InlayId, HintView)) -> bool,
)
    requires
        strictly_sorted_by_position(hints),
    ensures
        strictly_sorted_by_position(hints.filter(pred)),
    decreases hints.len(),
{
    if hints.len() == 0 {
        reveal(Seq::filter);
    } else {
        let front = hints.drop_last();
        let last = hints.last();
        assert(hints =~= front.push(last));
        lemma_filter_push(front, last, pred);
        assert forall|i: int, j: int|
            #![trigger front[i], front[j]]
            0 <= i < j < front.len() implies front[i].1.position < front[j].1.position by {
            assert(front[i] == hints[i] && front[j] == hints[j]);
        }
        lemma_filter_strictly_sorted(front, pred);
        lemma_filter_members(front, pred);
        let kept = front.filter(pred);
        if pred(last) {
            let r = kept.push(last);
            assert forall|i: int, j: int|
                #![trigger r[i], r[j]]
                0 <= i < j < r.len() implies r[i].1.position < r[j].1.position by {
                if j < kept.len() {
                    assert(r[i] == kept[i] && r[j] == kept[j]);
                } else {
                    assert(r[i] == kept[i]);
                    assert(kept.contains(kept[i]));
                    let k = choose|k: int| 0 <= k < front.len() && front[k] == kept[i];
                    assert(hints[k] == kept[i]);
                    assert(hints[k].1.position < hints[hints.len() - 1].1.position);
                }
            }
        }
    }
}

/// What a filter keeps of hints without a shared position shares no position
/// either.
pub proof fn lemma_filter_distinct_positions(hints: Seq<HintView>, pred: spec_fn(HintView) -> bool)
    requires
        forall|a: int, b: int|
            #![trigger hints[a], hints[b]]
            0 <= a < b < hints.len() && pred(hints[a]) && pred(hints[b]) ==> hints[a].position
                != hints[b].position,
    ensures
        distinct_positions(hints.filter(pred)),
    decreases hints.len(),
{
    if hints.len() == 0 {
        reveal(Seq::filter);
    } else {
        let front = hints.drop_last();
        let last = hints.last();
        assert(hints =~= front.push(last));
        lemma_filter_push(front, last, pred);
        assert forall|a: int, b: int|
            #![trigger front[a], front[b]]
            0 <= a < b < front.len() && pred(front[a]) && pred(front[b]) implies front[a].position
            != front[b].position by {
            assert(front[a] == hints[a] && front[b] == hints[b]);
        }
        lemma_filter_distinct_positions(front, pred);
        lemma_filter_members(front, pred);
        let kept = front.filter(pred);
        if pred(last) {
            let r = kept.push(last);
            assert forall|a: int, b: int|
                #![trigger r[a], r[b]]
                0 <= a < b < r.len() implies r[a].position != r[b].position by {
                if b < kept.len() {
                    assert(r[a] == kept[a] && r[b] == kept[b]);
                } else {
                    assert(r[a] == kept[a]);
                    assert(kept.contains(kept[a]));
                    let k = choose|k: int| 0 <= k < front.len() && front[k] == kept[a];
                    assert(hints[k] == kept[a]);
                    assert(hints[k].position != hints[hints.len() - 1].position);
                }
            }
        }
    }
}

/// Whether every fetched hint of the queried range that lies at the position
/// of a cached hint is that cached hint.
pub open spec fn agrees_at_cached_positions(
    query: ExcerptQuery,
    fetched: Seq<HintView>,
    cached: Seq<(InlayId, HintView)>,
) -> bool {
    forall|k: int, i: int|
        #![trigger fetched[k], cached[i]]
        0 <= k < fetched.len() && 0 <= i < cached.len() && query.contains(fetched[k].position)
            && cached[i].1.position == fetched[k].position ==> cached[i].1 == fetched[k]
}

/// Sortedness: where no two cached hints of an excerpt share a position or an
/// identity, and no two fetched hints in the queried range share a position,
/// a refresh leaves the excerpt's hints in the order of their positions with
/// no position shared, if it invalidates, or if it brings no changed hint to
/// the position of a cached one.
pub proof fn lemma_refresh_keeps_positions_distinct(
    query: ExcerptQuery,
    fetched: Seq<HintView>,
    region: ExcerptHintsView,
    visible: Seq<Inlay>,
    buffer_version: Seq<u32>,
    first_id: InlayId,
)
    requires
        query.invalidate.invalidates() || agrees_at_cached_positions(query, fetched, region.hints),
        strictly_sorted_by_position(region.hints),
        distinct_ids(region.hints),
        forall|a: int, b: int|
            #![trigger fetched[a], fetched[b]]
            0 <= a < b < fetched.len() && query.contains(fetched[a].position) && query.contains(
                fetched[b].position,
            ) ==> fetched[a].position != fetched[b].position,
    ensures
        strictly_sorted_by_position(
            region_after(
                region,
                update_of(query, fetched, region.hints, visible),
                buffer_version,
                first_id,
            ).hints,
        ),
{
    let cached = region.hints;
    let update = update_of(query, fetched, cached, visible);
    let persisted = persisted_ids(query, fetched, cached);
    let keep = |e: (InlayId, HintView)| !update.remove_from_cache.contains(e.0);
    let kept = without_removed(cached, update.remove_from_cache);
    let to_add = |h: HintView| query.contains(h.position) && !is_cached(cached, h);
    let added = hints_to_add(query, fetched, cached);
    let fresh = with_fresh_ids(added, first_id);
    lemma_filter_strictly_sorted(cached, keep);
    lemma_filter_members(cached, keep);
    lemma_filter_members(fetched, to_add);
    assert forall|a: int, b: int|
        #![trigger fetched[a], fetched[b]]
        0 <= a < b < fetched.len() && to_add(fetched[a]) && to_add(fetched[b]) implies fetched[a].position
        != fetched[b].position by {}
    lemma_filter_distinct_positions(fetched, to_add);
    assert forall|a: int, b: int|
        #![trigger fresh[a], fresh[b]]
        0 <= a < b < fresh.len() implies fresh[a].1.position != fresh[b].1.position by {
        assert(added[a].position != added[b].position);
    }
    assert forall|i: int, a: int|
        #![trigger kept[i], fresh[a]]
        0 <= i < kept.len() && 0 <= a < fresh.len() implies kept[i].1.position
        != fresh[a].1.position by {
        let e = kept[i];
        let h = added[a];
        assert(kept.contains(e));
        assert(cached.contains(e) && keep(e));
        let j = choose|j: int| 0 <= j < cached.len() && cached[j] == e;
        assert(cached[j].0 == e.0);
        assert(added.contains(h));
        assert(fetched.contains(h) && to_add(h));
        let m = choose|m: int| 0 <= m < fetched.len() && fetched[m] == h;
        if h.position == e.1.position {
            if agrees_at_cached_positions(query, fetched, cached) {
                assert(cached[j].1 == fetched[m]);
                assert forall|b: int| 0 <= b < j implies (#[trigger] cached[b]).1.position
                    != h.position by {
                    assert(cached[b].1.position < cached[j].1.position);
                }
                assert(first_at(cached, h.position, j) && cached[j].1 == h);
                assert(is_cached(cached, h));
            } else {
                assert(persisted.contains(e.0));
                let k = choose|k: int|
                    0 <= k < fetched.len() && query.contains(fetched[k].position)
                        && #[trigger] cached_under(cached, fetched[k], e.0);
                let c = choose|c: int|
                    #[trigger] first_at(cached, fetched[k].position, c) && cached[c] == (
                        e.0,
                        fetched[k],
                    );
                if c < j {
                    assert(cached[c].0 != cached[j].0);
                } else if j < c {
                    assert(cached[j].0 != cached[c].0);
                }
                if m < k {
                    assert(fetched[m].position != fetched[k].position);
                } else if k < m {
                    assert(fetched[k].position != fetched[m].position);
                } else {
                    assert(first_at(cached, h.position, c) && cached[c].1 == h);
                    assert(is_cached(cached, h));
                }
            }
        }
    }
    lemma_insert_all_strict(kept, fresh);
}

/// A hint that is the first at its position, and that a filter keeps, is the
/// first at its position in what the filter keeps.
pub proof fn lemma_filter_keeps_first(
    hints: Seq<(InlayId, HintView)>,
    pred: spec_fn((InlayId, HintView)) -> bool,
    position: usize,
    i: int,
)
    requires
        first_at(hints, position, i),
        pred(hints[i]),
    ensures
        exists|k: int| #[trigger]
            first_at(hints.filter(pred), position, k) && hints.filter(pred)[k] == hints[i],
    decreases hints.len(),
{
    let front = hints.drop_last();
    let last = hints.last();
    let kept = front.filter(pred);
    assert(hints =~= front.push(last));
    lemma_filter_push(front, last, pred);
    lemma_filter_members(front, pred);
    let all_kept = hints.filter(pred);
    if i == hints.len() - 1 {
        let k = kept.len() as int;
        assert(all_kept[k] == hints[i]);
        assert forall|j: int| 0 <= j < k implies (#[trigger] all_kept[j]).1.position
            != position by {
            assert(all_kept[j] == kept[j]);
            assert(kept.contains(kept[j]));
            let m = choose|m: int| 0 <= m < front.len() && front[m] == kept[j];
            assert(hints[m] == kept[j]);
        }
        assert(first_at(all_kept, position, k));
    } else {
        assert(front[i] == hints[i]);
        assert forall|j: int| 0 <= j < i implies (#[trigger] front[j]).1.position != position by {
            assert(front[j] == hints[j]);
        }
        assert(first_at(front, position, i));
        lemma_filter_keeps_first(front, pred, position, i);
        let k = choose|k: int| #[trigger] first_at(kept, position, k) && kept[k] == front[i];
        assert(all_kept[k] == hints[i]);
        assert forall|j: int| 0 <= j < k implies (#[trigger] all_kept[j]).1.position
            != position by {
            assert(all_kept[j] == kept[j]);
        }
        assert(first_at(all_kept, position, k));
    }
}

/// A hint that is the first at its position stays so when another hint is
/// inserted by position.
pub proof fn lemma_insert_keeps_first(
    hints: Seq<(InlayId, HintView)>,
    item: (InlayId, HintView),
    position: usize,
    i: int,
)
    requires
        sorted_by_position(hints),
        first_at(hints, position, i),
    ensures
        exists|k: int| #[trigger]
            first_at(insert_by_position(hints, item), position, k) && insert_by_position(
                hints,
                item,
            )[k] == hints[i],
{
    let at = upper_bound(hints, item.1.position);
    lemma_upper_bound(hints, item.1.position);
    lemma_insert_by_position_at(hints, item, at);
    let r = hints.insert(at, item);
    if at <= i {
        assert(hints[at].1.position > item.1.position);
        assert(hints[at].1.position <= hints[i].1.position);
        assert(r[i + 1] == hints[i]);
        assert forall|j: int| 0 <= j < i + 1 implies (#[trigger] r[j]).1.position != position by {
            if j < at {
                assert(r[j] == hints[j]);
            } else if j > at {
                assert(r[j] == hints[j - 1]);
            }
        }
        assert(first_at(r, position, i + 1));
    } else {
        assert(r[i] == hints[i]);
        assert forall|j: int| 0 <= j < i implies (#[trigger] r[j]).1.position != position by {
            assert(r[j] == hints[j]);
        }
        assert(first_at(r, position, i));
    }
}

/// A hint that is the first at its position stays so when other hints are
/// inserted by position.
pub proof fn lemma_insert_all_keeps_first(
    hints: Seq<(InlayId, HintView)>,
    items: Seq<(InlayId, HintView)>,
    position: usize,
    i: int,
)
    requires
        sorted_by_position(hints),
        first_at(hints, position, i),
    ensures
        exists|k: int| #[trigger]
            first_at(insert_all(hints, items), position, k) && insert_all(hints, items)[k]
                == hints[i],
    decreases items.len(),
{
    let all = insert_all(hints, items);
    if items.len() == 0 {
        assert(first_at(all, position, i) && all[i] == hints[i]);
    } else {
        let front = items.drop_last();
        let merged = insert_all(hints, front);
        lemma_insert_all_keeps_first(hints, front, position, i);
        lemma_insert_all_sorted(hints, front);
        let k = choose|k: int| #[trigger] first_at(merged, position, k) && merged[k] == hints[i];
        lemma_insert_keeps_first(merged, items.last(), position, k);
        assert(all == insert_by_position(merged, items.last()));
        let m = choose|m: int| #[trigger] first_at(all, position, m) && all[m] == merged[k];
        assert(first_at(all, position, m) && all[m] == hints[i]);
    }
}

/// Identity preservation: a hint that is cached under an identity, and that
/// the hint source reports again within the queried range, is neither removed
/// nor added a second time, and is cached under the same identity after the
/// update is applied.
pub proof fn lemma_confirmed_hint_keeps_identity(
    query: ExcerptQuery,
    fetched: Seq<HintView>,
    region: ExcerptHintsView,
    visible: Seq<Inlay>,
    buffer_version: Seq<u32>,
    first_id: InlayId,
    hint: HintView,
    id: InlayId,
)
    requires
        sorted_by_position(region.hints),
        cached_under(region.hints, hint, id),
        fetched.contains(hint),
        query.contains(hint.position),
    ensures
        ({
            let update = update_of(query, fetched, region.hints, visible);
            &&& !update.remove_from_cache.contains(id)
            &&& !update.add_to_cache.contains(hint)
            &&& cached_under(
                region_after(region, update, buffer_version, first_id).hints,
                hint,
                id,
            )
        }),
{
    let cached = region.hints;
    let update = update_of(query, fetched, cached, visible);
    let persisted = persisted_ids(query, fetched, cached);
    let k = choose|k: int| 0 <= k < fetched.len() && fetched[k] == hint;
    assert(cached_under(cached, fetched[k], id));
    assert(persisted.contains(id));
    let to_add = |h: HintView| query.contains(h.position) && !is_cached(cached, h);
    lemma_filter_members(fetched, to_add);
    let i = choose|i: int| #[trigger] first_at(cached, hint.position, i) && cached[i] == (id, hint);
    assert(first_at(cached, hint.position, i) && cached[i].1 == hint);
    assert(is_cached(cached, hint));
    let keep = |e: (InlayId, HintView)| !update.remove_from_cache.contains(e.0);
    let kept = without_removed(cached, update.remove_from_cache);
    lemma_filter_keeps_first(cached, keep, hint.position, i);
    lemma_filter_sorted(cached, keep);
    let j = choose|j: int| #[trigger] first_at(kept, hint.position, j) && kept[j] == cached[i];
    let fresh = with_fresh_ids(update.add_to_cache, first_id);
    lemma_insert_all_keeps_first(kept, fresh, hint.position, j);
}

/// One identity for a confirmed hint: under the premises of
/// [`lemma_refresh_keeps_positions_distinct`], a hint that is cached under an
/// identity, and that the hint source reports again within the queried range,
/// is held exactly once after the update is applied, under that identity and
/// no other.
pub proof fn lemma_confirmed_hint_has_one_identity(
    query: ExcerptQuery,
    fetched: Seq<HintView>,
    region: ExcerptHintsView,
    visible: Seq<Inlay>,
    buffer_version: Seq<u32>,
    first_id: InlayId,
    hint: HintView,
    id: InlayId,
)
    requires
        query.invalidate.invalidates() || agrees_at_cached_positions(query, fetched, region.hints),
        strictly_sorted_by_position(region.hints),
        distinct_ids(region.hints),
        forall|a: int, b: int|
            #![trigger fetched[a], fetched[b]]
            0 <= a < b < fetched.len() && query.contains(fetched[a].position) && query.contains(
                fetched[b].position,
            ) ==> fetched[a].position != fetched[b].position,
        cached_under(region.hints, hint, id),
        fetched.contains(hint),
        query.contains(hint.position),
    ensures
        ({
            let after = region_after(
                region,
                update_of(query, fetched, region.hints, visible),
                buffer_version,
                first_id,
            ).hints;
            exists|k: int|
                0 <= k < after.len() && #[trigger] after[k] == (id, hint) && forall|i: int|
                    0 <= i < after.len() && (#[trigger] after[i]).1 == hint ==> i == k
        }),
{
    let after = region_after(
        region,
        update_of(query, fetched, region.hints, visible),
        buffer_version,
        first_id,
    ).hints;
    assert(sorted_by_position(region.hints));
    lemma_refresh_keeps_positions_distinct(query, fetched, region, visible, buffer_version, first_id);
    lemma_confirmed_hint_keeps_identity(
        query,
        fetched,
        region,
        visible,
        buffer_version,
        first_id,
        hint,
        id,
    );
    let k = choose|k: int| #[trigger] first_at(after, hint.position, k) && after[k] == (id, hint);
    assert forall|i: int| 0 <= i < after.len() && (#[trigger] after[i]).1 == hint implies i
        == k by {
        if i < k {
            assert(after[i].1.position < after[k].1.position);
        } else if k < i {
            assert(after[k].1.position < after[i].1.position);
        }
    }
    assert(after[k] == (id, hint));
}

/// Contents after a commit: the hints of a sorted sequence after others are
/// inserted by position are those it held and those inserted, each as often
/// as it was there before: nothing is lost and nothing is doubled.
pub proof fn lemma_insert_all_is_permutation(
    hints: Seq<(InlayId, HintView)>,
    items: Seq<(InlayId, HintView)>,
)
    requires
        sorted_by_position(hints),
    ensures
        insert_all(hints, items).to_multiset() == hints.to_multiset().add(items.to_multiset()),
    decreases items.len(),
{
    broadcast use group_multiset_axioms;

    if items.len() == 0 {
        assert(items =~= Seq::empty());
        assert(items.to_multiset() =~= Multiset::empty()) by {
            items.to_multiset_ensures();
            assert(items.to_multiset().len() == 0);
        }
        assert(hints.to_multiset().add(items.to_multiset()) =~= hints.to_multiset());
    } else {
        let front = items.drop_last();
        let last = items.last();
        let merged = insert_all(hints, front);
        lemma_insert_all_is_permutation(hints, front);
        lemma_insert_all_sorted(hints, front);
        let at = upper_bound(merged, last.1.position);
        lemma_upper_bound(merged, last.1.position);
        lemma_insert_by_position_at(merged, last, at);
        to_multiset_insert(merged, at, last);
        assert(items =~= front.push(last));
        to_multiset_build(front, last);
        assert(hints.to_multiset().add(front.to_multiset()).insert(last) =~= hints.to_multiset().add(
            front.to_multiset().insert(last),
        ));
    }
}

/// The hints of a sequence of cached hints, without their identities.
pub open spec fn hints_of(cached: Seq<(InlayId, HintView)>) -> Seq<HintView> {
    cached.map_values(|e: (InlayId, HintView)| e.1)
}

/// Idempotence: where no two cached hints of an excerpt share a position, the
/// hints that the hint source reports within the queried range are exactly the
/// cached ones, and every displayed inlay of the excerpt is one of them, the
/// answer changes nothing: no hint is added, none removed, and the cache and
/// the identities stay as they are.
pub proof fn lemma_same_answer_changes_nothing(
    query: ExcerptQuery,
    fetched: Seq<HintView>,
    cached: Seq<(InlayId, HintView)>,
    visible: Seq<Inlay>,
)
    requires
        strictly_sorted_by_position(cached),
        forall|h: HintView|
            #![trigger fetched.contains(h)]
            #![trigger hints_of(cached).contains(h)]
            hints_of(cached).contains(h) <==> fetched.contains(h) && query.contains(h.position),
        forall|v: int|
            0 <= v < visible.len() && (#[trigger] visible[v]).position.excerpt_id
                == query.excerpt_id ==> exists|i: int|
                0 <= i < cached.len() && (#[trigger] cached[i]).0 == visible[v].id,
    ensures
        update_of(query, fetched, cached, visible).is_empty(),
{
    let update = update_of(query, fetched, cached, visible);
    let persisted = persisted_ids(query, fetched, cached);
    assert forall|i: int| 0 <= i < cached.len() implies #[trigger] first_at(
        cached,
        cached[i].1.position,
        i,
    ) by {
        assert forall|j: int| 0 <= j < i implies (#[trigger] cached[j]).1.position
            != cached[i].1.position by {
            assert(cached[j].1.position < cached[i].1.position);
        }
    }
    assert forall|i: int| 0 <= i < cached.len() implies persisted.contains(
        (#[trigger] cached[i]).0,
    ) by {
        assert(hints_of(cached)[i] == cached[i].1);
        assert(hints_of(cached).contains(cached[i].1));
        assert(fetched.contains(cached[i].1));
        let k = choose|k: int| 0 <= k < fetched.len() && fetched[k] == cached[i].1;
        assert(first_at(cached, fetched[k].position, i));
        assert(cached_under(cached, fetched[k], cached[i].0));
    }
    let to_add = |h: HintView| query.contains(h.position) && !is_cached(cached, h);
    lemma_filter_members(fetched, to_add);
    let added = fetched.filter(to_add);
    if added.len() > 0 {
        let h = added[0];
        assert(added.contains(h));
        assert(fetched.contains(h) && query.contains(h.position));
        assert(hints_of(cached).contains(h));
        let i = choose|i: int| 0 <= i < hints_of(cached).len() && hints_of(cached)[i] == h;
        assert(first_at(cached, cached[i].1.position, i));
        assert(is_cached(cached, h));
    }
    if query.invalidate.invalidates() {
        assert(update.remove_from_cache =~= Set::<InlayId>::empty());
        let unconfirmed = |inlay: Inlay|
            inlay.position.excerpt_id == query.excerpt_id && query.contains(
                inlay.position.text_anchor,
            ) && !persisted.contains(inlay.id);
        lemma_filter_members(visible, unconfirmed);
        let gone = visible.filter(unconfirmed);
        if gone.len() > 0 {
            let inlay = gone[0];
            assert(gone.contains(inlay));
            let v = choose|v: int| 0 <= v < visible.len() && visible[v] == inlay;
            let i = choose|i: int|
                0 <= i < cached.len() && (#[trigger] cached[i]).0 == visible[v].id;
            assert(persisted.contains(cached[i].0));
        }
    }
}

/// Idempotence, from the first answer on: where no two of the hints that the
/// hint source reports within the queried range share a position, and every
/// displayed inlay of the excerpt shows one of the hints cached from its first
/// answer, the same answer to a second query for the same excerpt and range
/// changes nothing.
pub proof fn lemma_second_answer_changes_nothing(
    first_query: ExcerptQuery,
    second_query: ExcerptQuery,
    fetched: Seq<HintView>,
    visible: Seq<Inlay>,
    buffer_version: Seq<u32>,
    first_id: InlayId,
)
    requires
        second_query.excerpt_id == first_query.excerpt_id,
        second_query.excerpt_range_start == first_query.excerpt_range_start,
        second_query.excerpt_range_end == first_query.excerpt_range_end,
        forall|a: int, b: int|
            #![trigger fetched[a], fetched[b]]
            0 <= a < b < fetched.len() && first_query.contains(fetched[a].position)
                && first_query.contains(fetched[b].position) ==> fetched[a].position
                != fetched[b].position,
        ({
            let cached = first_answer_cached(first_query, fetched, buffer_version, first_id);
            forall|v: int|
                0 <= v < visible.len() && (#[trigger] visible[v]).position.excerpt_id
                    == second_query.excerpt_id ==> exists|i: int|
                    0 <= i < cached.len() && (#[trigger] cached[i]).0 == visible[v].id
        }),
    ensures
        update_of(
            second_query,
            fetched,
            first_answer_cached(first_query, fetched, buffer_version, first_id),
            visible,
        ).is_empty(),
{
    let nothing = Seq::<(InlayId, HintView)>::empty();
    let to_add = |h: HintView| first_query.contains(h.position) && !is_cached(nothing, h);
    let added = hints_to_add(first_query, fetched, nothing);
    let fresh = with_fresh_ids(added, first_id);
    let cached = first_answer_cached(first_query, fetched, buffer_version, first_id);
    let first = update_of(first_query, fetched, nothing, Seq::empty());
    assert(without_removed(nothing, first.remove_from_cache) =~= nothing) by {
        reveal(Seq::filter);
    }
    assert(cached == insert_all(nothing, fresh));
    lemma_filter_members(fetched, to_add);
    assert forall|a: int, b: int|
        #![trigger fetched[a], fetched[b]]
        0 <= a < b < fetched.len() && to_add(fetched[a]) && to_add(fetched[b]) implies fetched[a].position
        != fetched[b].position by {}
    lemma_filter_distinct_positions(fetched, to_add);
    assert forall|a: int, b: int|
        #![trigger fresh[a], fresh[b]]
        0 <= a < b < fresh.len() implies fresh[a].1.position != fresh[b].1.position by {
        assert(added[a].position != added[b].position);
    }
    lemma_insert_all_strict(nothing, fresh);
    lemma_insert_all_members(nothing, fresh);
    assert forall|h: HintView|
        #![trigger fetched.contains(h)]
        #![trigger hints_of(cached).contains(h)]
        hints_of(cached).contains(h) <==> fetched.contains(h) && second_query.contains(
            h.position,
        ) by {
        if hints_of(cached).contains(h) {
            let i = choose|i: int| 0 <= i < hints_of(cached).len() && hints_of(cached)[i] == h;
            assert(cached.contains(cached[i]));
            let a = choose|a: int| 0 <= a < fresh.len() && fresh[a] == cached[i];
            assert(added.contains(added[a]));
        }
        if fetched.contains(h) && second_query.contains(h.position) {
            assert(to_add(h));
            assert(added.contains(h));
            let a = choose|a: int| 0 <= a < added.len() && added[a] == h;
            assert(fresh.contains(fresh[a]));
            assert(cached.contains(fresh[a]));
            let i = choose|i: int| 0 <= i < cached.len() && cached[i] == fresh[a];
            assert(hints_of(cached)[i] == h);
        }
    }
    lemma_same_answer_changes_nothing(second_query, fetched, cached, visible);
}

/// The hints cached for an excerpt once the first answer to a query for it is
/// applied, with identities from `first_id` on.
pub open spec fn first_answer_cached(
    query: ExcerptQuery,
    fetched: Seq<HintView>,
    buffer_version: Seq<u32>,
    first_id: InlayId,
) -> Seq<(InlayId, HintView)> {
    region_after(
        ExcerptHintsView { version: query.cache_version, buffer_version, hints: Seq::empty() },
        update_of(query, fetched, Seq::empty(), Seq::empty()),
        buffer_version,
        first_id,
    ).hints
}

/// Whether no identity is given to two cached hints, of one excerpt or of two.
pub open spec fn identities_distinct(cache: CacheView) -> bool {
    forall|e1: ExcerptId, i1: int, e2: ExcerptId, i2: int|
        #![trigger cache.excerpts[e1].hints[i1], cache.excerpts[e2].hints[i2]]
        cache.excerpts.contains_key(e1) && cache.excerpts.contains_key(e2) && 0 <= i1
            < cache.excerpts[e1].hints.len() && 0 <= i2 < cache.excerpts[e2].hints.len()
            && cache.excerpts[e1].hints[i1].0 == cache.excerpts[e2].hints[i2].0 ==> e1 == e2 && i1
            == i2
}

/// Whether every cached hint has an identity below `bound`.
pub open spec fn identities_below(cache: CacheView, bound: int) -> bool {
    forall|e: ExcerptId, i: int|
        #![trigger cache.excerpts[e].hints[i]]
        cache.excerpts.contains_key(e) && 0 <= i < cache.excerpts[e].hints.len()
            ==> cache.excerpts[e].hints[i].0 < bound
}

/// Filtering keeps identities distinct.
pub proof fn lemma_filter_distinct_ids(
    hints: Seq<(InlayId, HintView)>,
    pred: spec_fn((InlayId, HintView)) -> bool,
)
    requires
        distinct_ids(hints),
    ensures
        distinct_ids(hints.filter(pred)),
    decreases hints.len(),
{
    if hints.len() == 0 {
        reveal(Seq::filter);
    } else {
        let front = hints.drop_last();
        let last = hints.last();
        assert(hints =~= front.push(last));
        lemma_filter_push(front, last, pred);
        assert forall|i: int, j: int|
            #![trigger front[i], front[j]]
            0 <= i < j < front.len() implies front[i].0 != front[j].0 by {
            assert(front[i] == hints[i] && front[j] == hints[j]);
        }
        lemma_filter_distinct_ids(front, pred);
        lemma_filter_members(front, pred);
        let kept = front.filter(pred);
        if pred(last) {
            let r = kept.push(last);
            assert forall|i: int, j: int|
                #![trigger r[i], r[j]]
                0 <= i < j < r.len() implies r[i].0 != r[j].0 by {
                if j < kept.len() {
                    assert(r[i] == kept[i] && r[j] == kept[j]);
                } else {
                    assert(r[i] == kept[i]);
                    assert(kept.contains(kept[i]));
                    let k = choose|k: int| 0 <= k < front.len() && front[k] == kept[i];
                    assert(hints[k] == kept[i]);
                    assert(hints[k].0 != hints[hints.len() - 1].0);
                }
            }
        }
    }
}

/// Inserting hints under identities that no hint has, and that differ from
/// each other, keeps identities distinct.
pub proof fn lemma_insert_all_distinct_ids(
    hints: Seq<(InlayId, HintView)>,
    items: Seq<(InlayId, HintView)>,
)
    requires
        sorted_by_position(hints),
        distinct_ids(hints),
        distinct_ids(items),
        forall|i: int, a: int|
            #![trigger hints[i], items[a]]
            0 <= i < hints.len() && 0 <= a < items.len() ==> hints[i].0 != items[a].0,
    ensures
        distinct_ids(insert_all(hints, items)),
    decreases items.len(),
{
    if items.len() > 0 {
        let front = items.drop_last();
        let last = items.last();
        assert forall|a: int, b: int|
            #![trigger front[a], front[b]]
            0 <= a < b < front.len() implies front[a].0 != front[b].0 by {
            assert(front[a] == items[a] && front[b] == items[b]);
        }
        assert forall|i: int, a: int|
            #![trigger hints[i], front[a]]
            0 <= i < hints.len() && 0 <= a < front.len() implies hints[i].0 != front[a].0 by {
            assert(front[a] == items[a]);
        }
        lemma_insert_all_distinct_ids(hints, front);
        lemma_insert_all_members(hints, front);
        lemma_insert_all_sorted(hints, front);
        let merged = insert_all(hints, front);
        assert forall|i: int| 0 <= i < merged.len() implies (#[trigger] merged[i]).0 != last.0 by {
            assert(merged.contains(merged[i]));
            if hints.contains(merged[i]) {
                let j = choose|j: int| 0 <= j < hints.len() && hints[j] == merged[i];
                assert(hints[j].0 != items[items.len() - 1].0);
            } else {
                let a = choose|a: int| 0 <= a < front.len() && front[a] == merged[i];
                assert(items[a].0 != items[items.len() - 1].0);
            }
        }
        let at = upper_bound(merged, last.1.position);
        lemma_upper_bound(merged, last.1.position);
        lemma_insert_by_position_at(merged, last, at);
        let r = merged.insert(at, last);
        assert forall|i: int, j: int|
            #![trigger r[i], r[j]]
            0 <= i < j < r.len() implies r[i].0 != r[j].0 by {
            if i < at && j > at {
                assert(r[i] == merged[i] && r[j] == merged[j - 1]);
            } else if i > at {
                assert(r[i] == merged[i - 1] && r[j] == merged[j - 1]);
            } else if j < at {
                assert(r[i] == merged[i] && r[j] == merged[j]);
            } else if i == at {
                assert(r[j] == merged[j - 1]);
            } else {
                assert(r[i] == merged[i]);
            }
        }
    }
}

/// Identities within an excerpt: where no two cached hints of an excerpt share
/// an identity and every one of them is below the next identity to give out,
/// no two share an identity after an update is applied.
pub proof fn lemma_update_keeps_ids_distinct(
    region: ExcerptHintsView,
    update: UpdateView,
    buffer_version: Seq<u32>,
    first_id: InlayId,
)
    requires
        sorted_by_position(region.hints),
        distinct_ids(region.hints),
        forall|i: int| 0 <= i < region.hints.len() ==> (#[trigger] region.hints[i]).0 < first_id,
        first_id + update.add_to_cache.len() <= usize::MAX,
    ensures
        distinct_ids(region_after(region, update, buffer_version, first_id).hints),
{
    let keep = |e: (InlayId, HintView)| !update.remove_from_cache.contains(e.0);
    let kept = without_removed(region.hints, update.remove_from_cache);
    let fresh = with_fresh_ids(update.add_to_cache, first_id);
    lemma_filter_distinct_ids(region.hints, keep);
    lemma_filter_sorted(region.hints, keep);
    lemma_filter_members(region.hints, keep);
    assert forall|i: int| 0 <= i < kept.len() implies (#[trigger] kept[i]).0 < first_id by {
        assert(kept.contains(kept[i]));
        let j = choose|j: int| 0 <= j < region.hints.len() && region.hints[j] == kept[i];
        assert(region.hints[j].0 < first_id);
    }
    lemma_insert_all_distinct_ids(kept, fresh);
}

/// Identities are given once: where no identity is given twice and every
/// identity in the cache is below the next one to give out, the same holds
/// after an update is applied. So an identity that has left the cache never
/// comes back for another hint.
pub proof fn lemma_identities_are_given_once(
    cache: CacheView,
    update: UpdateView,
    buffer_version: Seq<u32>,
    first_id: InlayId,
)
    requires
        cache.wf(),
        identities_distinct(cache),
        identities_below(cache, first_id as int),
        first_id + update.add_to_cache.len() <= usize::MAX,
    ensures
        identities_distinct(cache_after(cache, update, buffer_version, first_id)),
        identities_below(
            cache_after(cache, update, buffer_version, first_id),
            next_id_after(cache, update, first_id),
        ),
{
    if !is_stale(cache, update) {
        let after = cache_after(cache, update, buffer_version, first_id);
        let target = update.excerpt_id;
        let before = region_before(cache, update, buffer_version);
        let keep = |e: (InlayId, HintView)| !update.remove_from_cache.contains(e.0);
        let kept = without_removed(before.hints, update.remove_from_cache);
        let fresh = with_fresh_ids(update.add_to_cache, first_id);
        let merged = after.excerpts[target].hints;
        assert(merged == insert_all(kept, fresh));
        assert(distinct_ids(before.hints)) by {
            if cache.excerpts.contains_key(target) {
                assert forall|i: int, j: int|
                    #![trigger before.hints[i], before.hints[j]]
                    0 <= i < j < before.hints.len() implies before.hints[i].0
                    != before.hints[j].0 by {
                    if cache.excerpts[target].hints[i].0 == cache.excerpts[target].hints[j].0 {
                        assert(i == j);
                    }
                }
            }
        }
        assert(sorted_by_position(before.hints)) by {
            if cache.excerpts.contains_key(target) {
                assert(cache.excerpts[target].wf());
            }
        }
        lemma_filter_distinct_ids(before.hints, keep);
        lemma_filter_sorted(before.hints, keep);
        lemma_filter_members(before.hints, keep);
        assert forall|i: int| 0 <= i < kept.len() implies (#[trigger] kept[i]).0 < first_id by {
            assert(kept.contains(kept[i]));
            let j = choose|j: int| 0 <= j < before.hints.len() && before.hints[j] == kept[i];
            assert(cache.excerpts[target].hints[j].0 < first_id);
        }
        lemma_insert_all_distinct_ids(kept, fresh);
        lemma_insert_all_members(kept, fresh);
        assert forall|i: int| 0 <= i < merged.len() implies ((#[trigger] merged[i]).0 < first_id
            && before.hints.contains(merged[i])) || first_id <= merged[i].0 < first_id
            + update.add_to_cache.len() by {
            assert(merged.contains(merged[i]));
            if kept.contains(merged[i]) {
                let j = choose|j: int| 0 <= j < kept.len() && kept[j] == merged[i];
                assert(kept[j].0 < first_id);
            } else {
                let a = choose|a: int| 0 <= a < fresh.len() && fresh[a] == merged[i];
            }
        }
        assert forall|e1: ExcerptId, i1: int, e2: ExcerptId, i2: int|
            #![trigger after.excerpts[e1].hints[i1], after.excerpts[e2].hints[i2]]
            after.excerpts.contains_key(e1) && after.excerpts.contains_key(e2) && 0 <= i1
                < after.excerpts[e1].hints.len() && 0 <= i2 < after.excerpts[e2].hints.len()
                && after.excerpts[e1].hints[i1].0 == after.excerpts[e2].hints[i2].0 implies e1
            == e2 && i1 == i2 by {
            if e1 == target && e2 == target {
                if i1 < i2 {
                    assert(merged[i1].0 != merged[i2].0);
                } else if i2 < i1 {
                    assert(merged[i2].0 != merged[i1].0);
                }
            } else if e1 == target {
                assert(cache.excerpts[e2].hints[i2].0 < first_id);
                assert(before.hints.contains(merged[i1]));
                let j = choose|j: int| 0 <= j < before.hints.len() && before.hints[j] == merged[i1];
                assert(cache.excerpts[target].hints[j].0 == cache.excerpts[e2].hints[i2].0);
            } else if e2 == target {
                assert(cache.excerpts[e1].hints[i1].0 < first_id);
                assert(before.hints.contains(merged[i2]));
                let j = choose|j: int| 0 <= j < before.hints.len() && before.hints[j] == merged[i2];
                assert(cache.excerpts[e1].hints[i1].0 == cache.excerpts[target].hints[j].0);
            } else {
                assert(cache.excerpts[e1].hints[i1].0 == cache.excerpts[e2].hints[i2].0);
            }
        }
        assert forall|e: ExcerptId, i: int|
            #![trigger after.excerpts[e].hints[i]]
            after.excerpts.contains_key(e) && 0 <= i < after.excerpts[e].hints.len() implies after.excerpts[e].hints[i].0
            < first_id + update.add_to_cache.len() by {
            if e == target {
                assert(merged[i].0 < first_id + update.add_to_cache.len());
            } else {
                assert(cache.excerpts[e].hints[i].0 < first_id);
            }
        }
    }
}

/// No redundant fetch: once a refresh has recorded its fetches, the same
/// requests, made again without invalidation while the cache has not changed,
/// send no query.
pub proof fn lemma_repeated_refresh_sends_nothing(
    cache: CacheView,
    requests: Seq<RequestView>,
    invalidate: InvalidationStrategy,
)
    ensures
        queries_for(
            CacheView { update_tasks: tasks_after(cache, requests, invalidate), ..cache },
            requests,
            InvalidationStrategy::Nothing,
        ).len() == 0,
{
    let after = CacheView { update_tasks: tasks_after(cache, requests, invalidate), ..cache };
    let again = |r: RequestView| is_dispatched(after, r, InvalidationStrategy::Nothing);
    lemma_filter_members(requests, again);
    let sent = requests.filter(again);
    if sent.len() > 0 {
        let r = sent[0];
        assert(sent.contains(r));
        let k = choose|k: int| 0 <= k < requests.len() && requests[k] == r;
        assert(survives(after, r, InvalidationStrategy::Nothing));
        assert(after.excerpt(r.excerpt_id) == cache.excerpt(r.excerpt_id));
        if survives(cache, r, invalidate) {
            assert(is_dispatched(cache, r, invalidate));
            assert(dispatched_for(cache, requests, invalidate, requests[k].excerpt_id));
        } else {
            assert(requested(requests, requests[k].excerpt_id));
            assert(after.update_tasks.contains_key(r.excerpt_id));
            assert(after.update_tasks[r.excerpt_id] >= cache.version);
        }
    }
    assert(queries_for(after, requests, InvalidationStrategy::Nothing).len() == sent.len());
}

/// A newer fetch owns its excerpt: where the fetch on record for a requested
/// excerpt was started at a later cache version than the present one, no
/// query is sent for the excerpt and the record stays as it is, whatever the
/// strategy.
pub proof fn lemma_newer_fetch_on_record_is_kept(
    cache: CacheView,
    requests: Seq<RequestView>,
    invalidate: InvalidationStrategy,
    k: int,
)
    requires
        0 <= k < requests.len(),
        cache.update_tasks.contains_key(requests[k].excerpt_id),
        cache.update_tasks[requests[k].excerpt_id] > cache.version,
    ensures
        !queried(queries_for(cache, requests, invalidate), requests[k].excerpt_id),
        tasks_after(cache, requests, invalidate).contains_key(requests[k].excerpt_id),
        tasks_after(cache, requests, invalidate)[requests[k].excerpt_id]
            == cache.update_tasks[requests[k].excerpt_id],
{
    let id = requests[k].excerpt_id;
    lemma_queried_excerpts(cache, requests, invalidate);
    assert(!dispatched_for(cache, requests, invalidate, id)) by {
        if dispatched_for(cache, requests, invalidate, id) {
            let j = choose|j: int|
                0 <= j < requests.len() && (#[trigger] requests[j]).excerpt_id == id
                    && is_dispatched(cache, requests[j], invalidate);
            assert(!survives(cache, requests[j], invalidate));
        }
    }
    assert(requested(requests, id));
}

} // verus!
