//! Reconciling freshly fetched hints with the hints cached for an excerpt.

use std::collections::HashSet;
use vstd::prelude::*;
use vstd::std_specs::hash::group_hash_axioms;
use crate::excerpt_hints::{
    cached_under, cached_views, first_at, insert_by_position, is_cached, lemma_filter_push,
    lemma_first_at_unique, lemma_insert_by_position_sorted, sorted_by_position, without_removed,
    CachedExcerptHints, ExcerptHintsView,
};
use crate::hint::{
    hint_anchor, hint_views, Anchor, ExcerptId, HintView, Inlay, InlayHint, InlayHintKind, InlayId,
};
use crate::query::ExcerptQuery;

verus! {

/// What an answer of the hint source changes for one excerpt.
#[derive(Debug)]
pub struct ExcerptHintsUpdate {
    pub excerpt_id: ExcerptId,
    /// The cache version at which the answer was asked for.
    pub cache_version: usize,
    /// Displayed inlays that the answer did not confirm.
    pub remove_from_visible: Vec<InlayId>,
    /// Cached hints that the answer did not confirm.
    pub remove_from_cache: HashSet<InlayId>,
    /// Hints of the answer that are not cached yet.
    pub add_to_cache: Vec<InlayHint>,
}

/// The mathematical value of an [`ExcerptHintsUpdate`].
pub struct UpdateView {
    pub excerpt_id: ExcerptId,
    pub cache_version: usize,
    pub remove_from_visible: Seq<InlayId>,
    pub remove_from_cache: Set<InlayId>,
    pub add_to_cache: Seq<HintView>,
}

impl View for ExcerptHintsUpdate {
    type V = UpdateView;

    open spec fn view(&self) -> UpdateView {
        UpdateView {
            excerpt_id: self.excerpt_id,
            cache_version: self.cache_version,
            remove_from_visible: self.remove_from_visible@,
            remove_from_cache: self.remove_from_cache@,
            add_to_cache: hint_views(self.add_to_cache@),
        }
    }
}

impl UpdateView {
    /// Whether the update changes nothing.
    pub open spec fn is_empty(self) -> bool {
        &&& self.remove_from_visible.len() == 0
        &&& self.remove_from_cache == Set::<InlayId>::empty()
        &&& self.add_to_cache.len() == 0
    }
}

/// The hints cached for an excerpt, none where nothing is cached for it.
pub open spec fn cached_hints_of(cached: Option<&CachedExcerptHints>) -> Seq<(InlayId, HintView)> {
    match cached {
        Some(c) => c@.hints,
        None => Seq::empty(),
    }
}

/// The fetched hints that enter the cache: those in the queried range that
/// are not cached, in the order in which they were fetched.
pub open spec fn hints_to_add(
    query: ExcerptQuery,
    fetched: Seq<HintView>,
    cached: Seq<(InlayId, HintView)>,
) -> Seq<HintView> {
    fetched.filter(|h: HintView| query.contains(h.position) && !is_cached(cached, h))
}

/// The identities that the fetched hints confirm: those under which a fetched
/// hint in the queried range is cached.
pub open spec fn persisted_ids(
    query: ExcerptQuery,
    fetched: Seq<HintView>,
    cached: Seq<(InlayId, HintView)>,
) -> Set<InlayId> {
    Set::new(
        |id: InlayId|
            exists|k: int|
                0 <= k < fetched.len() && query.contains(fetched[k].position)
                    && #[trigger] cached_under(cached, fetched[k], id),
    )
}

/// The displayed inlays of the queried excerpt and range whose identity is not
/// among `persisted`, in the order in which they are displayed.
pub open spec fn visible_to_remove(
    query: ExcerptQuery,
    visible: Seq<Inlay>,
    persisted: Set<InlayId>,
) -> Seq<InlayId> {
    visible.filter(
        |inlay: Inlay|
            inlay.position.excerpt_id == query.excerpt_id && query.contains(
                inlay.position.text_anchor,
            ) && !persisted.contains(inlay.id),
    ).map_values(|inlay: Inlay| inlay.id)
}

/// The identities of the cached hints that are not among `persisted`.
pub open spec fn cached_to_remove(
    cached: Seq<(InlayId, HintView)>,
    persisted: Set<InlayId>,
) -> Set<InlayId> {
    Set::new(
        |id: InlayId|
            !persisted.contains(id) && exists|i: int|
                0 <= i < cached.len() && (#[trigger] cached[i]).0 == id,
    )
}

/// What the answer `fetched` to `query` changes, given the hints cached for
/// the excerpt and the inlays on display.
///
/// Fetched hints outside the queried range are ignored. A fetched hint that is
/// cached keeps its identity; any other is added. Where the query invalidates,
/// what the answer does not confirm leaves the display and the cache; where it
/// does not, nothing leaves.
pub open spec fn update_of(
    query: ExcerptQuery,
    fetched: Seq<HintView>,
    cached: Seq<(InlayId, HintView)>,
    visible: Seq<Inlay>,
) -> UpdateView {
    let persisted = persisted_ids(query, fetched, cached);
    UpdateView {
        excerpt_id: query.excerpt_id,
        cache_version: query.cache_version,
        remove_from_visible: if query.invalidate.invalidates() {
            visible_to_remove(query, visible, persisted)
        } else {
            Seq::empty()
        },
        remove_from_cache: if query.invalidate.invalidates() {
            cached_to_remove(cached, persisted)
        } else {
            Set::empty()
        },
        add_to_cache: hints_to_add(query, fetched, cached),
    }
}

/// A further fetched hint that is cached under `id` adds `id` to the confirmed
/// identities.
pub proof fn lemma_persisted_ids_confirmed(
    query: ExcerptQuery,
    fetched: Seq<HintView>,
    cached: Seq<(InlayId, HintView)>,
    hint: HintView,
    ix: int,
)
    requires
        query.contains(hint.position),
        first_at(cached, hint.position, ix),
        cached[ix].1 == hint,
    ensures
        persisted_ids(query, fetched.push(hint), cached) == persisted_ids(
            query,
            fetched,
            cached,
        ).insert(cached[ix].0),
        is_cached(cached, hint),
{
    let more = fetched.push(hint);
    let before = persisted_ids(query, fetched, cached);
    let after = persisted_ids(query, more, cached);
    let id = cached[ix].0;
    assert(cached_under(cached, hint, id));
    assert forall|other: InlayId| after.contains(other) <==> before.insert(id).contains(
        other,
    ) by {
        if after.contains(other) {
            let k = choose|k: int|
                0 <= k < more.len() && query.contains(more[k].position) && #[trigger] cached_under(
                    cached,
                    more[k],
                    other,
                );
            if k < fetched.len() {
                assert(more[k] == fetched[k]);
                assert(cached_under(cached, fetched[k], other));
            } else {
                let i = choose|i: int|
                    #[trigger] first_at(cached, hint.position, i) && cached[i] == (other, hint);
                lemma_first_at_unique(cached, hint.position, i, ix);
            }
        }
        if before.contains(other) {
            let k = choose|k: int|
                0 <= k < fetched.len() && query.contains(fetched[k].position)
                    && #[trigger] cached_under(cached, fetched[k], other);
            assert(more[k] == fetched[k]);
            assert(cached_under(cached, more[k], other));
        }
        if other == id {
            assert(more[fetched.len() as int] == hint);
            assert(cached_under(cached, more[fetched.len() as int], other));
        }
    }
    assert(after =~= before.insert(id));
}

/// A further fetched hint that is out of range or not cached confirms no
/// identity.
pub proof fn lemma_persisted_ids_unconfirmed(
    query: ExcerptQuery,
    fetched: Seq<HintView>,
    cached: Seq<(InlayId, HintView)>,
    hint: HintView,
)
    requires
        !query.contains(hint.position) || !is_cached(cached, hint),
    ensures
        persisted_ids(query, fetched.push(hint), cached) == persisted_ids(query, fetched, cached),
{
    let more = fetched.push(hint);
    let before = persisted_ids(query, fetched, cached);
    let after = persisted_ids(query, more, cached);
    assert forall|other: InlayId| after.contains(other) <==> before.contains(other) by {
        if after.contains(other) {
            let k = choose|k: int|
                0 <= k < more.len() && query.contains(more[k].position) && #[trigger] cached_under(
                    cached,
                    more[k],
                    other,
                );
            if k < fetched.len() {
                assert(more[k] == fetched[k]);
                assert(cached_under(cached, fetched[k], other));
            } else {
                let i = choose|i: int|
                    #[trigger] first_at(cached, hint.position, i) && cached[i] == (other, hint);
                assert(first_at(cached, hint.position, i) && cached[i].1 == hint);
            }
        }
        if before.contains(other) {
            let k = choose|k: int|
                0 <= k < fetched.len() && query.contains(fetched[k].position)
                    && #[trigger] cached_under(cached, fetched[k], other);
            assert(more[k] == fetched[k]);
            assert(cached_under(cached, more[k], other));
        }
    }
    assert(after =~= before);
}

/// Reconciles the answer `new_excerpt_hints` to `query` with the hints cached
/// for the excerpt and the inlays on display. Returns nothing where the answer
/// changes nothing.
pub fn new_excerpt_hints_update_result(
    query: ExcerptQuery,
    new_excerpt_hints: Vec<InlayHint>,
    cached_excerpt_hints: Option<&CachedExcerptHints>,
    visible_hints: &Vec<Inlay>,
) -> (r: Option<ExcerptHintsUpdate>)
    requires
        cached_excerpt_hints matches Some(c) ==> c.wf(),
    ensures
        match r {
            Some(update) => update@ == update_of(
                query,
                hint_views(new_excerpt_hints@),
                cached_hints_of(cached_excerpt_hints),
                visible_hints@,
            ) && !update@.is_empty(),
            None => update_of(
                query,
                hint_views(new_excerpt_hints@),
                cached_hints_of(cached_excerpt_hints),
                visible_hints@,
            ).is_empty(),
        },
{
    broadcast use group_hash_axioms;

    let ghost all = new_excerpt_hints@;
    let ghost fetched = hint_views(new_excerpt_hints@);
    let ghost cached = cached_hints_of(cached_excerpt_hints);
    let ghost to_add = |h: HintView| query.contains(h.position) && !is_cached(cached, h);
    let mut add_to_cache: Vec<InlayHint> = Vec::new();
    let mut excerpt_hints_to_persist: HashSet<InlayId> = HashSet::new();
    proof {
        reveal(Seq::filter);
        assert(fetched.take(0) =~= Seq::empty());
        assert(hint_views(add_to_cache@) =~= fetched.take(0).filter(to_add));
        assert(excerpt_hints_to_persist@ =~= persisted_ids(query, fetched.take(0), cached));
    }
    for new_hint in it: new_excerpt_hints
        invariant
            it.seq() == all,
            fetched == hint_views(all),
            cached == cached_hints_of(cached_excerpt_hints),
            cached_excerpt_hints matches Some(c) ==> c.wf(),
            to_add == |h: HintView| query.contains(h.position) && !is_cached(cached, h),
            hint_views(add_to_cache@) == fetched.take(it.index()).filter(to_add),
            excerpt_hints_to_persist@ == persisted_ids(query, fetched.take(it.index()), cached),
    {
        let ghost n = it.index();
        let ghost hint = new_hint@;
        let ghost seen = fetched.take(n);
        proof {
            assert(fetched[n] == hint);
            assert(fetched.take(n + 1) =~= seen.push(hint));
            lemma_filter_push(seen, hint, to_add);
        }
        let mut missing_from_cache = true;
        if query.contains_position(new_hint.position) {
            match cached_excerpt_hints {
                Some(cached_excerpt_hints) => {
                    match cached_excerpt_hints.position_index(new_hint.position) {
                        Some(ix) => {
                            let entry = &cached_excerpt_hints.hints()[ix];
                            assert(cached[ix as int] == (entry.0, entry.1@));
                            if entry.1 == new_hint {
                                proof {
                                    lemma_persisted_ids_confirmed(
                                        query,
                                        seen,
                                        cached,
                                        hint,
                                        ix as int,
                                    );
                                }
                                excerpt_hints_to_persist.insert(entry.0);
                                missing_from_cache = false;
                            } else {
                                proof {
                                    assert(!is_cached(cached, hint)) by {
                                        if is_cached(cached, hint) {
                                            let i = choose|i: int|
                                                #[trigger] first_at(cached, hint.position, i)
                                                    && cached[i].1 == hint;
                                            lemma_first_at_unique(
                                                cached,
                                                hint.position,
                                                i,
                                                ix as int,
                                            );
                                        }
                                    }
                                    lemma_persisted_ids_unconfirmed(query, seen, cached, hint);
                                }
                            }
                        },
                        None => {
                            proof {
                                lemma_persisted_ids_unconfirmed(query, seen, cached, hint);
                            }
                        },
                    }
                },
                None => {
                    proof {
                        lemma_persisted_ids_unconfirmed(query, seen, cached, hint);
                    }
                },
            }
            if missing_from_cache {
                let ghost before = add_to_cache@;
                add_to_cache.push(new_hint);
                assert(hint_views(add_to_cache@) =~= hint_views(before).push(hint));
            }
        } else {
            proof {
                lemma_persisted_ids_unconfirmed(query, seen, cached, hint);
            }
        }
    }
    proof {
        assert(fetched.take(fetched.len() as int) =~= fetched);
    }
    let ghost persisted = persisted_ids(query, fetched, cached);

    let mut remove_from_visible: Vec<InlayId> = Vec::new();
    let mut remove_from_cache: HashSet<InlayId> = HashSet::new();
    if query.invalidate.should_invalidate() {
        let ghost unconfirmed = |inlay: Inlay|
            inlay.position.excerpt_id == query.excerpt_id && query.contains(
                inlay.position.text_anchor,
            ) && !persisted.contains(inlay.id);
        let ghost id_of = |inlay: Inlay| inlay.id;
        let mut n: usize = 0;
        proof {
            assert(visible_hints@.take(0) =~= Seq::empty());
            assert(remove_from_visible@ =~= visible_hints@.take(0).filter(unconfirmed).map_values(
                id_of,
            ));
        }
        while n < visible_hints.len()
            invariant
                n <= visible_hints.len(),
                excerpt_hints_to_persist@ == persisted,
                unconfirmed == |inlay: Inlay|
                    inlay.position.excerpt_id == query.excerpt_id && query.contains(
                        inlay.position.text_anchor,
                    ) && !persisted.contains(inlay.id),
                id_of == |inlay: Inlay| inlay.id,
                remove_from_visible@ == visible_hints@.take(n as int).filter(
                    unconfirmed,
                ).map_values(id_of),
            decreases visible_hints.len() - n,
        {
            let inlay = visible_hints[n];
            proof {
                assert(visible_hints@.take(n + 1) =~= visible_hints@.take(n as int).push(inlay));
                lemma_filter_push(visible_hints@.take(n as int), inlay, unconfirmed);
            }
            if inlay.position.excerpt_id == query.excerpt_id && query.contains_position(
                inlay.position.text_anchor,
            ) && !excerpt_hints_to_persist.contains(&inlay.id) {
                remove_from_visible.push(inlay.id);
                assert(remove_from_visible@ =~= visible_hints@.take(n + 1).filter(
                    unconfirmed,
                ).map_values(id_of));
            }
            n += 1;
        }
        proof {
            assert(visible_hints@.take(visible_hints@.len() as int) =~= visible_hints@);
        }

        match cached_excerpt_hints {
            Some(cached_excerpt_hints) => {
                let hints = cached_excerpt_hints.hints();
                let mut i: usize = 0;
                assert(remove_from_cache@ =~= cached_to_remove(cached.take(0), persisted));
                while i < hints.len()
                    invariant
                        i <= hints.len(),
                        cached == cached_views(hints@),
                        excerpt_hints_to_persist@ == persisted,
                        remove_from_cache@ == cached_to_remove(cached.take(i as int), persisted),
                    decreases hints.len() - i,
                {
                    let ghost seen = cached.take(i as int);
                    let ghost more = cached.take(i + 1);
                    let id = hints[i].0;
                    assert(cached[i as int].0 == id);
                    assert(more[i as int] == cached[i as int]);
                    let confirmed = excerpt_hints_to_persist.contains(&id);
                    if !confirmed {
                        remove_from_cache.insert(id);
                    }
                    proof {
                        let expected = cached_to_remove(more, persisted);
                        assert forall|other: InlayId|
                            remove_from_cache@.contains(other) <==> expected.contains(other) by {
                            if expected.contains(other) {
                                let j = choose|j: int|
                                    0 <= j < more.len() && (#[trigger] more[j]).0 == other;
                                if j < i {
                                    assert(seen[j] == more[j]);
                                }
                            }
                            if cached_to_remove(seen, persisted).contains(other) {
                                let j = choose|j: int|
                                    0 <= j < seen.len() && (#[trigger] seen[j]).0 == other;
                                assert(more[j] == seen[j]);
                            }
                        }
                        assert(remove_from_cache@ =~= expected);
                    }
                    i += 1;
                }
                proof {
                    assert(cached.take(cached.len() as int) =~= cached);
                }
            },
            None => {
                assert(remove_from_cache@ =~= cached_to_remove(cached, persisted));
            },
        }
    }
    if remove_from_visible.is_empty() && remove_from_cache.is_empty() && add_to_cache.is_empty() {
        None
    } else {
        Some(
            ExcerptHintsUpdate {
                cache_version: query.cache_version,
                excerpt_id: query.excerpt_id,
                remove_from_visible,
                remove_from_cache,
                add_to_cache,
            },
        )
    }
}

/// The hints `added` with the identities they are given: consecutive ones,
/// from `first_id` on, in the order of the hints.
pub open spec fn with_fresh_ids(added: Seq<HintView>, first_id: InlayId) -> Seq<
    (InlayId, HintView),
> {
    Seq::new(added.len(), |i: int| ((first_id + i) as usize, added[i]))
}

/// `hints` with each of `items` inserted by its position, one after the other.
/// Where `hints` is sorted, this is `hints` followed by `items`, sorted by
/// position without changing the order of hints at the same position.
pub open spec fn insert_all(
    hints: Seq<(InlayId, HintView)>,
    items: Seq<(InlayId, HintView)>,
) -> Seq<(InlayId, HintView)>
    decreases items.len(),
{
    if items.len() == 0 {
        hints
    } else {
        insert_by_position(insert_all(hints, items.drop_last()), items.last())
    }
}

/// The inlays to display for those of `items` whose kind is among `allowed`.
pub open spec fn shown_inserts(
    excerpt_id: ExcerptId,
    items: Seq<(InlayId, HintView)>,
    allowed: Set<Option<InlayHintKind>>,
) -> Seq<(Anchor, InlayId, HintView)> {
    items.filter(|e: (InlayId, HintView)| allowed.contains(e.1.kind)).map_values(
        |e: (InlayId, HintView)| (hint_anchor(excerpt_id, e.1), e.0, e.1),
    )
}

/// The hints of an excerpt after `update` is applied to `region`: what the
/// update removes is gone, what it adds is in, under fresh identities.
pub open spec fn region_after(
    region: ExcerptHintsView,
    update: UpdateView,
    buffer_version: Seq<u32>,
    first_id: InlayId,
) -> ExcerptHintsView {
    ExcerptHintsView {
        version: update.cache_version,
        buffer_version,
        hints: insert_all(
            without_removed(region.hints, update.remove_from_cache),
            with_fresh_ids(update.add_to_cache, first_id),
        ),
    }
}

/// Inserting hints by position keeps a sorted sequence sorted.
pub proof fn lemma_insert_all_sorted(
    hints: Seq<(InlayId, HintView)>,
    items: Seq<(InlayId, HintView)>,
)
    requires
        sorted_by_position(hints),
    ensures
        sorted_by_position(insert_all(hints, items)),
        insert_all(hints, items).len() == hints.len() + items.len(),
    decreases items.len(),
{
    if items.len() > 0 {
        lemma_insert_all_sorted(hints, items.drop_last());
        lemma_insert_by_position_sorted(insert_all(hints, items.drop_last()), items.last());
    }
}

} // verus!
