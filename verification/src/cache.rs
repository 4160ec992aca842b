//! The cache itself: the hints of every excerpt, the kinds on display, and the
//! bookkeeping of the fetches under way.

use std::collections::HashMap;
use vstd::prelude::*;
use vstd::std_specs::hash::group_hash_axioms;
use crate::clock::Global;
use crate::excerpt_hints::{
    lemma_filter_push, without_removed, CachedExcerptHints, ExcerptHintsView,
};
use crate::hint::{
    hint_anchor, hint_views, Anchor, ExcerptId, HintView, Inlay, InlayHint, InlayId,
};
use crate::query::{
    distinct_excerpts, request_views, ExcerptQuery, ExcerptRequest, InvalidationStrategy,
    RequestView,
};
use crate::schedule::{
    dispatched_for, is_dispatched, lemma_queried_excerpts, lemma_with_recorded, queried,
    queries_for, query_for, requested, retained_tasks, survives, task_of, tasks_after,
    with_recorded,
};
use crate::resync::{
    inlays_in_excerpt, kinds_splice, kinds_splice_over, settings_result, splice_view, walk_excerpt,
};
use crate::settings::{allowed_hint_types, allowed_kinds_of, AllowedHintKinds, InlayHintSettings};
use crate::splice::{insert_views, InlaySplice, SpliceView};
use crate::update::{
    insert_all, region_after, shown_inserts, with_fresh_ids, ExcerptHintsUpdate, UpdateView,
};

verus! {

/// The mathematical value of an [`InlayHintCache`].
pub struct CacheView {
    /// The hints cached for each excerpt that has any.
    pub excerpts: Map<ExcerptId, ExcerptHintsView>,
    /// The excerpts that have cached hints, in the order in which they entered
    /// the cache.
    pub order: Seq<ExcerptId>,
    /// The kinds of hints that are on display.
    pub allowed_hint_kinds: AllowedHintKinds,
    /// Counts the changes to the cache.
    pub version: usize,
    /// For each excerpt with a fetch on record, the cache version at which the
    /// last one was started.
    pub update_tasks: Map<ExcerptId, usize>,
}

impl CacheView {
    /// Whether the cache is consistent: `order` lists the excerpts that have
    /// cached hints, each once, and the hints of each are in the order of their
    /// positions.
    pub open spec fn wf(self) -> bool {
        &&& self.order.no_duplicates()
        &&& forall|id: ExcerptId| self.excerpts.contains_key(id) <==> self.order.contains(id)
        &&& forall|id: ExcerptId|
            self.excerpts.contains_key(id) ==> (#[trigger] self.excerpts[id]).wf()
    }

    /// The hints cached for an excerpt, if there are any.
    pub open spec fn excerpt(self, id: ExcerptId) -> Option<ExcerptHintsView> {
        if self.excerpts.contains_key(id) {
            Some(self.excerpts[id])
        } else {
            None
        }
    }
}

/// Whether `update` was asked for at an earlier cache version than the one the
/// excerpt's hints are at, so that it is to be dropped.
pub open spec fn is_stale(cache: CacheView, update: UpdateView) -> bool {
    cache.excerpts.contains_key(update.excerpt_id) && update.cache_version
        < cache.excerpts[update.excerpt_id].version
}

/// The hints that `update` is applied to: those cached for its excerpt, or
/// none where nothing is cached for it.
pub open spec fn region_before(
    cache: CacheView,
    update: UpdateView,
    buffer_version: Seq<u32>,
) -> ExcerptHintsView {
    if cache.excerpts.contains_key(update.excerpt_id) {
        cache.excerpts[update.excerpt_id]
    } else {
        ExcerptHintsView { version: update.cache_version, buffer_version, hints: Seq::empty() }
    }
}

/// The cache after `update` is applied: unchanged where the update is stale;
/// otherwise the excerpt's hints are updated and the cache version is one
/// higher.
pub open spec fn cache_after(
    cache: CacheView,
    update: UpdateView,
    buffer_version: Seq<u32>,
    first_id: InlayId,
) -> CacheView {
    if is_stale(cache, update) {
        cache
    } else {
        CacheView {
            excerpts: cache.excerpts.insert(
                update.excerpt_id,
                region_after(
                    region_before(cache, update, buffer_version),
                    update,
                    buffer_version,
                    first_id,
                ),
            ),
            order: if cache.excerpts.contains_key(update.excerpt_id) {
                cache.order
            } else {
                cache.order.push(update.excerpt_id)
            },
            version: (cache.version + 1) as usize,
            ..cache
        }
    }
}

/// The change to the display that applying `update` calls for, where the
/// update is not stale: what the update takes off the display, and the added
/// hints whose kind is on display.
pub open spec fn splice_after(cache: CacheView, update: UpdateView, first_id: InlayId) -> SpliceView {
    SpliceView {
        to_remove: update.remove_from_visible,
        to_insert: shown_inserts(
            update.excerpt_id,
            with_fresh_ids(update.add_to_cache, first_id),
            cache.allowed_hint_kinds@,
        ),
    }
}

/// The next identity to give out after `update` is applied.
pub open spec fn next_id_after(cache: CacheView, update: UpdateView, first_id: InlayId) -> int {
    if is_stale(cache, update) {
        first_id as int
    } else {
        first_id + update.add_to_cache.len()
    }
}

/// The mathematical values of the hints cached for each excerpt.
spec fn excerpts_of(hints: Map<ExcerptId, CachedExcerptHints>) -> Map<ExcerptId, ExcerptHintsView> {
    Map::new(|id: ExcerptId| hints.contains_key(id), |id: ExcerptId| hints[id]@)
}

/// The cache of inlay hints.
#[derive(Debug)]
pub struct InlayHintCache {
    hints: HashMap<ExcerptId, CachedExcerptHints>,
    /// The excerpts with cached hints, in the order in which they entered the
    /// cache. A change of the allowed kinds goes through them in this order.
    order: Vec<ExcerptId>,
    allowed_hint_kinds: AllowedHintKinds,
    version: usize,
    update_tasks: HashMap<ExcerptId, usize>,
}

impl View for InlayHintCache {
    type V = CacheView;

    closed spec fn view(&self) -> CacheView {
        CacheView {
            excerpts: excerpts_of(self.hints@),
            order: self.order@,
            allowed_hint_kinds: self.allowed_hint_kinds,
            version: self.version,
            update_tasks: self.update_tasks@,
        }
    }
}

impl InlayHintCache {
    /// Whether the cache is consistent. Every operation keeps it so.
    pub open spec fn wf(&self) -> bool {
        self@.wf()
    }

    /// What a consistent cache knows of the excerpt at index `i` of its order.
    proof fn lemma_listed(&self, i: int)
        requires
            self.wf(),
            0 <= i < self.order@.len(),
        ensures
            self.hints@.contains_key(self.order@[i]),
            self@.excerpts[self.order@[i]] == self.hints@[self.order@[i]]@,
            self.hints@[self.order@[i]].wf(),
    {
        assert(self@.order.contains(self.order@[i]));
        assert(self@.excerpts.contains_key(self.order@[i]));
        assert(self@.excerpts[self.order@[i]].wf());
    }

    /// An empty cache that displays the kinds that `inlay_hint_settings` allow.
    pub fn new(inlay_hint_settings: InlayHintSettings) -> (r: InlayHintCache)
        ensures
            r@ == (CacheView {
                excerpts: Map::empty(),
                order: Seq::empty(),
                allowed_hint_kinds: allowed_kinds_of(inlay_hint_settings),
                version: 0,
                update_tasks: Map::empty(),
            }),
            r.wf(),
    {
        let r = InlayHintCache {
            allowed_hint_kinds: allowed_hint_types(inlay_hint_settings),
            hints: HashMap::new(),
            order: Vec::new(),
            update_tasks: HashMap::new(),
            version: 0,
        };
        proof {
            assert(excerpts_of(r.hints@) =~= Map::empty());
        }
        r
    }

    /// The number of changes made to the cache so far.
    pub fn version(&self) -> (r: usize)
        ensures
            r == self@.version,
    {
        self.version
    }

    /// The kinds of hints that are on display.
    pub fn allowed_hint_kinds(&self) -> (r: AllowedHintKinds)
        ensures
            r == self@.allowed_hint_kinds,
    {
        self.allowed_hint_kinds
    }

    /// The number of excerpts that have cached hints.
    pub fn excerpt_count(&self) -> (r: usize)
        ensures
            r == self@.order.len(),
    {
        self.order.len()
    }

    /// The hints cached for an excerpt, if there are any.
    pub fn excerpt_hints(&self, excerpt_id: ExcerptId) -> (r: Option<&CachedExcerptHints>)
        requires
            self.wf(),
        ensures
            match r {
                Some(cached) => self@.excerpt(excerpt_id) == Some(cached@) && cached.wf(),
                None => self@.excerpt(excerpt_id).is_none(),
            },
    {
        broadcast use group_hash_axioms;

        let cached = self.hints.get(&excerpt_id);
        proof {
            if cached is Some {
                assert(self@.excerpts.contains_key(excerpt_id));
                assert(self@.excerpts[excerpt_id].wf());
            }
        }
        cached
    }

    /// The cache version at which the last fetch on record for an excerpt was
    /// started, if one is on record.
    pub fn task_version(&self, excerpt_id: ExcerptId) -> (r: Option<usize>)
        ensures
            r == task_of(self@.update_tasks, excerpt_id),
    {
        broadcast use group_hash_axioms;

        match self.update_tasks.get(&excerpt_id) {
            Some(version) => Some(*version),
            None => None,
        }
    }

    /// Forgets every cached hint, every fetch on record and every allowed kind.
    pub fn clear(&mut self)
        requires
            old(self)@.version < usize::MAX,
        ensures
            final(self)@ == (CacheView {
                excerpts: Map::empty(),
                order: Seq::empty(),
                allowed_hint_kinds: AllowedHintKinds {
                    type_hints: false,
                    parameter_hints: false,
                    other_hints: false,
                },
                version: (old(self)@.version + 1) as usize,
                update_tasks: Map::empty(),
            }),
            final(self).wf(),
    {
        self.version += 1;
        self.update_tasks.clear();
        self.hints.clear();
        self.order.clear();
        self.allowed_hint_kinds = AllowedHintKinds::empty();
        proof {
            assert(excerpts_of(self.hints@) =~= Map::empty());
        }
    }

    /// Applies `update`, which was computed from an answer of the hint source
    /// about a buffer at `buffer_version`, and returns the change to make to
    /// the display, if there is one. New hints get the identities from
    /// `next_inlay_id` on. An update that was asked for at an earlier cache
    /// version than the one the excerpt's hints are at changes nothing.
    pub fn apply_update(
        &mut self,
        update: ExcerptHintsUpdate,
        buffer_version: Global,
        next_inlay_id: &mut InlayId,
    ) -> (r: Option<InlaySplice>)
        requires
            old(self).wf(),
            !is_stale(old(self)@, update@) ==> old(self)@.version < usize::MAX,
            !is_stale(old(self)@, update@) ==> *old(next_inlay_id) + update@.add_to_cache.len()
                <= usize::MAX,
        ensures
            final(self).wf(),
            final(self)@ == cache_after(
                old(self)@,
                update@,
                buffer_version@,
                *old(next_inlay_id),
            ),
            *final(next_inlay_id) == next_id_after(old(self)@, update@, *old(next_inlay_id)),
            match r {
                Some(splice) => !is_stale(old(self)@, update@) && splice@ == splice_after(
                    old(self)@,
                    update@,
                    *old(next_inlay_id),
                ) && !splice@.is_empty(),
                None => is_stale(old(self)@, update@) || splice_after(
                    old(self)@,
                    update@,
                    *old(next_inlay_id),
                ).is_empty(),
            },
    {
        broadcast use group_hash_axioms;

        let ghost before = self@;
        let ghost change = update@;
        let ghost first_id = *next_inlay_id;
        let ExcerptHintsUpdate {
            excerpt_id,
            cache_version,
            remove_from_visible,
            remove_from_cache,
            add_to_cache,
        } = update;
        match self.hints.get(&excerpt_id) {
            Some(cached_excerpt_hints) => {
                if cache_version < cached_excerpt_hints.version() {
                    return None;
                }
            },
            None => {},
        }
        let known = self.hints.remove(&excerpt_id);
        let is_new = known.is_none();
        let mut cached_excerpt_hints = match known {
            Some(cached_excerpt_hints) => {
                assert(before.excerpts[excerpt_id].wf());
                cached_excerpt_hints
            },
            None => CachedExcerptHints::new(cache_version, Global::new()),
        };
        let ghost start = region_before(before, change, buffer_version@);
        assert(cached_excerpt_hints@.hints == start.hints);
        cached_excerpt_hints.set_version(cache_version);
        cached_excerpt_hints.remove_all(&remove_from_cache);
        cached_excerpt_hints.set_buffer_version(buffer_version);
        self.version += 1;

        let ghost kept = without_removed(start.hints, change.remove_from_cache);
        let ghost fresh = with_fresh_ids(change.add_to_cache, first_id);
        let ghost all = add_to_cache@;
        let ghost allowed = self.allowed_hint_kinds@;
        let ghost shown = |e: (InlayId, HintView)| allowed.contains(e.1.kind);
        let ghost inlay_of = |e: (InlayId, HintView)| (hint_anchor(excerpt_id, e.1), e.0, e.1);
        let mut to_insert: Vec<(Anchor, InlayId, InlayHint)> = Vec::new();
        proof {
            reveal(Seq::filter);
            assert(fresh.take(0) =~= Seq::empty());
            assert(insert_views(to_insert@) =~= fresh.take(0).filter(shown).map_values(inlay_of));
        }
        for new_hint in it: add_to_cache
            invariant
                it.seq() == all,
                hint_views(all) == change.add_to_cache,
                fresh == with_fresh_ids(change.add_to_cache, first_id),
                first_id + all.len() <= usize::MAX,
                *next_inlay_id == first_id + it.index(),
                allowed == self.allowed_hint_kinds@,
                shown == |e: (InlayId, HintView)| allowed.contains(e.1.kind),
                inlay_of == |e: (InlayId, HintView)| (hint_anchor(excerpt_id, e.1), e.0, e.1),
                cached_excerpt_hints.wf(),
                cached_excerpt_hints@ == (ExcerptHintsView {
                    version: cache_version,
                    buffer_version: buffer_version@,
                    hints: insert_all(kept, fresh.take(it.index())),
                }),
                insert_views(to_insert@) == fresh.take(it.index()).filter(shown).map_values(
                    inlay_of,
                ),
        {
            let ghost n = it.index();
            let new_inlay_id = *next_inlay_id;
            *next_inlay_id = new_inlay_id + 1;
            proof {
                assert(hint_views(all)[n] == new_hint@);
                assert(fresh[n] == (new_inlay_id, new_hint@));
                assert(fresh.take(n + 1) =~= fresh.take(n).push(fresh[n]));
                assert(fresh.take(n + 1).drop_last() =~= fresh.take(n));
                lemma_filter_push(fresh.take(n), fresh[n], shown);
            }
            if self.allowed_hint_kinds.contains(&new_hint.kind) {
                let ghost shown_before = to_insert@;
                let new_hint_position = Anchor {
                    buffer_id: Some(new_hint.buffer_id),
                    excerpt_id,
                    text_anchor: new_hint.position,
                };
                to_insert.push((new_hint_position, new_inlay_id, new_hint.clone()));
                assert(insert_views(to_insert@) =~= insert_views(shown_before).push(
                    inlay_of(fresh[n]),
                ));
                assert(insert_views(to_insert@) =~= fresh.take(n + 1).filter(shown).map_values(
                    inlay_of,
                ));
            }
            cached_excerpt_hints.insert(new_inlay_id, new_hint);
        }
        proof {
            assert(fresh.take(fresh.len() as int) =~= fresh);
        }
        let ghost order_before = self.order@;
        self.hints.insert(excerpt_id, cached_excerpt_hints);
        if is_new {
            self.order.push(excerpt_id);
        }
        proof {
            let after = self@;
            assert(after.excerpts =~= cache_after(
                before,
                change,
                buffer_version@,
                first_id,
            ).excerpts);
            assert(after.wf()) by {
                assert forall|id: ExcerptId| after.excerpts.contains_key(id) <==> after.order.contains(
                    id,
                ) by {
                    if order_before.contains(id) {
                        let k = choose|k: int| 0 <= k < order_before.len() && order_before[k] == id;
                        assert(after.order[k] == id);
                    }
                    if after.order.contains(id) {
                        let k = choose|k: int| 0 <= k < after.order.len() && after.order[k] == id;
                        if k < order_before.len() {
                            assert(order_before[k] == id);
                        }
                    }
                    if is_new && id == excerpt_id {
                        assert(after.order[order_before.len() as int] == id);
                    }
                }
                assert forall|a: int, b: int|
                    0 <= a < after.order.len() && 0 <= b < after.order.len() && a
                        != b implies after.order[a] != after.order[b] by {
                    if a < order_before.len() {
                        assert(order_before.contains(order_before[a]));
                    }
                    if b < order_before.len() {
                        assert(order_before.contains(order_before[b]));
                    }
                }
            }
        }
        let splice = InlaySplice { to_remove: remove_from_visible, to_insert };
        if splice.to_remove.is_empty() && splice.to_insert.is_empty() {
            None
        } else {
            Some(splice)
        }
    }

    /// The change to make to the display when the allowed kinds become
    /// `new_kinds`, if there is one. The cache stays as it is.
    pub fn new_allowed_hint_kinds_splice(
        &self,
        visible_hints: &Vec<Inlay>,
        new_kinds: &AllowedHintKinds,
    ) -> (r: Option<InlaySplice>)
        requires
            self.wf(),
        ensures
            match r {
                Some(splice) => *new_kinds != self@.allowed_hint_kinds && splice@ == kinds_splice(
                    self@,
                    visible_hints@,
                    *new_kinds,
                ) && !splice@.is_empty(),
                None => *new_kinds == self@.allowed_hint_kinds || kinds_splice(
                    self@,
                    visible_hints@,
                    *new_kinds,
                ).is_empty(),
            },
    {
        broadcast use group_hash_axioms;

        if *new_kinds == self.allowed_hint_kinds {
            return None;
        }
        let ghost order = self@.order;
        let ghost old_kinds = self.allowed_hint_kinds@;
        let mut to_remove: Vec<InlayId> = Vec::new();
        let mut to_insert: Vec<(Anchor, InlayId, InlayHint)> = Vec::new();
        let mut n: usize = 0;
        proof {
            assert(order.take(0) =~= Seq::empty());
            assert(insert_views(to_insert@) =~= Seq::empty());
        }
        while n < self.order.len()
            invariant
                self.wf(),
                n <= self.order.len(),
                order == self@.order,
                order == self.order@,
                old_kinds == self.allowed_hint_kinds@,
                (to_remove@, insert_views(to_insert@)) == kinds_splice_over(
                    order.take(n as int),
                    self@.excerpts,
                    visible_hints@,
                    old_kinds,
                    new_kinds@,
                ),
            decreases self.order.len() - n,
        {
            let excerpt_id = self.order[n];
            proof {
                self.lemma_listed(n as int);
                assert(order.take(n + 1).drop_last() =~= order.take(n as int));
                assert(order.take(n + 1).last() == excerpt_id);
            }
            let shown = inlays_in_excerpt(visible_hints, excerpt_id);
            let cached_excerpt_hints = self.hints.get(&excerpt_id).unwrap();
            walk_excerpt(
                excerpt_id,
                &shown,
                cached_excerpt_hints.hints(),
                &self.allowed_hint_kinds,
                new_kinds,
                &mut to_remove,
                &mut to_insert,
            );
            n += 1;
        }
        proof {
            assert(order.take(order.len() as int) =~= order);
        }
        let ghost cached_removed = to_remove@;
        let ghost uncached = |inlay: Inlay| !self@.excerpts.contains_key(inlay.position.excerpt_id);
        let ghost id_of = |inlay: Inlay| inlay.id;
        let mut k: usize = 0;
        proof {
            reveal(Seq::filter);
            assert(visible_hints@.take(0) =~= Seq::empty());
            assert(to_remove@ =~= cached_removed + visible_hints@.take(0).filter(
                uncached,
            ).map_values(id_of));
        }
        while k < visible_hints.len()
            invariant
                self.wf(),
                k <= visible_hints.len(),
                uncached == |inlay: Inlay| !self@.excerpts.contains_key(inlay.position.excerpt_id),
                id_of == |inlay: Inlay| inlay.id,
                to_remove@ == cached_removed + visible_hints@.take(k as int).filter(
                    uncached,
                ).map_values(id_of),
            decreases visible_hints.len() - k,
        {
            let inlay = visible_hints[k];
            proof {
                assert(visible_hints@.take(k + 1) =~= visible_hints@.take(k as int).push(inlay));
                lemma_filter_push(visible_hints@.take(k as int), inlay, uncached);
            }
            if !self.hints.contains_key(&inlay.position.excerpt_id) {
                to_remove.push(inlay.id);
                assert(to_remove@ =~= cached_removed + visible_hints@.take(k + 1).filter(
                    uncached,
                ).map_values(id_of));
            }
            k += 1;
        }
        proof {
            assert(visible_hints@.take(visible_hints@.len() as int) =~= visible_hints@);
        }
        if to_remove.is_empty() && to_insert.is_empty() {
            None
        } else {
            Some(InlaySplice { to_remove, to_insert })
        }
    }

    /// Brings the cache in line with new settings and returns the change to
    /// make to the display, if there is one. Nothing is fetched. The cache
    /// version is raised just where a change to the display is returned.
    pub fn update_settings(
        &mut self,
        inlay_hint_settings: InlayHintSettings,
        visible_hints: Vec<Inlay>,
    ) -> (r: Option<InlaySplice>)
        requires
            old(self).wf(),
            settings_result(old(self)@, inlay_hint_settings, visible_hints@).1 is Some
                ==> old(self)@.version < usize::MAX,
        ensures
            final(self).wf(),
            final(self)@ == settings_result(old(self)@, inlay_hint_settings, visible_hints@).0,
            splice_view(r) == settings_result(old(self)@, inlay_hint_settings, visible_hints@).1,
    {
        let new_allowed_hint_kinds = allowed_hint_types(inlay_hint_settings);
        if !inlay_hint_settings.enabled {
            if self.order.is_empty() && visible_hints.is_empty() {
                self.allowed_hint_kinds = new_allowed_hint_kinds;
                None
            } else {
                self.clear();
                self.allowed_hint_kinds = new_allowed_hint_kinds;
                let ghost id_of = |inlay: Inlay| inlay.id;
                let mut to_remove: Vec<InlayId> = Vec::new();
                let mut n: usize = 0;
                while n < visible_hints.len()
                    invariant
                        n <= visible_hints.len(),
                        id_of == |inlay: Inlay| inlay.id,
                        to_remove@ == visible_hints@.take(n as int).map_values(id_of),
                    decreases visible_hints.len() - n,
                {
                    to_remove.push(visible_hints[n].id);
                    assert(to_remove@ =~= visible_hints@.take(n + 1).map_values(id_of));
                    n += 1;
                }
                proof {
                    assert(visible_hints@.take(visible_hints@.len() as int) =~= visible_hints@);
                }
                let splice = InlaySplice { to_remove, to_insert: Vec::new() };
                assert(splice@.to_insert =~= Seq::empty());
                Some(splice)
            }
        } else if new_allowed_hint_kinds == self.allowed_hint_kinds {
            None
        } else {
            let new_splice = self.new_allowed_hint_kinds_splice(
                &visible_hints,
                &new_allowed_hint_kinds,
            );
            if new_splice.is_some() {
                self.version += 1;
                self.update_tasks.clear();
            }
            self.allowed_hint_kinds = new_allowed_hint_kinds;
            new_splice
        }
    }

    /// Decides for which of the excerpts `excerpts_to_query` hints are fetched
    /// now, records a fetch for each of them, and returns the queries to send
    /// to the hint source, in the order of the requests. No excerpt is asked
    /// for twice in one call.
    pub fn spawn_hints_update(
        &mut self,
        excerpts_to_query: Vec<ExcerptRequest>,
        invalidate: InvalidationStrategy,
    ) -> (r: Vec<ExcerptQuery>)
        requires
            old(self).wf(),
            distinct_excerpts(request_views(excerpts_to_query@)),
        ensures
            final(self).wf(),
            r@ == queries_for(old(self)@, request_views(excerpts_to_query@), invalidate),
            final(self)@ == (CacheView {
                update_tasks: tasks_after(
                    old(self)@,
                    request_views(excerpts_to_query@),
                    invalidate,
                ),
                ..old(self)@
            }),
    {
        broadcast use group_hash_axioms;

        let ghost cache = self@;
        let ghost requests = request_views(excerpts_to_query@);
        let ghost dispatched = |r: RequestView| is_dispatched(cache, r, invalidate);
        let ghost query_of = |r: RequestView| query_for(cache.version, r, invalidate);
        let invalidate_cache = invalidate.should_invalidate();
        let cache_version = self.version;
        let mut retained: HashMap<ExcerptId, usize> = HashMap::new();
        let mut queries: Vec<ExcerptQuery> = Vec::new();
        let mut n: usize = 0;
        proof {
            reveal(Seq::filter);
            assert(requests.take(0) =~= Seq::empty());
            assert(queries@ =~= requests.take(0).filter(dispatched).map_values(query_of));
            if invalidate_cache {
                assert(retained@ =~= retained_tasks(cache, requests.take(0), invalidate));
            }
        }
        while n < excerpts_to_query.len()
            invariant
                self.wf(),
                self@ == cache,
                cache_version == cache.version,
                invalidate_cache == invalidate.invalidates(),
                n <= excerpts_to_query.len(),
                requests == request_views(excerpts_to_query@),
                dispatched == |r: RequestView| is_dispatched(cache, r, invalidate),
                query_of == |r: RequestView| query_for(cache.version, r, invalidate),
                queries@ == requests.take(n as int).filter(dispatched).map_values(query_of),
                invalidate_cache ==> retained@ == retained_tasks(
                    cache,
                    requests.take(n as int),
                    invalidate,
                ),
            decreases excerpts_to_query.len() - n,
        {
            let request = &excerpts_to_query[n];
            let ghost seen = requests.take(n as int);
            let ghost more = requests.take(n + 1);
            proof {
                assert(requests[n as int] == request@);
                assert(more =~= seen.push(request@));
                lemma_filter_push(seen, request@, dispatched);
            }
            let task = self.task_version(request.excerpt_id);
            let proceed = match task {
                Some(version) => version < cache_version || (version == cache_version
                    && invalidate_cache),
                None => true,
            };
            assert(proceed == survives(cache, request@, invalidate));
            let mut fetch = false;
            if invalidate_cache {
                match task {
                    Some(version) => {
                        retained.insert(request.excerpt_id, version);
                    },
                    None => {},
                }
            }
            if proceed {
                match request.excerpt_range {
                    Some(_) => {
                        fetch = match self.excerpt_hints(request.excerpt_id) {
                            Some(cached_excerpt_hints) => {
                                let cached_buffer_version = cached_excerpt_hints.buffer_version();
                                !cached_buffer_version.changed_since(&request.buffer_version) && (
                                request.buffer_version.changed_since(cached_buffer_version)
                                    || invalidate == InvalidationStrategy::All)
                            },
                            None => true,
                        };
                    },
                    None => {},
                }
            }
            assert(fetch == is_dispatched(cache, request@, invalidate));
            proof {
                if invalidate_cache {
                    let expected = retained_tasks(cache, more, invalidate);
                    assert forall|id: ExcerptId|
                        retained@.contains_key(id) <==> expected.contains_key(id) by {
                        if requested(more, id) {
                            let k = choose|k: int|
                                0 <= k < more.len() && (#[trigger] more[k]).excerpt_id == id;
                            if k < n {
                                assert(seen[k] == more[k]);
                            }
                        }
                        if requested(seen, id) {
                            let k = choose|k: int|
                                0 <= k < seen.len() && (#[trigger] seen[k]).excerpt_id == id;
                            assert(more[k] == seen[k]);
                        }
                        if id == request.excerpt_id {
                            assert(more[n as int] == request@);
                        }
                    }
                    assert forall|id: ExcerptId| expected.contains_key(id) implies retained@[id]
                        == expected[id] by {
                        if requested(seen, id) {
                            assert(retained_tasks(cache, seen, invalidate).contains_key(id));
                        }
                    }
                    assert(retained@ =~= expected);
                }
            }
            if fetch {
                let range = request.excerpt_range.unwrap();
                queries.push(
                    ExcerptQuery {
                        buffer_id: request.buffer_id,
                        excerpt_id: request.excerpt_id,
                        excerpt_range_start: range.0,
                        excerpt_range_end: range.1,
                        cache_version,
                        invalidate,
                    },
                );
                assert(queries@ =~= more.filter(dispatched).map_values(query_of));
            }
            n += 1;
        }
        proof {
            assert(requests.take(requests.len() as int) =~= requests);
            lemma_queried_excerpts(cache, requests, invalidate);
        }
        if invalidate_cache {
            self.update_tasks = retained;
        }
        let ghost base = retained_tasks(cache, requests, invalidate);
        let mut m: usize = 0;
        while m < queries.len()
            invariant
                m <= queries.len(),
                self.hints == old(self).hints,
                self.order == old(self).order,
                self.allowed_hint_kinds == old(self).allowed_hint_kinds,
                self.version == old(self).version,
                self.update_tasks@ == with_recorded(base, queries@.take(m as int), cache_version),
            decreases queries.len() - m,
        {
            proof {
                assert(queries@.take(m + 1).drop_last() =~= queries@.take(m as int));
            }
            self.update_tasks.insert(queries[m].excerpt_id, cache_version);
            m += 1;
        }
        proof {
            assert(queries@.take(queries@.len() as int) =~= queries@);
            lemma_with_recorded(base, queries@, cache_version);
            let expected = tasks_after(cache, requests, invalidate);
            assert forall|id: ExcerptId|
                self.update_tasks@.contains_key(id) <==> expected.contains_key(id) by {
                assert(dispatched_for(cache, requests, invalidate, id) <==> queried(queries@, id));
            }
            assert forall|id: ExcerptId|
                self.update_tasks@.contains_key(id) implies self.update_tasks@[id]
                == expected[id] by {
                assert(dispatched_for(cache, requests, invalidate, id) <==> queried(queries@, id));
            }
            assert(self.update_tasks@ =~= expected);
        }
        queries
    }
}

} // verus!
