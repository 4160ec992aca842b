//! Deciding for which excerpts of a refresh request hints are fetched.

use vstd::prelude::*;
use crate::cache::CacheView;
use crate::clock::changed_since;
use crate::excerpt_hints::{lemma_filter_push, ExcerptHintsView};
use crate::hint::ExcerptId;
use crate::query::{ExcerptQuery, InvalidationStrategy, RequestView};

verus! {

/// The cache version at which the last fetch on record for an excerpt was
/// started, if one is on record.
pub open spec fn task_of(tasks: Map<ExcerptId, usize>, id: ExcerptId) -> Option<usize> {
    if tasks.contains_key(id) {
        Some(tasks[id])
    } else {
        None
    }
}

/// Whether a refresh at `cache_version` goes on for an excerpt whose last
/// fetch on record is `task`: there is none, or it was started at an earlier
/// cache version, or at this very version and the refresh invalidates.
pub open spec fn proceeds(
    task: Option<usize>,
    cache_version: usize,
    invalidate: InvalidationStrategy,
) -> bool {
    match task {
        None => true,
        Some(version) => version < cache_version || (version == cache_version
            && invalidate.invalidates()),
    }
}

/// Whether hints are worth fetching for a buffer at `buffer_version`, given
/// what is cached for the excerpt. They are where nothing is cached. Where
/// something is, they are not if the cached hints are of a version that has
/// seen what this one has not; otherwise they are if the buffer has changed
/// since, or if everything is invalidated.
pub open spec fn needs_fetch(
    cached: Option<ExcerptHintsView>,
    buffer_version: Seq<u32>,
    invalidate: InvalidationStrategy,
) -> bool {
    match cached {
        None => true,
        Some(c) => !changed_since(c.buffer_version, buffer_version) && (changed_since(
            buffer_version,
            c.buffer_version,
        ) || invalidate == InvalidationStrategy::All),
    }
}

/// Whether a request passes the check of the fetches on record.
pub open spec fn survives(
    cache: CacheView,
    request: RequestView,
    invalidate: InvalidationStrategy,
) -> bool {
    proceeds(task_of(cache.update_tasks, request.excerpt_id), cache.version, invalidate)
}

/// Whether hints are fetched for a request: it passes the check of the fetches
/// on record, its excerpt still has a range, and hints are worth fetching.
pub open spec fn is_dispatched(
    cache: CacheView,
    request: RequestView,
    invalidate: InvalidationStrategy,
) -> bool {
    &&& survives(cache, request, invalidate)
    &&& request.excerpt_range is Some
    &&& needs_fetch(cache.excerpt(request.excerpt_id), request.buffer_version, invalidate)
}

/// The query that is sent for a request.
pub open spec fn query_for(
    cache_version: usize,
    request: RequestView,
    invalidate: InvalidationStrategy,
) -> ExcerptQuery {
    ExcerptQuery {
        buffer_id: request.buffer_id,
        excerpt_id: request.excerpt_id,
        excerpt_range_start: request.excerpt_range.unwrap().0,
        excerpt_range_end: request.excerpt_range.unwrap().1,
        cache_version,
        invalidate,
    }
}

/// The queries that a refresh sends: one for each request for which hints are
/// fetched, in the order of the requests.
pub open spec fn queries_for(
    cache: CacheView,
    requests: Seq<RequestView>,
    invalidate: InvalidationStrategy,
) -> Seq<ExcerptQuery> {
    requests.filter(|r: RequestView| is_dispatched(cache, r, invalidate)).map_values(
        |r: RequestView| query_for(cache.version, r, invalidate),
    )
}

/// Whether some request is for the excerpt `id`.
pub open spec fn requested(requests: Seq<RequestView>, id: ExcerptId) -> bool {
    exists|k: int| 0 <= k < requests.len() && (#[trigger] requests[k]).excerpt_id == id
}

/// Whether hints are fetched for some request for the excerpt `id`.
pub open spec fn dispatched_for(
    cache: CacheView,
    requests: Seq<RequestView>,
    invalidate: InvalidationStrategy,
    id: ExcerptId,
) -> bool {
    exists|k: int|
        0 <= k < requests.len() && (#[trigger] requests[k]).excerpt_id == id && is_dispatched(
            cache,
            requests[k],
            invalidate,
        )
}

/// The fetches on record that a refresh keeps: all of them where it does not
/// invalidate; where it does, those of the excerpts that are asked for.
pub open spec fn retained_tasks(
    cache: CacheView,
    requests: Seq<RequestView>,
    invalidate: InvalidationStrategy,
) -> Map<ExcerptId, usize> {
    if invalidate.invalidates() {
        Map::new(
            |id: ExcerptId|
                cache.update_tasks.contains_key(id) && requested(requests, id),
            |id: ExcerptId| cache.update_tasks[id],
        )
    } else {
        cache.update_tasks
    }
}

/// The fetches on record after a refresh: those it keeps, and for each excerpt
/// for which hints are fetched, one at the cache version of the refresh.
pub open spec fn tasks_after(
    cache: CacheView,
    requests: Seq<RequestView>,
    invalidate: InvalidationStrategy,
) -> Map<ExcerptId, usize> {
    Map::new(
        |id: ExcerptId|
            dispatched_for(cache, requests, invalidate, id) || retained_tasks(
                cache,
                requests,
                invalidate,
            ).contains_key(id),
        |id: ExcerptId|
            if dispatched_for(cache, requests, invalidate, id) {
                cache.version
            } else {
                retained_tasks(cache, requests, invalidate)[id]
            },
    )
}

/// What a filter keeps are the members that meet the condition.
pub proof fn lemma_filter_members<A>(s: Seq<A>, pred: spec_fn(A) -> bool)
    ensures
        forall|x: A| #[trigger] s.filter(pred).contains(x) <==> s.contains(x) && pred(x),
    decreases s.len(),
{
    if s.len() == 0 {
        reveal(Seq::filter);
    } else {
        let front = s.drop_last();
        let last = s.last();
        let front_kept = front.filter(pred);
        let kept = s.filter(pred);
        lemma_filter_members(front, pred);
        assert(s =~= front.push(last));
        lemma_filter_push(front, last, pred);
        assert forall|x: A| #[trigger] kept.contains(x) <==> s.contains(x) && pred(x) by {
            if kept.contains(x) {
                let i = choose|i: int| 0 <= i < kept.len() && kept[i] == x;
                if i < front_kept.len() {
                    assert(front_kept[i] == x);
                    assert(front_kept.contains(x));
                    assert(front.contains(x) && pred(x));
                    let k = choose|k: int| 0 <= k < front.len() && front[k] == x;
                    assert(s[k] == x);
                } else {
                    assert(x == last);
                    assert(s[s.len() - 1] == x);
                }
            }
            if s.contains(x) && pred(x) {
                let k = choose|k: int| 0 <= k < s.len() && s[k] == x;
                if k < front.len() {
                    assert(front[k] == x);
                    assert(front.contains(x));
                    assert(front_kept.contains(x));
                    let i = choose|i: int| 0 <= i < front_kept.len() && front_kept[i] == x;
                    assert(kept[i] == x);
                } else {
                    assert(x == last);
                    assert(kept[kept.len() - 1] == x);
                }
            }
        }
    }
}

/// The fetches on record `base` with one more, at `cache_version`, for the
/// excerpt of each of `queries`.
pub open spec fn with_recorded(
    base: Map<ExcerptId, usize>,
    queries: Seq<ExcerptQuery>,
    cache_version: usize,
) -> Map<ExcerptId, usize>
    decreases queries.len(),
{
    if queries.len() == 0 {
        base
    } else {
        with_recorded(base, queries.drop_last(), cache_version).insert(
            queries.last().excerpt_id,
            cache_version,
        )
    }
}

/// Whether one of `queries` is for the excerpt `id`.
pub open spec fn queried(queries: Seq<ExcerptQuery>, id: ExcerptId) -> bool {
    exists|j: int| 0 <= j < queries.len() && (#[trigger] queries[j]).excerpt_id == id
}

/// After the fetches of `queries` are recorded, an excerpt has one on record
/// if it had one or has a query, and the one of an excerpt with a query is at
/// `cache_version`.
pub proof fn lemma_with_recorded(
    base: Map<ExcerptId, usize>,
    queries: Seq<ExcerptQuery>,
    cache_version: usize,
)
    ensures
        forall|id: ExcerptId|
            #[trigger] with_recorded(base, queries, cache_version).contains_key(id)
                <==> base.contains_key(id) || queried(queries, id),
        forall|id: ExcerptId|
            with_recorded(base, queries, cache_version).contains_key(id) ==> #[trigger] with_recorded(
                base,
                queries,
                cache_version,
            )[id] == (if queried(queries, id) {
                cache_version
            } else {
                base[id]
            }),
    decreases queries.len(),
{
    if queries.len() > 0 {
        let front = queries.drop_last();
        let last = queries.last();
        lemma_with_recorded(base, front, cache_version);
        let before = with_recorded(base, front, cache_version);
        let after = with_recorded(base, queries, cache_version);
        assert(after == before.insert(last.excerpt_id, cache_version));
        assert forall|id: ExcerptId| queried(queries, id) <==> queried(front, id) || id
            == last.excerpt_id by {
            if queried(queries, id) {
                let j = choose|j: int|
                    0 <= j < queries.len() && (#[trigger] queries[j]).excerpt_id == id;
                if j < front.len() {
                    assert(front[j].excerpt_id == id);
                }
            }
            if queried(front, id) {
                let j = choose|j: int| 0 <= j < front.len() && (#[trigger] front[j]).excerpt_id == id;
                assert(queries[j].excerpt_id == id);
            }
            if id == last.excerpt_id {
                assert(queries[queries.len() - 1].excerpt_id == id);
            }
        }
        assert forall|id: ExcerptId| #[trigger]
            after.contains_key(id) <==> base.contains_key(id) || queried(queries, id) by {
            assert(before.contains_key(id) <==> base.contains_key(id) || queried(front, id));
        }
        assert forall|id: ExcerptId| after.contains_key(id) implies #[trigger] after[id] == (
        if queried(queries, id) {
            cache_version
        } else {
            base[id]
        }) by {
            if id != last.excerpt_id {
                assert(before.contains_key(id));
                assert(before[id] == (if queried(front, id) {
                    cache_version
                } else {
                    base[id]
                }));
            }
        }
    }
}

/// The excerpts for which a refresh sends a query are those for which hints
/// are fetched for some request.
pub proof fn lemma_queried_excerpts(
    cache: CacheView,
    requests: Seq<RequestView>,
    invalidate: InvalidationStrategy,
)
    ensures
        forall|id: ExcerptId|
            #[trigger] dispatched_for(cache, requests, invalidate, id) <==> queried(
                queries_for(cache, requests, invalidate),
                id,
            ),
{
    let pred = |r: RequestView| is_dispatched(cache, r, invalidate);
    let kept = requests.filter(pred);
    let queries = queries_for(cache, requests, invalidate);
    lemma_filter_members(requests, pred);
    assert forall|id: ExcerptId| #[trigger]
        dispatched_for(cache, requests, invalidate, id) <==> queried(queries, id) by {
        if dispatched_for(cache, requests, invalidate, id) {
            let k = choose|k: int|
                0 <= k < requests.len() && (#[trigger] requests[k]).excerpt_id == id
                    && is_dispatched(cache, requests[k], invalidate);
            assert(requests.contains(requests[k]));
            assert(kept.contains(requests[k]));
            let j = choose|j: int| 0 <= j < kept.len() && kept[j] == requests[k];
            assert(queries[j].excerpt_id == id);
        }
        if queried(queries, id) {
            let j = choose|j: int| 0 <= j < queries.len() && (#[trigger] queries[j]).excerpt_id == id;
            assert(kept.contains(kept[j]));
            let k = choose|k: int| 0 <= k < requests.len() && requests[k] == kept[j];
            assert(requests[k].excerpt_id == id && is_dispatched(cache, requests[k], invalidate));
        }
    }
}

} // verus!
