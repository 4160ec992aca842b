//! What holds of the display when only the allowed kinds of hints change.

use vstd::prelude::*;
use crate::cache::CacheView;
use crate::excerpt_hints::{
    distinct_ids, lemma_filter_push, sorted_by_position, ExcerptHintsView,
};
use crate::hint::{hint_anchor, Anchor, ExcerptId, HintView, Inlay, InlayHintKind, InlayId};
use crate::laws::identities_distinct;
use crate::resync::{
    excerpt_kinds_splice, inlay_of, kinds_splice, kinds_splice_over, newly_allowed,
    settings_result, shown_in, uncached_inlays, walk,
};
use crate::schedule::lemma_filter_members;
use crate::settings::{allowed_kinds_of, AllowedHintKinds, InlayHintSettings};
use crate::splice::{inserted_ids, SpliceView};

verus! {

/// The inlay that displays a cached hint of an excerpt.
pub open spec fn displayed_inlay(excerpt_id: ExcerptId, cached: (InlayId, HintView)) -> Inlay {
    Inlay { id: cached.0, position: hint_anchor(excerpt_id, cached.1) }
}

/// The display of an excerpt that shows exactly the cached hints whose kind is
/// among `kinds`, in the order of the cache.
pub open spec fn displayed(
    excerpt_id: ExcerptId,
    cached: Seq<(InlayId, HintView)>,
    kinds: Set<Option<InlayHintKind>>,
) -> Seq<Inlay> {
    cached.filter(|e: (InlayId, HintView)| kinds.contains(e.1.kind)).map_values(
        |e: (InlayId, HintView)| displayed_inlay(excerpt_id, e),
    )
}

/// The identities of the cached hints whose kind is among `old_kinds` and not
/// among `new_kinds`, in the order of the cache.
pub open spec fn going(
    cached: Seq<(InlayId, HintView)>,
    old_kinds: Set<Option<InlayHintKind>>,
    new_kinds: Set<Option<InlayHintKind>>,
) -> Seq<InlayId> {
    cached.filter(
        |e: (InlayId, HintView)| old_kinds.contains(e.1.kind) && !new_kinds.contains(e.1.kind),
    ).map_values(|e: (InlayId, HintView)| e.0)
}

/// The inlays for the cached hints whose kind is among `new_kinds` and not
/// among `old_kinds`, in the order of the cache.
pub open spec fn coming(
    excerpt_id: ExcerptId,
    cached: Seq<(InlayId, HintView)>,
    old_kinds: Set<Option<InlayHintKind>>,
    new_kinds: Set<Option<InlayHintKind>>,
) -> Seq<(Anchor, InlayId, HintView)> {
    cached.filter(|e: (InlayId, HintView)| newly_allowed(e.1.kind, old_kinds, new_kinds)).map_values(
        |e: (InlayId, HintView)| inlay_of(excerpt_id, e),
    )
}

/// Filtering nothing keeps nothing.
pub proof fn lemma_filter_nothing<A>(pred: spec_fn(A) -> bool)
    ensures
        Seq::<A>::empty().filter(pred) == Seq::<A>::empty(),
{
    reveal(Seq::filter);
}

/// Filtering a sequence from index `c` on keeps or drops the element at `c`
/// and filters what follows it.
pub proof fn lemma_filter_skip<A>(s: Seq<A>, c: int, pred: spec_fn(A) -> bool)
    requires
        0 <= c < s.len(),
    ensures
        s.skip(c).filter(pred) == (if pred(s[c]) {
            seq![s[c]]
        } else {
            Seq::empty()
        }) + s.skip(c + 1).filter(pred),
{
    assert(s.skip(c) =~= seq![s[c]] + s.skip(c + 1));
    Seq::filter_distributes_over_add(seq![s[c]], s.skip(c + 1), pred);
    lemma_filter_nothing(pred);
    lemma_filter_push(Seq::empty(), s[c], pred);
    assert(seq![s[c]] =~= Seq::<A>::empty().push(s[c]));
    assert(Seq::<A>::empty().push(s[c]) =~= seq![s[c]]);
}

/// Kind-filter correctness for one excerpt: where the display of an excerpt
/// shows exactly the cached hints whose kind was allowed, the walk takes off it
/// the hints whose kind is no longer allowed, and puts on it the hints whose
/// kind is newly allowed. Stated of the rest of a walk: from index `i` of the
/// display and index `c` of the cache on.
pub proof fn lemma_walk_of_display(
    excerpt_id: ExcerptId,
    shown: Seq<Inlay>,
    cached: Seq<(InlayId, HintView)>,
    i: int,
    c: int,
    old_kinds: Set<Option<InlayHintKind>>,
    new_kinds: Set<Option<InlayHintKind>>,
)
    requires
        sorted_by_position(cached),
        distinct_ids(cached),
        0 <= i <= shown.len(),
        0 <= c <= cached.len(),
        shown.skip(i) == displayed(excerpt_id, cached.skip(c), old_kinds),
    ensures
        walk(excerpt_id, shown, cached, i, c, old_kinds, new_kinds) == (
            going(cached.skip(c), old_kinds, new_kinds),
            coming(excerpt_id, cached.skip(c), old_kinds, new_kinds),
        ),
    decreases cached.len() - c,
{
    let was_shown = |e: (InlayId, HintView)| old_kinds.contains(e.1.kind);
    let goes = |e: (InlayId, HintView)| old_kinds.contains(e.1.kind) && !new_kinds.contains(e.1.kind);
    let comes = |e: (InlayId, HintView)| newly_allowed(e.1.kind, old_kinds, new_kinds);
    let to_inlay = |e: (InlayId, HintView)| displayed_inlay(excerpt_id, e);
    let to_id = |e: (InlayId, HintView)| e.0;
    let to_insert = |e: (InlayId, HintView)| inlay_of(excerpt_id, e);
    if c == cached.len() {
        assert(cached.skip(c) =~= Seq::empty());
        lemma_filter_nothing(was_shown);
        lemma_filter_nothing(goes);
        lemma_filter_nothing(comes);
        assert(shown.skip(i).len() == 0);
        assert(going(cached.skip(c), old_kinds, new_kinds) =~= Seq::empty());
        assert(coming(excerpt_id, cached.skip(c), old_kinds, new_kinds) =~= Seq::empty());
    } else {
        let e = cached[c];
        let rest = cached.skip(c + 1);
        lemma_filter_skip(cached, c, was_shown);
        lemma_filter_skip(cached, c, goes);
        lemma_filter_skip(cached, c, comes);
        let shown_rest = displayed(excerpt_id, rest, old_kinds);
        assert(going(cached.skip(c), old_kinds, new_kinds) =~= (if goes(e) {
            seq![e.0]
        } else {
            Seq::empty()
        }) + going(rest, old_kinds, new_kinds));
        assert(coming(excerpt_id, cached.skip(c), old_kinds, new_kinds) =~= (if comes(e) {
            seq![inlay_of(excerpt_id, e)]
        } else {
            Seq::empty()
        }) + coming(excerpt_id, rest, old_kinds, new_kinds));
        assert(displayed(excerpt_id, cached.skip(c), old_kinds) =~= (if was_shown(e) {
            seq![displayed_inlay(excerpt_id, e)]
        } else {
            Seq::empty()
        }) + shown_rest);
        if was_shown(e) {
            assert(shown.skip(i)[0] == displayed_inlay(excerpt_id, e));
            assert(i < shown.len());
            assert(shown[i] == displayed_inlay(excerpt_id, e));
            assert(shown.skip(i + 1) =~= shown.skip(i).skip(1));
            assert(shown.skip(i).skip(1) =~= shown_rest);
            lemma_walk_of_display(excerpt_id, shown, cached, i + 1, c + 1, old_kinds, new_kinds);
        } else {
            if i < shown.len() {
                let first = shown.skip(i)[0];
                assert(first == shown[i]);
                let kept = rest.filter(was_shown);
                assert(shown_rest[0] == displayed_inlay(excerpt_id, kept[0]));
                lemma_filter_members(rest, was_shown);
                assert(kept.contains(kept[0]));
                let k = choose|k: int| 0 <= k < rest.len() && rest[k] == kept[0];
                assert(cached[c + 1 + k] == kept[0]);
                assert(cached[c].0 != cached[c + 1 + k].0);
                assert(cached[c].1.position <= cached[c + 1 + k].1.position);
            }
            lemma_walk_of_display(excerpt_id, shown, cached, i, c + 1, old_kinds, new_kinds);
        }
    }
}

/// What two sequences hold one after the other is what either holds.
pub proof fn lemma_concat_members<A>(a: Seq<A>, b: Seq<A>)
    ensures
        forall|x: A| #[trigger] (a + b).contains(x) <==> a.contains(x) || b.contains(x),
{
    assert forall|x: A| #[trigger] (a + b).contains(x) <==> a.contains(x) || b.contains(x) by {
        if (a + b).contains(x) {
            let i = choose|i: int| 0 <= i < (a + b).len() && (a + b)[i] == x;
            if i < a.len() {
                assert(a[i] == x);
            } else {
                assert(b[i - a.len()] == x);
            }
        }
        if a.contains(x) {
            let i = choose|i: int| 0 <= i < a.len() && a[i] == x;
            assert((a + b)[i] == x);
        }
        if b.contains(x) {
            let i = choose|i: int| 0 <= i < b.len() && b[i] == x;
            assert((a + b)[a.len() + i] == x);
        }
    }
}

/// What a filtered and mapped sequence holds: the images of the members that
/// meet the condition.
pub proof fn lemma_filter_map_members<A, B>(s: Seq<A>, pred: spec_fn(A) -> bool, f: spec_fn(A) -> B)
    ensures
        forall|y: B| #[trigger]
            s.filter(pred).map_values(f).contains(y) <==> exists|i: int|
                0 <= i < s.len() && pred(#[trigger] s[i]) && f(s[i]) == y,
{
    lemma_filter_members(s, pred);
    let kept = s.filter(pred);
    let mapped = kept.map_values(f);
    assert forall|y: B| #[trigger]
        mapped.contains(y) <==> exists|i: int|
            0 <= i < s.len() && pred(#[trigger] s[i]) && f(s[i]) == y by {
        if mapped.contains(y) {
            let j = choose|j: int| 0 <= j < mapped.len() && mapped[j] == y;
            assert(kept.contains(kept[j]));
            let i = choose|i: int| 0 <= i < s.len() && s[i] == kept[j];
            assert(pred(s[i]) && f(s[i]) == y);
        }
        if exists|i: int| 0 <= i < s.len() && pred(#[trigger] s[i]) && f(s[i]) == y {
            let i = choose|i: int| 0 <= i < s.len() && pred(#[trigger] s[i]) && f(s[i]) == y;
            assert(s.contains(s[i]));
            assert(kept.contains(s[i]));
            let j = choose|j: int| 0 <= j < kept.len() && kept[j] == s[i];
            assert(mapped[j] == y);
        }
    }
}

/// The identities on display.
pub open spec fn ids_on_display(visible: Seq<Inlay>) -> Set<InlayId> {
    visible.map_values(|inlay: Inlay| inlay.id).to_set()
}

/// Whether `id` is the identity of a cached hint, of one of the excerpts
/// `order`, whose kind is among `with` and not among `without`.
pub open spec fn is_id_of_kind(
    cache: CacheView,
    order: Seq<ExcerptId>,
    with: Set<Option<InlayHintKind>>,
    without: Set<Option<InlayHintKind>>,
    id: InlayId,
) -> bool {
    exists|e: ExcerptId, i: int|
        #![trigger cache.excerpts[e].hints[i]]
        order.contains(e) && cache.excerpts.contains_key(e) && 0 <= i
            < cache.excerpts[e].hints.len() && cache.excerpts[e].hints[i].0 == id && with.contains(
            cache.excerpts[e].hints[i].1.kind,
        ) && !without.contains(cache.excerpts[e].hints[i].1.kind)
}

/// The identities of the cached hints whose kind is among `kinds`.
pub open spec fn allowed_ids(cache: CacheView, kinds: Set<Option<InlayHintKind>>) -> Set<InlayId> {
    Set::new(|id: InlayId| is_id_of_kind(cache, cache.order, kinds, Set::empty(), id))
}

/// Whether the display shows exactly what the cache holds of the allowed
/// kinds: every displayed inlay belongs to an excerpt with cached hints, and
/// the inlays of each such excerpt are its cached hints of the allowed kinds,
/// in the order of the cache.
pub open spec fn display_matches(cache: CacheView, visible: Seq<Inlay>) -> bool {
    &&& forall|k: int|
        0 <= k < visible.len() ==> cache.excerpts.contains_key(
            (#[trigger] visible[k]).position.excerpt_id,
        )
    &&& forall|e: ExcerptId| #[trigger]
        cache.excerpts.contains_key(e) ==> shown_in(visible, e) == displayed(
            e,
            cache.excerpts[e].hints,
            cache.allowed_hint_kinds@,
        )
}

/// Where the display matches the cache, the identities on display are those of
/// the cached hints of the allowed kinds.
pub proof fn lemma_matching_display_ids(cache: CacheView, visible: Seq<Inlay>)
    requires
        cache.wf(),
        display_matches(cache, visible),
    ensures
        ids_on_display(visible) == allowed_ids(cache, cache.allowed_hint_kinds@),
{
    let kinds = cache.allowed_hint_kinds@;
    let ids = visible.map_values(|inlay: Inlay| inlay.id);
    assert forall|x: InlayId| ids.contains(x) <==> is_id_of_kind(
        cache,
        cache.order,
        kinds,
        Set::empty(),
        x,
    ) by {
        if ids.contains(x) {
            let k = choose|k: int| 0 <= k < ids.len() && ids[k] == x;
            let e = visible[k].position.excerpt_id;
            let in_excerpt = |inlay: Inlay| inlay.position.excerpt_id == e;
            lemma_filter_members(visible, in_excerpt);
            assert(visible.contains(visible[k]));
            assert(shown_in(visible, e).contains(visible[k]));
            let hints = cache.excerpts[e].hints;
            let was_shown = |c: (InlayId, HintView)| kinds.contains(c.1.kind);
            let to_inlay = |c: (InlayId, HintView)| displayed_inlay(e, c);
            lemma_filter_map_members(hints, was_shown, to_inlay);
            assert(hints.filter(was_shown).map_values(to_inlay).contains(visible[k]));
            let i = choose|i: int|
                0 <= i < hints.len() && was_shown(#[trigger] hints[i]) && to_inlay(hints[i])
                    == visible[k];
            assert(cache.excerpts[e].hints[i].0 == x);
        }
        if is_id_of_kind(cache, cache.order, kinds, Set::empty(), x) {
            let (e, i) = choose|e: ExcerptId, i: int|
                #![trigger cache.excerpts[e].hints[i]]
                cache.order.contains(e) && cache.excerpts.contains_key(e) && 0 <= i
                    < cache.excerpts[e].hints.len() && cache.excerpts[e].hints[i].0 == x
                    && kinds.contains(cache.excerpts[e].hints[i].1.kind) && !Set::<
                    Option<InlayHintKind>,
                >::empty().contains(cache.excerpts[e].hints[i].1.kind);
            let hints = cache.excerpts[e].hints;
            let was_shown = |c: (InlayId, HintView)| kinds.contains(c.1.kind);
            let to_inlay = |c: (InlayId, HintView)| displayed_inlay(e, c);
            lemma_filter_map_members(hints, was_shown, to_inlay);
            let inlay = displayed_inlay(e, hints[i]);
            assert(was_shown(hints[i]) && to_inlay(hints[i]) == inlay);
            assert(hints.filter(was_shown).map_values(to_inlay).contains(inlay));
            assert(shown_in(visible, e).contains(inlay));
            let in_excerpt = |inlay: Inlay| inlay.position.excerpt_id == e;
            lemma_filter_members(visible, in_excerpt);
            assert(visible.contains(inlay));
            let k = choose|k: int| 0 <= k < visible.len() && visible[k] == inlay;
            assert(ids[k] == x);
        }
    }
    assert(ids_on_display(visible) =~= allowed_ids(cache, kinds));
}

/// Where the display matches the cache, the walks over the excerpts `order`
/// take off the display the hints of those excerpts whose kind is no longer
/// allowed, and put on it those whose kind is newly allowed.
pub proof fn lemma_kinds_splice_over_members(
    cache: CacheView,
    order: Seq<ExcerptId>,
    visible: Seq<Inlay>,
    new_kinds: Set<Option<InlayHintKind>>,
)
    requires
        cache.wf(),
        identities_distinct(cache),
        display_matches(cache, visible),
        forall|k: int| 0 <= k < order.len() ==> cache.excerpts.contains_key(#[trigger] order[k]),
    ensures
        ({
            let old_kinds = cache.allowed_hint_kinds@;
            let over = kinds_splice_over(order, cache.excerpts, visible, old_kinds, new_kinds);
            &&& forall|x: InlayId| #[trigger]
                over.0.contains(x) <==> is_id_of_kind(cache, order, old_kinds, new_kinds, x)
            &&& forall|x: InlayId| #[trigger]
                inserted_ids(over.1).contains(x) <==> is_id_of_kind(
                    cache,
                    order,
                    new_kinds,
                    old_kinds,
                    x,
                )
        }),
    decreases order.len(),
{
    let old_kinds = cache.allowed_hint_kinds@;
    let over = kinds_splice_over(order, cache.excerpts, visible, old_kinds, new_kinds);
    if order.len() == 0 {
        assert forall|x: InlayId| !is_id_of_kind(cache, order, old_kinds, new_kinds, x) by {}
        assert forall|x: InlayId| !is_id_of_kind(cache, order, new_kinds, old_kinds, x) by {}
    } else {
        let front = order.drop_last();
        let e = order.last();
        assert(order[order.len() - 1] == e);
        assert forall|k: int| 0 <= k < front.len() implies cache.excerpts.contains_key(
            #[trigger] front[k],
        ) by {
            assert(front[k] == order[k]);
        }
        lemma_kinds_splice_over_members(cache, front, visible, new_kinds);
        let before = kinds_splice_over(front, cache.excerpts, visible, old_kinds, new_kinds);
        let hints = cache.excerpts[e].hints;
        let here = excerpt_kinds_splice(e, visible, hints, old_kinds, new_kinds);
        assert(distinct_ids(hints)) by {
            assert forall|i: int, j: int|
                #![trigger hints[i], hints[j]]
                0 <= i < j < hints.len() implies hints[i].0 != hints[j].0 by {
                if cache.excerpts[e].hints[i].0 == cache.excerpts[e].hints[j].0 {
                    assert(i == j);
                }
            }
        }
        assert(hints.skip(0) =~= hints);
        assert(shown_in(visible, e).skip(0) =~= shown_in(visible, e));
        assert(cache.excerpts[e].wf());
        lemma_walk_of_display(e, shown_in(visible, e), hints, 0, 0, old_kinds, new_kinds);
        let goes = |c: (InlayId, HintView)|
            old_kinds.contains(c.1.kind) && !new_kinds.contains(c.1.kind);
        let comes = |c: (InlayId, HintView)| newly_allowed(c.1.kind, old_kinds, new_kinds);
        let to_id = |c: (InlayId, HintView)| c.0;
        let to_insert = |c: (InlayId, HintView)| inlay_of(e, c);
        assert(here.0 == hints.filter(goes).map_values(to_id));
        assert(here.1 == hints.filter(comes).map_values(to_insert));
        lemma_filter_map_members(hints, goes, to_id);
        lemma_filter_map_members(hints, comes, to_insert);
        lemma_concat_members(before.0, here.0);
        let before_ids = inserted_ids(before.1);
        let here_ids = inserted_ids(here.1);
        assert(inserted_ids(over.1) =~= before_ids + here_ids);
        lemma_concat_members(before_ids, here_ids);
        assert forall|x: InlayId| here_ids.contains(x) <==> exists|i: int|
            0 <= i < hints.len() && comes(#[trigger] hints[i]) && hints[i].0 == x by {
            if here_ids.contains(x) {
                let j = choose|j: int| 0 <= j < here_ids.len() && here_ids[j] == x;
                assert(here.1.contains(here.1[j]));
                let i = choose|i: int|
                    0 <= i < hints.len() && comes(#[trigger] hints[i]) && to_insert(hints[i])
                        == here.1[j];
                assert(hints[i].0 == x);
            }
            if exists|i: int| 0 <= i < hints.len() && comes(#[trigger] hints[i]) && hints[i].0 == x {
                let i = choose|i: int|
                    0 <= i < hints.len() && comes(#[trigger] hints[i]) && hints[i].0 == x;
                assert(here.1.contains(to_insert(hints[i])));
                let j = choose|j: int| 0 <= j < here.1.len() && here.1[j] == to_insert(hints[i]);
                assert(here_ids[j] == x);
            }
        }
        assert forall|x: InlayId| #[trigger]
            over.0.contains(x) <==> is_id_of_kind(cache, order, old_kinds, new_kinds, x) by {
            lemma_id_of_kind_split(cache, order, old_kinds, new_kinds, x);
            assert(before.0.contains(x) <==> is_id_of_kind(cache, front, old_kinds, new_kinds, x));
            if here.0.contains(x) {
                let i = choose|i: int|
                    0 <= i < hints.len() && goes(#[trigger] hints[i]) && to_id(hints[i]) == x;
                assert(cache.excerpts[e].hints[i].0 == x);
            }
        }
        assert forall|x: InlayId| #[trigger]
            inserted_ids(over.1).contains(x) <==> is_id_of_kind(
                cache,
                order,
                new_kinds,
                old_kinds,
                x,
            ) by {
            lemma_id_of_kind_split(cache, order, new_kinds, old_kinds, x);
            assert(before_ids.contains(x) <==> is_id_of_kind(
                cache,
                front,
                new_kinds,
                old_kinds,
                x,
            ));
            if here_ids.contains(x) {
                let i = choose|i: int|
                    0 <= i < hints.len() && comes(#[trigger] hints[i]) && hints[i].0 == x;
                assert(cache.excerpts[e].hints[i].0 == x);
            }
        }
    }
}

/// An identity is that of a hint of the excerpts `order` if it is that of a
/// hint of the last of them or of one of those before it.
pub proof fn lemma_id_of_kind_split(
    cache: CacheView,
    order: Seq<ExcerptId>,
    with: Set<Option<InlayHintKind>>,
    without: Set<Option<InlayHintKind>>,
    id: InlayId,
)
    requires
        order.len() > 0,
        cache.excerpts.contains_key(order.last()),
    ensures
        is_id_of_kind(cache, order, with, without, id) <==> is_id_of_kind(
            cache,
            order.drop_last(),
            with,
            without,
            id,
        ) || exists|i: int|
            0 <= i < cache.excerpts[order.last()].hints.len() && (
            #[trigger] cache.excerpts[order.last()].hints[i]).0 == id && with.contains(
                cache.excerpts[order.last()].hints[i].1.kind,
            ) && !without.contains(cache.excerpts[order.last()].hints[i].1.kind),
{
    let front = order.drop_last();
    let last = order.last();
    assert(order[order.len() - 1] == last);
    if is_id_of_kind(cache, order, with, without, id) {
        let (e, i) = choose|e: ExcerptId, i: int|
            #![trigger cache.excerpts[e].hints[i]]
            order.contains(e) && cache.excerpts.contains_key(e) && 0 <= i
                < cache.excerpts[e].hints.len() && cache.excerpts[e].hints[i].0 == id
                && with.contains(cache.excerpts[e].hints[i].1.kind) && !without.contains(
                cache.excerpts[e].hints[i].1.kind,
            );
        let k = choose|k: int| 0 <= k < order.len() && order[k] == e;
        if k < front.len() {
            assert(front[k] == e);
            assert(front.contains(e));
            assert(is_id_of_kind(cache, front, with, without, id));
        } else {
            assert(e == last);
        }
    }
    if is_id_of_kind(cache, front, with, without, id) {
        let (e, i) = choose|e: ExcerptId, i: int|
            #![trigger cache.excerpts[e].hints[i]]
            front.contains(e) && cache.excerpts.contains_key(e) && 0 <= i
                < cache.excerpts[e].hints.len() && cache.excerpts[e].hints[i].0 == id
                && with.contains(cache.excerpts[e].hints[i].1.kind) && !without.contains(
                cache.excerpts[e].hints[i].1.kind,
            );
        let k = choose|k: int| 0 <= k < front.len() && front[k] == e;
        assert(order[k] == e);
        assert(order.contains(e));
    }
    if exists|i: int|
        0 <= i < cache.excerpts[last].hints.len() && (#[trigger] cache.excerpts[last].hints[i]).0
            == id && with.contains(cache.excerpts[last].hints[i].1.kind) && !without.contains(
            cache.excerpts[last].hints[i].1.kind,
        ) {
        assert(order.contains(last));
    }
}

/// Kind-filter correctness: where the display matches the cache and no
/// identity is given twice, the change of the allowed kinds to `new_kinds`
/// leaves on display exactly the cached hints whose kind is among
/// `new_kinds`. The change is empty just where no cached hint has a kind that
/// is among the old kinds or the new ones but not among both.
pub proof fn lemma_kinds_splice_shows_allowed(
    cache: CacheView,
    visible: Seq<Inlay>,
    new_kinds: AllowedHintKinds,
)
    requires
        cache.wf(),
        identities_distinct(cache),
        display_matches(cache, visible),
    ensures
        kinds_splice(cache, visible, new_kinds).apply(ids_on_display(visible)) == allowed_ids(
            cache,
            new_kinds@,
        ),
        kinds_splice(cache, visible, new_kinds).is_empty() <==> forall|x: InlayId|
            !is_id_of_kind(cache, cache.order, cache.allowed_hint_kinds@, new_kinds@, x)
                && !is_id_of_kind(cache, cache.order, new_kinds@, cache.allowed_hint_kinds@, x),
{
    let old_kinds = cache.allowed_hint_kinds@;
    let order = cache.order;
    let splice = kinds_splice(cache, visible, new_kinds);
    let over = kinds_splice_over(order, cache.excerpts, visible, old_kinds, new_kinds@);
    assert forall|k: int| 0 <= k < order.len() implies cache.excerpts.contains_key(
        #[trigger] order[k],
    ) by {
        assert(order.contains(order[k]));
    }
    lemma_kinds_splice_over_members(cache, order, visible, new_kinds@);
    let uncached = |inlay: Inlay| !cache.excerpts.contains_key(inlay.position.excerpt_id);
    lemma_filter_members(visible, uncached);
    let strays = visible.filter(uncached);
    if strays.len() > 0 {
        assert(strays.contains(strays[0]));
        let k = choose|k: int| 0 <= k < visible.len() && visible[k] == strays[0];
        assert(cache.excerpts.contains_key(visible[k].position.excerpt_id));
    }
    assert(uncached_inlays(cache, visible) =~= Seq::empty());
    assert(splice.to_remove =~= over.0);
    assert(splice.to_insert == over.1);
    lemma_matching_display_ids(cache, visible);
    let shown = ids_on_display(visible);
    let after = splice.apply(shown);
    assert forall|x: InlayId| after.contains(x) <==> is_id_of_kind(
        cache,
        order,
        new_kinds@,
        Set::empty(),
        x,
    ) by {
        assert(shown.contains(x) <==> is_id_of_kind(cache, order, old_kinds, Set::empty(), x));
        assert(splice.to_remove.to_set().contains(x) <==> over.0.contains(x));
        assert(inserted_ids(splice.to_insert).to_set().contains(x) <==> inserted_ids(
            over.1,
        ).contains(x));
        assert(over.0.contains(x) <==> is_id_of_kind(cache, order, old_kinds, new_kinds@, x));
        assert(inserted_ids(over.1).contains(x) <==> is_id_of_kind(
            cache,
            order,
            new_kinds@,
            old_kinds,
            x,
        ));
        if is_id_of_kind(cache, order, new_kinds@, Set::empty(), x) {
            let (e, i) = choose|e: ExcerptId, i: int|
                #![trigger cache.excerpts[e].hints[i]]
                order.contains(e) && cache.excerpts.contains_key(e) && 0 <= i
                    < cache.excerpts[e].hints.len() && cache.excerpts[e].hints[i].0 == x
                    && new_kinds@.contains(cache.excerpts[e].hints[i].1.kind) && !Set::<
                    Option<InlayHintKind>,
                >::empty().contains(cache.excerpts[e].hints[i].1.kind);
            let kind = cache.excerpts[e].hints[i].1.kind;
            if old_kinds.contains(kind) {
                assert(is_id_of_kind(cache, order, old_kinds, Set::empty(), x));
                if is_id_of_kind(cache, order, old_kinds, new_kinds@, x) {
                    let (e2, i2) = choose|e2: ExcerptId, i2: int|
                        #![trigger cache.excerpts[e2].hints[i2]]
                        order.contains(e2) && cache.excerpts.contains_key(e2) && 0 <= i2
                            < cache.excerpts[e2].hints.len() && cache.excerpts[e2].hints[i2].0 == x
                            && old_kinds.contains(cache.excerpts[e2].hints[i2].1.kind)
                            && !new_kinds@.contains(cache.excerpts[e2].hints[i2].1.kind);
                    assert(cache.excerpts[e].hints[i].0 == cache.excerpts[e2].hints[i2].0);
                    assert(e == e2 && i == i2);
                }
            } else {
                assert(is_id_of_kind(cache, order, new_kinds@, old_kinds, x));
            }
        }
        if after.contains(x) {
            if inserted_ids(over.1).contains(x) {
                let (e, i) = choose|e: ExcerptId, i: int|
                    #![trigger cache.excerpts[e].hints[i]]
                    order.contains(e) && cache.excerpts.contains_key(e) && 0 <= i
                        < cache.excerpts[e].hints.len() && cache.excerpts[e].hints[i].0 == x
                        && new_kinds@.contains(cache.excerpts[e].hints[i].1.kind)
                        && !old_kinds.contains(cache.excerpts[e].hints[i].1.kind);
                assert(is_id_of_kind(cache, order, new_kinds@, Set::empty(), x));
            } else {
                let (e, i) = choose|e: ExcerptId, i: int|
                    #![trigger cache.excerpts[e].hints[i]]
                    order.contains(e) && cache.excerpts.contains_key(e) && 0 <= i
                        < cache.excerpts[e].hints.len() && cache.excerpts[e].hints[i].0 == x
                        && old_kinds.contains(cache.excerpts[e].hints[i].1.kind) && !Set::<
                        Option<InlayHintKind>,
                    >::empty().contains(cache.excerpts[e].hints[i].1.kind);
                if !new_kinds@.contains(cache.excerpts[e].hints[i].1.kind) {
                    assert(is_id_of_kind(cache, order, old_kinds, new_kinds@, x));
                }
                assert(is_id_of_kind(cache, order, new_kinds@, Set::empty(), x));
            }
        }
    }
    assert(after =~= allowed_ids(cache, new_kinds@));
    if splice.is_empty() {
        assert forall|x: InlayId|
            !is_id_of_kind(cache, order, old_kinds, new_kinds@, x) && !is_id_of_kind(
                cache,
                order,
                new_kinds@,
                old_kinds,
                x,
            ) by {
            assert(!over.0.contains(x));
            assert(inserted_ids(over.1).len() == 0);
            assert(!inserted_ids(over.1).contains(x));
        }
    } else {
        if splice.to_remove.len() > 0 {
            let x = over.0[0];
            assert(over.0.contains(x));
            assert(is_id_of_kind(cache, order, old_kinds, new_kinds@, x));
        } else {
            let x = inserted_ids(over.1)[0];
            assert(inserted_ids(over.1).contains(x));
            assert(is_id_of_kind(cache, order, new_kinds@, old_kinds, x));
        }
    }
}

/// The identities that go off the display of the excerpts `order`, one excerpt
/// after the other, when the allowed kinds change from `old_kinds` to
/// `new_kinds`: those of the cached hints whose kind is no longer allowed.
pub open spec fn going_over(
    order: Seq<ExcerptId>,
    excerpts: Map<ExcerptId, ExcerptHintsView>,
    old_kinds: Set<Option<InlayHintKind>>,
    new_kinds: Set<Option<InlayHintKind>>,
) -> Seq<InlayId>
    decreases order.len(),
{
    if order.len() == 0 {
        Seq::empty()
    } else {
        going_over(order.drop_last(), excerpts, old_kinds, new_kinds) + going(
            excerpts[order.last()].hints,
            old_kinds,
            new_kinds,
        )
    }
}

/// The inlays that come onto the display of the excerpts `order`, one excerpt
/// after the other, when the allowed kinds change from `old_kinds` to
/// `new_kinds`: the cached hints whose kind is newly allowed, each with its
/// identity.
pub open spec fn coming_over(
    order: Seq<ExcerptId>,
    excerpts: Map<ExcerptId, ExcerptHintsView>,
    old_kinds: Set<Option<InlayHintKind>>,
    new_kinds: Set<Option<InlayHintKind>>,
) -> Seq<(Anchor, InlayId, HintView)>
    decreases order.len(),
{
    if order.len() == 0 {
        Seq::empty()
    } else {
        coming_over(order.drop_last(), excerpts, old_kinds, new_kinds) + coming(
            order.last(),
            excerpts[order.last()].hints,
            old_kinds,
            new_kinds,
        )
    }
}

/// Where the display matches the cache, the walks over the excerpts `order`
/// give exactly the cached hints whose kind is no longer allowed, to go, and
/// exactly those whose kind is newly allowed, to come.
pub proof fn lemma_kinds_splice_over_of_matching_display(
    cache: CacheView,
    order: Seq<ExcerptId>,
    visible: Seq<Inlay>,
    new_kinds: Set<Option<InlayHintKind>>,
)
    requires
        cache.wf(),
        identities_distinct(cache),
        display_matches(cache, visible),
        forall|k: int| 0 <= k < order.len() ==> cache.excerpts.contains_key(#[trigger] order[k]),
    ensures
        kinds_splice_over(order, cache.excerpts, visible, cache.allowed_hint_kinds@, new_kinds) == (
            going_over(order, cache.excerpts, cache.allowed_hint_kinds@, new_kinds),
            coming_over(order, cache.excerpts, cache.allowed_hint_kinds@, new_kinds),
        ),
    decreases order.len(),
{
    let old_kinds = cache.allowed_hint_kinds@;
    if order.len() > 0 {
        let front = order.drop_last();
        let e = order.last();
        assert(order[order.len() - 1] == e);
        assert forall|k: int| 0 <= k < front.len() implies cache.excerpts.contains_key(
            #[trigger] front[k],
        ) by {
            assert(front[k] == order[k]);
        }
        lemma_kinds_splice_over_of_matching_display(cache, front, visible, new_kinds);
        let hints = cache.excerpts[e].hints;
        assert(distinct_ids(hints)) by {
            assert forall|i: int, j: int|
                #![trigger hints[i], hints[j]]
                0 <= i < j < hints.len() implies hints[i].0 != hints[j].0 by {
                if cache.excerpts[e].hints[i].0 == cache.excerpts[e].hints[j].0 {
                    assert(i == j);
                }
            }
        }
        assert(hints.skip(0) =~= hints);
        assert(shown_in(visible, e).skip(0) =~= shown_in(visible, e));
        assert(cache.excerpts[e].wf());
        lemma_walk_of_display(e, shown_in(visible, e), hints, 0, 0, old_kinds, new_kinds);
    }
}

/// Kind-filter correctness, hint by hint: where the display matches the cache
/// and no identity is given twice, the change of the allowed kinds to
/// `new_kinds` takes off the display exactly the cached hints whose kind is
/// no longer allowed, and puts on it exactly the cached hints whose kind is
/// newly allowed, each once, with the identity and the value it has in the
/// cache, in the order of the cache.
pub proof fn lemma_kinds_splice_of_matching_display(
    cache: CacheView,
    visible: Seq<Inlay>,
    new_kinds: AllowedHintKinds,
)
    requires
        cache.wf(),
        identities_distinct(cache),
        display_matches(cache, visible),
    ensures
        kinds_splice(cache, visible, new_kinds) == (SpliceView {
            to_remove: going_over(
                cache.order,
                cache.excerpts,
                cache.allowed_hint_kinds@,
                new_kinds@,
            ),
            to_insert: coming_over(
                cache.order,
                cache.excerpts,
                cache.allowed_hint_kinds@,
                new_kinds@,
            ),
        }),
{
    let order = cache.order;
    assert forall|k: int| 0 <= k < order.len() implies cache.excerpts.contains_key(
        #[trigger] order[k],
    ) by {
        assert(order.contains(order[k]));
    }
    lemma_kinds_splice_over_of_matching_display(cache, order, visible, new_kinds@);
    let uncached = |inlay: Inlay| !cache.excerpts.contains_key(inlay.position.excerpt_id);
    lemma_filter_members(visible, uncached);
    let strays = visible.filter(uncached);
    if strays.len() > 0 {
        assert(strays.contains(strays[0]));
        let k = choose|k: int| 0 <= k < visible.len() && visible[k] == strays[0];
        assert(cache.excerpts.contains_key(visible[k].position.excerpt_id));
    }
    assert(uncached_inlays(cache, visible) =~= Seq::empty());
    let over = kinds_splice_over(
        order,
        cache.excerpts,
        visible,
        cache.allowed_hint_kinds@,
        new_kinds@,
    );
    assert(over.0 + uncached_inlays(cache, visible) =~= over.0);
}

/// Where every kind among `new_kinds` is among `old_kinds`, no hint comes onto
/// the display.
pub proof fn lemma_nothing_comes_when_kinds_only_go(
    order: Seq<ExcerptId>,
    excerpts: Map<ExcerptId, ExcerptHintsView>,
    old_kinds: Set<Option<InlayHintKind>>,
    new_kinds: Set<Option<InlayHintKind>>,
)
    requires
        forall|kind: Option<InlayHintKind>| new_kinds.contains(kind) ==> old_kinds.contains(kind),
    ensures
        coming_over(order, excerpts, old_kinds, new_kinds) == Seq::<
            (Anchor, InlayId, HintView),
        >::empty(),
    decreases order.len(),
{
    if order.len() > 0 {
        lemma_nothing_comes_when_kinds_only_go(order.drop_last(), excerpts, old_kinds, new_kinds);
        let hints = excerpts[order.last()].hints;
        let comes = |e: (InlayId, HintView)| newly_allowed(e.1.kind, old_kinds, new_kinds);
        lemma_filter_members(hints, comes);
        let kept = hints.filter(comes);
        if kept.len() > 0 {
            assert(kept.contains(kept[0]));
        }
        assert(coming(order.last(), hints, old_kinds, new_kinds) =~= Seq::empty());
        assert(coming_over(order, excerpts, old_kinds, new_kinds) =~= Seq::empty());
    }
}

/// Where every kind among `old_kinds` is among `new_kinds`, no hint goes off
/// the display.
pub proof fn lemma_nothing_goes_when_kinds_only_come(
    order: Seq<ExcerptId>,
    excerpts: Map<ExcerptId, ExcerptHintsView>,
    old_kinds: Set<Option<InlayHintKind>>,
    new_kinds: Set<Option<InlayHintKind>>,
)
    requires
        forall|kind: Option<InlayHintKind>| old_kinds.contains(kind) ==> new_kinds.contains(kind),
    ensures
        going_over(order, excerpts, old_kinds, new_kinds) == Seq::<InlayId>::empty(),
    decreases order.len(),
{
    if order.len() > 0 {
        lemma_nothing_goes_when_kinds_only_come(order.drop_last(), excerpts, old_kinds, new_kinds);
        let hints = excerpts[order.last()].hints;
        let goes = |e: (InlayId, HintView)|
            old_kinds.contains(e.1.kind) && !new_kinds.contains(e.1.kind);
        lemma_filter_members(hints, goes);
        let kept = hints.filter(goes);
        if kept.len() > 0 {
            assert(kept.contains(kept[0]));
        }
        assert(going(hints, old_kinds, new_kinds) =~= Seq::empty());
        assert(going_over(order, excerpts, old_kinds, new_kinds) =~= Seq::empty());
    }
}

/// The identities on display after a change that may be absent.
pub open spec fn applied(splice: Option<SpliceView>, shown: Set<InlayId>) -> Set<InlayId> {
    match splice {
        Some(s) => s.apply(shown),
        None => shown,
    }
}

/// Kind-filter round trip: where hints are switched on, the display matches
/// the cache and no identity is given twice, changing the settings and then
/// changing them back, with the display kept in line with the cache in
/// between, leaves the cached hints as they were, restores the allowed kinds,
/// and restores on display exactly the identities that were on it. In
/// between, the allowed kinds are those of the changed settings. The cache
/// alone gives both changes: no hint is fetched.
pub proof fn lemma_kinds_round_trip_restores_display(
    cache: CacheView,
    initial: InlayHintSettings,
    visible: Seq<Inlay>,
    changed: InlayHintSettings,
    visible_between: Seq<Inlay>,
)
    requires
        cache.wf(),
        identities_distinct(cache),
        initial.enabled,
        changed.enabled,
        cache.allowed_hint_kinds == allowed_kinds_of(initial),
        display_matches(cache, visible),
        display_matches(settings_result(cache, changed, visible).0, visible_between),
    ensures
        ({
            let there = settings_result(cache, changed, visible);
            let back = settings_result(there.0, initial, visible_between);
            &&& there.0.allowed_hint_kinds == allowed_kinds_of(changed)
            &&& applied(there.1, ids_on_display(visible)) == ids_on_display(visible_between)
            &&& applied(back.1, ids_on_display(visible_between)) == ids_on_display(visible)
            &&& back.0.excerpts == cache.excerpts
            &&& back.0.order == cache.order
            &&& back.0.allowed_hint_kinds == cache.allowed_hint_kinds
        }),
{
    let there = settings_result(cache, changed, visible);
    let back = settings_result(there.0, initial, visible_between);
    let old_kinds = allowed_kinds_of(initial);
    let new_kinds = allowed_kinds_of(changed);
    lemma_matching_display_ids(cache, visible);
    lemma_matching_display_ids(there.0, visible_between);
    assert(there.0.excerpts == cache.excerpts && there.0.order == cache.order);
    assert forall|kinds: Set<Option<InlayHintKind>>| #[trigger]
        allowed_ids(there.0, kinds) =~= allowed_ids(cache, kinds) by {
        assert forall|x: InlayId|
            is_id_of_kind(there.0, there.0.order, kinds, Set::empty(), x) <==> is_id_of_kind(
                cache,
                cache.order,
                kinds,
                Set::empty(),
                x,
            ) by {}
    }
    if new_kinds != old_kinds {
        let shown = ids_on_display(visible);
        let shown_between = ids_on_display(visible_between);
        lemma_kinds_splice_shows_allowed(cache, visible, new_kinds);
        let first = kinds_splice(cache, visible, new_kinds);
        if first.is_empty() {
            assert(first.to_remove =~= Seq::empty());
            assert(inserted_ids(first.to_insert) =~= Seq::empty());
            assert(first.apply(shown) =~= shown);
        }
        assert(there.0.allowed_hint_kinds == new_kinds);
        assert(identities_distinct(there.0));
        lemma_kinds_splice_shows_allowed(there.0, visible_between, old_kinds);
        let second = kinds_splice(there.0, visible_between, old_kinds);
        if second.is_empty() {
            assert(second.to_remove =~= Seq::empty());
            assert(inserted_ids(second.to_insert) =~= Seq::empty());
            assert(second.apply(shown_between) =~= shown_between);
        }
    }
}

} // verus!
