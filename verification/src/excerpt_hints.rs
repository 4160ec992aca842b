//! The hints cached for one excerpt, kept in the order of their positions.

use std::collections::HashSet;
use vstd::prelude::*;
use vstd::std_specs::hash::group_hash_axioms;
use crate::clock::Global;
use crate::hint::{HintView, InlayHint, InlayId};

verus! {

/// The views of a sequence of cached hints, in the same order.
pub open spec fn cached_views(hints: Seq<(InlayId, InlayHint)>) -> Seq<(InlayId, HintView)> {
    hints.map_values(|e: (InlayId, InlayHint)| (e.0, e.1@))
}

/// Whether the positions never fall from one hint to the next.
pub open spec fn sorted_by_position(hints: Seq<(InlayId, HintView)>) -> bool {
    forall|i: int, j: int|
        #![trigger hints[i], hints[j]]
        0 <= i <= j < hints.len() ==> hints[i].1.position <= hints[j].1.position
}

/// Whether the positions rise from each hint to the next, so that no two hints
/// share a position.
pub open spec fn strictly_sorted_by_position(hints: Seq<(InlayId, HintView)>) -> bool {
    forall|i: int, j: int|
        #![trigger hints[i], hints[j]]
        0 <= i < j < hints.len() ==> hints[i].1.position < hints[j].1.position
}

/// Whether no identity occurs twice.
pub open spec fn distinct_ids(hints: Seq<(InlayId, HintView)>) -> bool {
    forall|i: int, j: int|
        #![trigger hints[i], hints[j]]
        0 <= i < j < hints.len() ==> hints[i].0 != hints[j].0
}

/// Whether `i` is the index of the first hint at `position`.
pub open spec fn first_at(hints: Seq<(InlayId, HintView)>, position: usize, i: int) -> bool {
    &&& 0 <= i < hints.len()
    &&& hints[i].1.position == position
    &&& forall|j: int| 0 <= j < i ==> (#[trigger] hints[j]).1.position != position
}

/// Whether `hint` is cached under the identity `id`: the first cached hint at
/// its position is this very hint, and `id` is its identity.
pub open spec fn cached_under(hints: Seq<(InlayId, HintView)>, hint: HintView, id: InlayId) -> bool {
    exists|i: int| #[trigger] first_at(hints, hint.position, i) && hints[i] == (id, hint)
}

/// Whether `hint` is cached: the first cached hint at its position is this very
/// hint.
pub open spec fn is_cached(hints: Seq<(InlayId, HintView)>, hint: HintView) -> bool {
    exists|i: int| #[trigger] first_at(hints, hint.position, i) && hints[i].1 == hint
}

/// `hints` with `item` put behind the last hint whose position is not behind
/// that of `item`.
pub open spec fn insert_by_position(
    hints: Seq<(InlayId, HintView)>,
    item: (InlayId, HintView),
) -> Seq<(InlayId, HintView)>
    decreases hints.len(),
{
    if hints.len() == 0 {
        seq![item]
    } else if hints.last().1.position <= item.1.position {
        hints.push(item)
    } else {
        insert_by_position(hints.drop_last(), item).push(hints.last())
    }
}

/// `hints` without those whose identity is in `removed`.
pub open spec fn without_removed(hints: Seq<(InlayId, HintView)>, removed: Set<InlayId>) -> Seq<
    (InlayId, HintView),
> {
    hints.filter(|e: (InlayId, HintView)| !removed.contains(e.0))
}

/// Filtering a sequence that ends in `last` filters what is before it and
/// keeps or drops `last`.
pub proof fn lemma_filter_push<A>(s: Seq<A>, last: A, pred: spec_fn(A) -> bool)
    ensures
        s.push(last).filter(pred) == if pred(last) {
            s.filter(pred).push(last)
        } else {
            s.filter(pred)
        },
{
    reveal(Seq::filter);
    assert(s.push(last).drop_last() =~= s);
}

/// Filtering keeps a sorted sequence sorted.
pub proof fn lemma_filter_sorted(
    hints: Seq<(InlayId, HintView)>,
    pred: spec_fn((InlayId, HintView)) -> bool,
)
    requires
        sorted_by_position(hints),
    ensures
        sorted_by_position(hints.filter(pred)),
        forall|i: int|
            0 <= i < hints.filter(pred).len() ==> hints.contains(#[trigger] hints.filter(pred)[i]),
    decreases hints.len(),
{
    reveal(Seq::filter);
    if hints.len() > 0 {
        let front = hints.drop_last();
        assert(sorted_by_position(front)) by {
            assert forall|i: int, j: int| 0 <= i <= j < front.len() implies front[i].1.position
                <= front[j].1.position by {
                assert(front[i] == hints[i] && front[j] == hints[j]);
            }
        }
        lemma_filter_sorted(front, pred);
        let kept = front.filter(pred);
        assert forall|i: int| 0 <= i < kept.len() implies hints.contains(#[trigger] kept[i])
            && kept[i].1.position <= hints.last().1.position by {
            assert(front.contains(kept[i]));
            let k = choose|k: int| 0 <= k < front.len() && front[k] == kept[i];
            assert(hints[k] == kept[i]);
            assert(hints[k].1.position <= hints[hints.len() - 1].1.position);
        }
        if pred(hints.last()) {
            let r = kept.push(hints.last());
            assert(hints[hints.len() - 1] == hints.last());
            assert forall|i: int, j: int| 0 <= i <= j < r.len() implies r[i].1.position
                <= r[j].1.position by {
                if j < kept.len() {
                    assert(r[i] == kept[i] && r[j] == kept[j]);
                } else if i < kept.len() {
                    assert(r[i] == kept[i]);
                }
            }
            assert forall|i: int| 0 <= i < r.len() implies hints.contains(#[trigger] r[i]) by {
                if i < kept.len() {
                    assert(r[i] == kept[i]);
                }
            }
        }
    }
}

/// At most one index is the first at a position.
pub proof fn lemma_first_at_unique(hints: Seq<(InlayId, HintView)>, position: usize, i: int, j: int)
    requires
        first_at(hints, position, i),
        first_at(hints, position, j),
    ensures
        i == j,
{
    if i < j {
        assert(hints[i].1.position != position);
    } else if j < i {
        assert(hints[j].1.position != position);
    }
}

/// Where every hint before index `k` is at or before the position of `item`,
/// and every hint from `k` on is behind it, `item` goes to index `k`.
pub proof fn lemma_insert_by_position_at(
    hints: Seq<(InlayId, HintView)>,
    item: (InlayId, HintView),
    k: int,
)
    requires
        0 <= k <= hints.len(),
        forall|i: int| 0 <= i < k ==> (#[trigger] hints[i]).1.position <= item.1.position,
        forall|i: int| k <= i < hints.len() ==> (#[trigger] hints[i]).1.position > item.1.position,
    ensures
        insert_by_position(hints, item) == hints.insert(k, item),
    decreases hints.len(),
{
    if hints.len() == 0 {
        assert(seq![item] =~= hints.insert(k, item));
    } else if hints.last().1.position <= item.1.position {
        assert(k == hints.len()) by {
            if k < hints.len() {
                assert(hints[hints.len() - 1].1.position > item.1.position);
            }
        }
        assert(hints.push(item) =~= hints.insert(k, item));
    } else {
        assert(k < hints.len()) by {
            if k == hints.len() {
                assert(hints[hints.len() - 1].1.position <= item.1.position);
            }
        }
        let front = hints.drop_last();
        assert forall|i: int| 0 <= i < k implies (#[trigger] front[i]).1.position
            <= item.1.position by {
            assert(front[i] == hints[i]);
        }
        assert forall|i: int| k <= i < front.len() implies (#[trigger] front[i]).1.position
            > item.1.position by {
            assert(front[i] == hints[i]);
        }
        lemma_insert_by_position_at(front, item, k);
        assert(front.insert(k, item).push(hints.last()) =~= hints.insert(k, item));
    }
}

/// Inserting by position keeps a sorted sequence sorted.
pub proof fn lemma_insert_by_position_sorted(
    hints: Seq<(InlayId, HintView)>,
    item: (InlayId, HintView),
)
    requires
        sorted_by_position(hints),
    ensures
        sorted_by_position(insert_by_position(hints, item)),
        insert_by_position(hints, item).len() == hints.len() + 1,
    decreases hints.len(),
{
    let k = upper_bound(hints, item.1.position);
    lemma_upper_bound(hints, item.1.position);
    lemma_insert_by_position_at(hints, item, k);
    let r = hints.insert(k, item);
    assert forall|i: int, j: int| 0 <= i <= j < r.len() implies r[i].1.position
        <= r[j].1.position by {
        if i < k && j > k {
            assert(r[i] == hints[i] && r[j] == hints[j - 1]);
        } else if i > k {
            assert(r[i] == hints[i - 1] && r[j] == hints[j - 1]);
        } else if j < k {
            assert(r[i] == hints[i] && r[j] == hints[j]);
        } else if i == k && j > k {
            assert(r[j] == hints[j - 1]);
        } else if i < k && j == k {
            assert(r[i] == hints[i]);
        }
    }
}

/// How many hints of `hints` are at or before `position`.
pub open spec fn upper_bound(hints: Seq<(InlayId, HintView)>, position: usize) -> int
    decreases hints.len(),
{
    if hints.len() == 0 {
        0
    } else if hints.last().1.position <= position {
        hints.len() as int
    } else {
        upper_bound(hints.drop_last(), position)
    }
}

/// In a sorted sequence the hints at or before a position are exactly the
/// first [`upper_bound`] ones.
pub proof fn lemma_upper_bound(hints: Seq<(InlayId, HintView)>, position: usize)
    requires
        sorted_by_position(hints),
    ensures
        0 <= upper_bound(hints, position) <= hints.len(),
        forall|i: int|
            0 <= i < upper_bound(hints, position) ==> (#[trigger] hints[i]).1.position <= position,
        forall|i: int|
            upper_bound(hints, position) <= i < hints.len() ==> (#[trigger] hints[i]).1.position
                > position,
    decreases hints.len(),
{
    if hints.len() == 0 {
    } else if hints.last().1.position <= position {
        assert forall|i: int| 0 <= i < hints.len() implies (#[trigger] hints[i]).1.position
            <= position by {
            assert(hints[i].1.position <= hints[hints.len() - 1].1.position);
        }
    } else {
        let front = hints.drop_last();
        assert(sorted_by_position(front)) by {
            assert forall|i: int, j: int| 0 <= i <= j < front.len() implies front[i].1.position
                <= front[j].1.position by {
                assert(front[i] == hints[i] && front[j] == hints[j]);
            }
        }
        lemma_upper_bound(front, position);
        assert forall|i: int| 0 <= i < upper_bound(hints, position) implies (
        #[trigger] hints[i]).1.position <= position by {
            assert(front[i] == hints[i]);
        }
        assert forall|i: int| upper_bound(hints, position) <= i < hints.len() implies (
        #[trigger] hints[i]).1.position > position by {
            if i < front.len() {
                assert(front[i] == hints[i]);
            }
        }
    }
}

/// The mathematical value of a [`CachedExcerptHints`].
pub struct ExcerptHintsView {
    /// The cache version of the update that was applied to the excerpt last.
    pub version: usize,
    /// The version of the buffer that the hints were fetched for.
    pub buffer_version: Seq<u32>,
    /// The hints with their identities, in the order of their positions.
    pub hints: Seq<(InlayId, HintView)>,
}

impl ExcerptHintsView {
    /// Whether the hints are in the order of their positions.
    pub open spec fn wf(self) -> bool {
        sorted_by_position(self.hints)
    }
}

/// The hints cached for one excerpt. Every operation keeps the hints in the
/// order of their positions.
#[derive(Debug)]
pub struct CachedExcerptHints {
    version: usize,
    buffer_version: Global,
    hints: Vec<(InlayId, InlayHint)>,
}

impl View for CachedExcerptHints {
    type V = ExcerptHintsView;

    closed spec fn view(&self) -> ExcerptHintsView {
        ExcerptHintsView {
            version: self.version,
            buffer_version: self.buffer_version@,
            hints: cached_views(self.hints@),
        }
    }
}

impl CachedExcerptHints {
    /// Whether the hints are in the order of their positions.
    pub open spec fn wf(&self) -> bool {
        self@.wf()
    }

    /// No hints, as of the given cache version and buffer version.
    pub fn new(version: usize, buffer_version: Global) -> (r: CachedExcerptHints)
        ensures
            r@ == (ExcerptHintsView {
                version,
                buffer_version: buffer_version@,
                hints: Seq::empty(),
            }),
            r.wf(),
    {
        let r = CachedExcerptHints { version, buffer_version, hints: Vec::new() };
        assert(cached_views(r.hints@) =~= Seq::empty());
        r
    }

    /// The cache version of the update that was applied last.
    pub fn version(&self) -> (r: usize)
        ensures
            r == self@.version,
    {
        self.version
    }

    /// The version of the buffer that the hints were fetched for.
    pub fn buffer_version(&self) -> (r: &Global)
        ensures
            r@ == self@.buffer_version,
    {
        &self.buffer_version
    }

    /// The cached hints with their identities, in the order of their
    /// positions.
    pub fn hints(&self) -> (r: &Vec<(InlayId, InlayHint)>)
        ensures
            cached_views(r@) == self@.hints,
    {
        &self.hints
    }

    /// The index of the first cached hint at `position`, if there is one.
    pub fn position_index(&self, position: usize) -> (r: Option<usize>)
        requires
            self.wf(),
        ensures
            match r {
                Some(i) => first_at(self@.hints, position, i as int),
                None => forall|i: int|
                    0 <= i < self@.hints.len() ==> (#[trigger] self@.hints[i]).1.position
                        != position,
            },
    {
        let ghost hints = cached_views(self.hints@);
        let mut lo: usize = 0;
        let mut hi: usize = self.hints.len();
        while lo < hi
            invariant
                hints == cached_views(self.hints@),
                sorted_by_position(hints),
                0 <= lo <= hi <= hints.len(),
                forall|i: int| 0 <= i < lo ==> (#[trigger] hints[i]).1.position < position,
                forall|i: int| hi <= i < hints.len() ==> (#[trigger] hints[i]).1.position >= position,
            decreases hi - lo,
        {
            let mid: usize = lo + (hi - lo) / 2;
            assert(hints[mid as int].1.position == self.hints@[mid as int].1.position);
            if self.hints[mid].1.position < position {
                assert forall|i: int| 0 <= i < mid + 1 implies (#[trigger] hints[i]).1.position
                    < position by {
                    assert(hints[i].1.position <= hints[mid as int].1.position);
                }
                lo = mid + 1;
            } else {
                assert forall|i: int| mid <= i < hints.len() implies (
                #[trigger] hints[i]).1.position >= position by {
                    assert(hints[mid as int].1.position <= hints[i].1.position);
                }
                hi = mid;
            }
        }
        if lo < self.hints.len() && self.hints[lo].1.position == position {
            assert(hints[lo as int].1.position == self.hints@[lo as int].1.position);
            Some(lo)
        } else {
            assert forall|i: int| 0 <= i < hints.len() implies (#[trigger] hints[i]).1.position
                != position by {
                if i >= lo {
                    assert(hints[lo as int].1.position <= hints[i].1.position);
                    assert(hints[lo as int].1.position == self.hints@[lo as int].1.position);
                }
            }
            None
        }
    }

    /// Puts `hint` into the cache under the identity `id`, behind the hints
    /// that are at or before its position.
    pub(crate) fn insert(&mut self, id: InlayId, hint: InlayHint)
        requires
            old(self).wf(),
        ensures
            final(self)@ == (ExcerptHintsView {
                hints: insert_by_position(old(self)@.hints, (id, hint@)),
                ..old(self)@
            }),
            final(self).wf(),
    {
        let ghost hints = cached_views(self.hints@);
        let position = hint.position;
        let mut lo: usize = 0;
        let mut hi: usize = self.hints.len();
        while lo < hi
            invariant
                hints == cached_views(self.hints@),
                sorted_by_position(hints),
                0 <= lo <= hi <= hints.len(),
                forall|i: int| 0 <= i < lo ==> (#[trigger] hints[i]).1.position <= position,
                forall|i: int| hi <= i < hints.len() ==> (#[trigger] hints[i]).1.position > position,
            decreases hi - lo,
        {
            let mid: usize = lo + (hi - lo) / 2;
            assert(hints[mid as int].1.position == self.hints@[mid as int].1.position);
            if self.hints[mid].1.position <= position {
                assert forall|i: int| 0 <= i < mid + 1 implies (#[trigger] hints[i]).1.position
                    <= position by {
                    assert(hints[i].1.position <= hints[mid as int].1.position);
                }
                lo = mid + 1;
            } else {
                assert forall|i: int| mid <= i < hints.len() implies (
                #[trigger] hints[i]).1.position > position by {
                    assert(hints[mid as int].1.position <= hints[i].1.position);
                }
                hi = mid;
            }
        }
        proof {
            lemma_insert_by_position_at(hints, (id, hint@), lo as int);
            lemma_insert_by_position_sorted(hints, (id, hint@));
        }
        self.hints.insert(lo, (id, hint));
        assert(cached_views(self.hints@) =~= hints.insert(lo as int, (id, hint@)));
    }

    /// Takes out of the cache every hint whose identity is in `removed`.
    pub(crate) fn remove_all(&mut self, removed: &HashSet<InlayId>)
        requires
            old(self).wf(),
        ensures
            final(self)@ == (ExcerptHintsView {
                hints: without_removed(old(self)@.hints, removed@),
                ..old(self)@
            }),
            final(self).wf(),
    {
        broadcast use group_hash_axioms;

        let ghost orig = cached_views(self.hints@);
        let ghost keep = |e: (InlayId, HintView)| !removed@.contains(e.0);
        let ghost mut done: int = 0;
        let mut i: usize = 0;
        assert(orig.take(0).filter(keep) + orig.skip(0) =~= orig) by {
            reveal(Seq::filter);
            assert(orig.take(0) =~= Seq::empty());
        }
        while i < self.hints.len()
            invariant
                0 <= done <= orig.len(),
                self.version == old(self).version,
                self.buffer_version == old(self).buffer_version,
                cached_views(self.hints@) == orig.take(done).filter(keep) + orig.skip(done),
                i == orig.take(done).filter(keep).len(),
                keep == |e: (InlayId, HintView)| !removed@.contains(e.0),
            decreases orig.len() - done,
        {
            let ghost cur = cached_views(self.hints@);
            assert(cur[i as int] == orig.skip(done)[0]);
            assert(cur[i as int].0 == self.hints@[i as int].0);
            proof {
                assert(orig.take(done + 1) =~= orig.take(done).push(orig[done]));
                lemma_filter_push(orig.take(done), orig[done], keep);
            }
            let ghost before = self.hints@;
            let drop = removed.contains(&self.hints[i].0);
            assert(drop == !keep(orig[done]));
            if drop {
                self.hints.remove(i);
                assert(self.hints@ == before.remove(i as int));
                assert(cached_views(self.hints@) =~= cur.remove(i as int));
                assert(cur.remove(i as int) =~= orig.take(done).filter(keep) + orig.skip(done + 1));
            } else {
                assert(cur =~= orig.take(done + 1).filter(keep) + orig.skip(done + 1));
                i += 1;
            }
            proof {
                done = done + 1;
            }
        }
        proof {
            assert(orig.take(done) =~= orig);
            assert(orig.skip(done) =~= Seq::empty());
            assert(cached_views(self.hints@) =~= orig.filter(keep));
            lemma_filter_sorted(orig, keep);
        }
    }

    /// Records the cache version of the update that is being applied.
    pub(crate) fn set_version(&mut self, version: usize)
        ensures
            final(self)@ == (ExcerptHintsView { version, ..old(self)@ }),
    {
        self.version = version;
    }

    /// Records the version of the buffer that the hints were fetched for.
    pub(crate) fn set_buffer_version(&mut self, buffer_version: Global)
        ensures
            final(self)@ == (ExcerptHintsView {
                buffer_version: buffer_version@,
                ..old(self)@
            }),
    {
        self.buffer_version = buffer_version;
    }
}

} // verus!
