//! The change to the displayed inlays that an update of the cache calls for.

use vstd::prelude::*;
use crate::hint::{Anchor, HintView, InlayHint, InlayId};

verus! {

/// Inlays to take off the display and inlays to put on it, to be applied as
/// one step.
#[derive(Debug, PartialEq)]
pub struct InlaySplice {
    pub to_remove: Vec<InlayId>,
    pub to_insert: Vec<(Anchor, InlayId, InlayHint)>,
}

/// The mathematical value of an [`InlaySplice`].
pub struct SpliceView {
    pub to_remove: Seq<InlayId>,
    pub to_insert: Seq<(Anchor, InlayId, HintView)>,
}

/// The views of a sequence of inlays to insert, in the same order.
pub open spec fn insert_views(s: Seq<(Anchor, InlayId, InlayHint)>) -> Seq<
    (Anchor, InlayId, HintView),
> {
    s.map_values(|e: (Anchor, InlayId, InlayHint)| (e.0, e.1, e.2@))
}

/// The identities of a sequence of inlays to insert, in the same order.
pub open spec fn inserted_ids(s: Seq<(Anchor, InlayId, HintView)>) -> Seq<InlayId> {
    s.map_values(|e: (Anchor, InlayId, HintView)| e.1)
}

impl View for InlaySplice {
    type V = SpliceView;

    open spec fn view(&self) -> SpliceView {
        SpliceView { to_remove: self.to_remove@, to_insert: insert_views(self.to_insert@) }
    }
}

impl SpliceView {
    /// Whether the splice changes nothing.
    pub open spec fn is_empty(self) -> bool {
        self.to_remove.len() == 0 && self.to_insert.len() == 0
    }

    /// The identities on display after the splice is applied to `shown`.
    pub open spec fn apply(self, shown: Set<InlayId>) -> Set<InlayId> {
        shown.difference(self.to_remove.to_set()).union(inserted_ids(self.to_insert).to_set())
    }
}

impl Default for InlaySplice {
    fn default() -> (r: InlaySplice)
        ensures
            r@ == (SpliceView { to_remove: Seq::empty(), to_insert: Seq::empty() }),
    {
        let r = InlaySplice { to_remove: Vec::new(), to_insert: Vec::new() };
        assert(r@.to_insert =~= Seq::empty());
        r
    }
}

} // verus!
