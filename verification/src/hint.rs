//! Hints, their kinds, and the positions at which they are displayed.
//!
//! A position in a buffer's text stands for an anchor: a place that stays the
//! same place when the text around it is edited. It is given as an integer,
//! and the cache compares positions as integers. So all the positions that
//! meet in one call (those of the cached hints, of the fetched hints, of the
//! displayed inlays, and the two ends of the queried range) have to be
//! numbers of one numbering of the anchors of a buffer, as offsets in one
//! snapshot of the buffer are. The cache never renumbers what it holds.

use vstd::prelude::*;
use vstd::std_specs::cmp::PartialEqSpecImpl;

verus! {

/// Identifies one excerpt of the multi-buffer.
pub type ExcerptId = usize;

/// Identifies one displayed inlay. An identity is given out once and never
/// reused.
pub type InlayId = usize;

/// The category a hint source may attach to a hint.
#[derive(Clone, Copy, Debug, PartialEq, Eq, Structural, Hash)]
pub enum InlayHintKind {
    Type,
    Parameter,
}

/// A position in the multi-buffer: an excerpt, the buffer behind it (where one
/// could be resolved) and a position in that buffer's text.
#[derive(Clone, Copy, Debug, PartialEq, Eq, Structural)]
pub struct Anchor {
    pub buffer_id: Option<u64>,
    pub excerpt_id: ExcerptId,
    pub text_anchor: usize,
}

/// An inlay as it is currently displayed.
#[derive(Clone, Copy, Debug, PartialEq, Eq, Structural)]
pub struct Inlay {
    pub id: InlayId,
    pub position: Anchor,
}

/// A hint as the hint source reports it. Hints are values: two hints are the
/// same hint when all their fields agree.
#[derive(Debug)]
pub struct InlayHint {
    pub buffer_id: u64,
    pub position: usize,
    pub kind: Option<InlayHintKind>,
    pub label: String,
}

/// The mathematical value of an [`InlayHint`].
pub struct HintView {
    pub buffer_id: u64,
    pub position: usize,
    pub kind: Option<InlayHintKind>,
    pub label: Seq<char>,
}

impl View for InlayHint {
    type V = HintView;

    open spec fn view(&self) -> HintView {
        HintView {
            buffer_id: self.buffer_id,
            position: self.position,
            kind: self.kind,
            label: self.label@,
        }
    }
}

/// Whether two optional kinds are the same category.
pub fn same_kind(a: Option<InlayHintKind>, b: Option<InlayHintKind>) -> (r: bool)
    ensures
        r == (a == b),
{
    match (a, b) {
        (None, None) => true,
        (Some(InlayHintKind::Type), Some(InlayHintKind::Type)) => true,
        (Some(InlayHintKind::Parameter), Some(InlayHintKind::Parameter)) => true,
        _ => false,
    }
}

impl PartialEq for InlayHint {
    fn eq(&self, other: &InlayHint) -> (r: bool) {
        self.buffer_id == other.buffer_id && self.position == other.position && same_kind(
            self.kind,
            other.kind,
        ) && self.label == other.label
    }
}

impl PartialEqSpecImpl for InlayHint {
    open spec fn obeys_eq_spec() -> bool {
        true
    }

    open spec fn eq_spec(&self, other: &InlayHint) -> bool {
        self@ == other@
    }
}

impl Clone for InlayHint {
    fn clone(&self) -> (r: InlayHint)
        ensures
            r@ == self@,
    {
        InlayHint {
            buffer_id: self.buffer_id,
            position: self.position,
            kind: self.kind,
            label: self.label.clone(),
        }
    }
}

/// The views of a sequence of hints, in the same order.
pub open spec fn hint_views(hints: Seq<InlayHint>) -> Seq<HintView> {
    hints.map_values(|h: InlayHint| h@)
}

/// The position at which a cached hint of an excerpt is displayed.
pub open spec fn hint_anchor(excerpt_id: ExcerptId, hint: HintView) -> Anchor {
    Anchor { buffer_id: Some(hint.buffer_id), excerpt_id, text_anchor: hint.position }
}

} // verus!
