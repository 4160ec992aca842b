//! The inlays on display that are inlay hints.

use vstd::prelude::*;
use crate::excerpt_hints::lemma_filter_push;
use crate::hint::{Inlay, InlayId};

verus! {

/// Whether an inlay on display is an inlay hint: its identity is not that of
/// the completion suggestion on display, if there is one.
pub open spec fn is_inlay_hint(inlay: Inlay, suggestion: Option<InlayId>) -> bool {
    Some(inlay.id) != suggestion
}

/// The inlays on display that are inlay hints, in the order in which they are
/// displayed: all of `current_inlays` but the completion suggestion.
pub fn visible_inlay_hints(current_inlays: &Vec<Inlay>, suggestion: Option<InlayId>) -> (r: Vec<
    Inlay,
>)
    ensures
        r@ == current_inlays@.filter(|inlay: Inlay| is_inlay_hint(inlay, suggestion)),
{
    let ghost is_hint = |inlay: Inlay| is_inlay_hint(inlay, suggestion);
    let mut hints: Vec<Inlay> = Vec::new();
    let mut n: usize = 0;
    proof {
        reveal(Seq::filter);
        assert(current_inlays@.take(0) =~= Seq::empty());
    }
    while n < current_inlays.len()
        invariant
            n <= current_inlays.len(),
            is_hint == |inlay: Inlay| is_inlay_hint(inlay, suggestion),
            hints@ == current_inlays@.take(n as int).filter(is_hint),
        decreases current_inlays.len() - n,
    {
        let inlay = current_inlays[n];
        proof {
            assert(current_inlays@.take(n + 1) =~= current_inlays@.take(n as int).push(inlay));
            lemma_filter_push(current_inlays@.take(n as int), inlay, is_hint);
        }
        let is_suggestion = match suggestion {
            Some(id) => id == inlay.id,
            None => false,
        };
        if !is_suggestion {
            hints.push(inlay);
        }
        n += 1;
    }
    proof {
        assert(current_inlays@.take(current_inlays@.len() as int) =~= current_inlays@);
    }
    hints
}

} // verus!
