//! What is asked of the hint source: for which excerpt, over which range, and
//! how the answer is to be reconciled with what is cached.

use vstd::prelude::*;
use crate::clock::Global;
use crate::hint::ExcerptId;

verus! {

/// How a refresh treats the hints that the new answer does not confirm.
#[derive(Clone, Copy, Debug, PartialEq, Eq, Structural)]
pub enum InvalidationStrategy {
    /// Everything cached is in doubt: fetch even where the buffer has not
    /// changed, and drop what the answer does not confirm.
    All,
    /// Fetch where the buffer has changed, and drop what the answer does not
    /// confirm.
    OnConflict,
    /// Fetch where the buffer has changed, and only add to what is cached.
    Nothing,
}

impl InvalidationStrategy {
    /// Whether hints that an answer does not confirm are dropped.
    pub open spec fn invalidates(self) -> bool {
        self != InvalidationStrategy::Nothing
    }

    /// Whether hints that an answer does not confirm are dropped.
    pub fn should_invalidate(&self) -> (r: bool)
        ensures
            r == self.invalidates(),
    {
        match self {
            InvalidationStrategy::All | InvalidationStrategy::OnConflict => true,
            InvalidationStrategy::Nothing => false,
        }
    }
}

/// One excerpt of a refresh request, with what the caller found out about it.
#[derive(Debug)]
pub struct ExcerptRequest {
    pub excerpt_id: ExcerptId,
    pub buffer_id: u64,
    /// The range of the buffer that the excerpt shows, as start and end, or
    /// nothing where the excerpt is no longer part of the multi-buffer.
    pub excerpt_range: Option<(usize, usize)>,
    /// The buffer's version now.
    pub buffer_version: Global,
}

/// The mathematical value of an [`ExcerptRequest`].
pub struct RequestView {
    pub excerpt_id: ExcerptId,
    pub buffer_id: u64,
    pub excerpt_range: Option<(usize, usize)>,
    pub buffer_version: Seq<u32>,
}

impl View for ExcerptRequest {
    type V = RequestView;

    open spec fn view(&self) -> RequestView {
        RequestView {
            excerpt_id: self.excerpt_id,
            buffer_id: self.buffer_id,
            excerpt_range: self.excerpt_range,
            buffer_version: self.buffer_version@,
        }
    }
}

/// The views of a sequence of requests, in the same order.
pub open spec fn request_views(requests: Seq<ExcerptRequest>) -> Seq<RequestView> {
    requests.map_values(|r: ExcerptRequest| r@)
}

/// Whether no two requests are for the same excerpt.
pub open spec fn distinct_excerpts(requests: Seq<RequestView>) -> bool {
    forall|i: int, j: int|
        #![trigger requests[i], requests[j]]
        0 <= i < j < requests.len() ==> requests[i].excerpt_id != requests[j].excerpt_id
}

/// One request to the hint source.
#[derive(Clone, Copy, Debug, PartialEq, Eq, Structural)]
pub struct ExcerptQuery {
    pub buffer_id: u64,
    pub excerpt_id: ExcerptId,
    pub excerpt_range_start: usize,
    pub excerpt_range_end: usize,
    pub cache_version: usize,
    pub invalidate: InvalidationStrategy,
}

impl ExcerptQuery {
    /// Whether `position` lies in the queried range, both ends included.
    pub open spec fn contains(self, position: usize) -> bool {
        self.excerpt_range_start <= position <= self.excerpt_range_end
    }

    /// Whether `position` lies in the queried range, both ends included.
    pub fn contains_position(&self, position: usize) -> (r: bool)
        ensures
            r == self.contains(position),
    {
        self.excerpt_range_start <= position && self.excerpt_range_end >= position
    }
}

} // verus!
