//! The user's settings for inlay hints and the set of hint kinds they allow.

use vstd::prelude::*;
use crate::hint::InlayHintKind;

verus! {

/// The settings that govern inlay hints.
#[derive(Clone, Copy, Debug, PartialEq, Eq, Structural)]
pub struct InlayHintSettings {
    pub enabled: bool,
    pub show_type_hints: bool,
    pub show_parameter_hints: bool,
    pub show_other_hints: bool,
}

/// A set of hint kinds, where `None` stands for the hints without a kind.
#[derive(Clone, Copy, Debug, PartialEq, Eq, Structural)]
pub struct AllowedHintKinds {
    pub type_hints: bool,
    pub parameter_hints: bool,
    pub other_hints: bool,
}

impl View for AllowedHintKinds {
    type V = Set<Option<InlayHintKind>>;

    open spec fn view(&self) -> Set<Option<InlayHintKind>> {
        Set::new(
            |kind: Option<InlayHintKind>|
                match kind {
                    Some(InlayHintKind::Type) => self.type_hints,
                    Some(InlayHintKind::Parameter) => self.parameter_hints,
                    None => self.other_hints,
                },
        )
    }
}

impl AllowedHintKinds {
    /// The set without any kind.
    pub fn empty() -> (r: AllowedHintKinds)
        ensures
            r@ == Set::<Option<InlayHintKind>>::empty(),
            r == (AllowedHintKinds { type_hints: false, parameter_hints: false, other_hints: false }),
    {
        let r = AllowedHintKinds { type_hints: false, parameter_hints: false, other_hints: false };
        assert(r@ =~= Set::<Option<InlayHintKind>>::empty());
        r
    }

    /// Whether `kind` is in the set.
    pub fn contains(&self, kind: &Option<InlayHintKind>) -> (r: bool)
        ensures
            r == self@.contains(*kind),
    {
        match kind {
            Some(InlayHintKind::Type) => self.type_hints,
            Some(InlayHintKind::Parameter) => self.parameter_hints,
            None => self.other_hints,
        }
    }

    /// Whether the set holds no kind at all.
    pub fn is_empty(&self) -> (r: bool)
        ensures
            r == (self@ == Set::<Option<InlayHintKind>>::empty()),
    {
        let r = !self.type_hints && !self.parameter_hints && !self.other_hints;
        proof {
            if r {
                assert(self@ =~= Set::<Option<InlayHintKind>>::empty());
            } else {
                assert(self@.contains(Some(InlayHintKind::Type)) || self@.contains(
                    Some(InlayHintKind::Parameter),
                ) || self@.contains(None));
            }
        }
        r
    }
}

/// The kinds that `settings` asks to show: type hints, parameter hints and the
/// hints without a kind, each where its flag is set.
pub fn allowed_hint_types(settings: InlayHintSettings) -> (r: AllowedHintKinds)
    ensures
        r == allowed_kinds_of(settings),
        r@.contains(Some(InlayHintKind::Type)) == settings.show_type_hints,
        r@.contains(Some(InlayHintKind::Parameter)) == settings.show_parameter_hints,
        r@.contains(None) == settings.show_other_hints,
{
    let mut new_allowed_hint_types = AllowedHintKinds::empty();
    if settings.show_type_hints {
        new_allowed_hint_types.type_hints = true;
    }
    if settings.show_parameter_hints {
        new_allowed_hint_types.parameter_hints = true;
    }
    if settings.show_other_hints {
        new_allowed_hint_types.other_hints = true;
    }
    new_allowed_hint_types
}

/// What [`allowed_hint_types`] returns, as a function of the settings.
pub open spec fn allowed_kinds_of(settings: InlayHintSettings) -> AllowedHintKinds {
    AllowedHintKinds {
        type_hints: settings.show_type_hints,
        parameter_hints: settings.show_parameter_hints,
        other_hints: settings.show_other_hints,
    }
}

} // verus!
