//! An incremental, versioned cache of inlay hints for the excerpts of a
//! multi-buffer editor view.
//!
//! The cache keeps, per excerpt, the hints last fetched for it together with
//! the identities under which they are displayed. It decides which excerpts
//! need a new fetch, reconciles fetched hints with the cached ones so that
//! unchanged hints keep their identity, and recomputes the displayed set when
//! only the filter over hint kinds changes.
//!
//! The cache fetches nothing and displays nothing itself. Its caller asks it
//! which queries to send ([`cache::InlayHintCache::spawn_hints_update`]),
//! hands it each answer ([`update::new_excerpt_hints_update_result`], then
//! [`cache::InlayHintCache::apply_update`]) and each change of the settings
//! ([`cache::InlayHintCache::update_settings`]), and applies to the display
//! the splices that come back.
//!
//! What the cache does is stated over the mathematical values of its types:
//! see [`update::update_of`], [`cache::cache_after`],
//! [`resync::settings_result`] and [`schedule::queries_for`]. What holds of
//! it in general is proved in [`laws`] and [`kinds_laws`].

pub mod cache;
pub mod clock;
pub mod display;
pub mod excerpt_hints;
pub mod hint;
pub mod kinds_laws;
pub mod laws;
pub mod query;
pub mod resync;
pub mod schedule;
pub mod settings;
pub mod splice;
pub mod update;
