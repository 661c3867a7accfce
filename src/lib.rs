//! Detection core of an event-log analysis engine.
//!
//! - [`condition`], [`expand`], [`node`]: the condition language of a rule,
//!   its pre-expansion of `all of x*` / `1 of x*`, and the compiled tree.
//! - [`matcher`], [`selection`], [`rule`]: field values, selection modifiers,
//!   records and the field accessor, and a rule's detection part.
//! - [`aggregation`], [`count`]: the `| count(...) by ... OP N` part and the
//!   windowed sweep over recorded observations.
//! - [`engine`], [`alert`]: rules at run time and the time-ordered alert store.
//! - [`loader`], [`filter`], [`config`], [`pivot`]: which rules and records a
//!   run takes, its options, and pivot keyword tables.
pub mod aggregation;
pub mod alert;
pub mod condition;
pub mod config;
pub mod count;
pub mod engine;
pub mod expand;
pub mod filter;
pub mod loader;
pub mod matcher;
pub mod node;
pub mod pivot;
pub mod rule;
pub mod selection;
pub mod text;
