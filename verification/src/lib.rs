//! A runtime-reloadable event filter for span-scoped tracing.
//!
//! A [`dispatch::Dispatcher`] owns the active [`filter::FilterSpec`] and its
//! generation. Call sites cache their verdict together with the generation
//! it was computed against; a reload replaces the filter and raises the
//! generation in one step, and every cache entry of an earlier generation is
//! recomputed the next time it is read. Each thread keeps its live spans on
//! a [`span::ThreadSpanStack`]; whether a span is enabled is decided when it
//! is entered and never again.
//!
//! The operations are specified as transitions of the model in [`model`];
//! [`system`] states what holds of every sequence of them. Directive text is
//! parsed by `tracing_subscriber`, see [`directive_text`].

pub mod callsite;
pub mod directive_text;
pub mod dispatch;
pub mod event;
pub mod filter;
pub mod interest;
pub mod level;
pub mod model;
pub mod span;
pub mod system;
