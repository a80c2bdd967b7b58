//! Carries sets of contiguous integer ranges through sequential, piecewise
//! linear translation tables without enumerating individual values.
//!
//! A [`pipeline::Pipeline`] threads a [`range::RangeSet`] through an ordered
//! list of [`stage::MappingStage`]s; each stage splits every range only where
//! it crosses a rule boundary and shifts the matched pieces, so the work is
//! bounded by the number of ranges and rules, not by the magnitude of the
//! values. The minimum value reachable after the last stage is then read off
//! the starts of the final ranges.

pub mod error;
pub mod node_line;
pub mod pipeline;
pub mod range;
pub mod stage;
