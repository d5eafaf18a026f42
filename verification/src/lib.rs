//! Circuit gadgets for bounding and comparing field values: a window-based
//! range check and a less-than comparator built from it.
//!
//! The gadgets target a proving backend that evaluates algebraic constraints
//! over the Pallas base field.  This crate holds the gadget logic itself:
//! parameter validation, the window lookup table, the decomposition chain a
//! range check assigns, the additive-offset value a comparison assigns, and
//! proofs about when the resulting constraint sets are satisfiable.  The
//! backend plumbing (columns, regions, proof generation) stays outside.

pub mod field;
pub mod less_than;
pub mod native_range_check;
