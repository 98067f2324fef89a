//! Core of a GPU-style compute engine offering two primitives: a hierarchical
//! inclusive prefix sum over `u32` arrays of arbitrary length, and a counting
//! sort that buckets points into the cells of a uniform spatial grid.
//!
//! The engine's logic is verified against a host-side model of device memory:
//! a device buffer of 32-bit words is a `Vec<u32>`, and each compute kernel is
//! an executable function whose contract states exactly what one dispatch of
//! that kernel writes.  The orchestration around the kernels — the reduction
//! tree of scan levels, the chunking of oversized dispatches, and the
//! count / offset / scatter pipeline of the sort — is ordinary verified code.
//! Submitting the same dispatches to a real compute backend is the concern of
//! an unverified execution layer built on top of this crate; the dispatch
//! geometry it needs (workgroup counts, chunk descriptors, level sizes) is
//! computed here, with contracts.

pub mod fenns;
pub mod plan;
pub mod prefix_sum;
