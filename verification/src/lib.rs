//! An in-memory algebraic engine for regions of space, altitude and time.
//!
//! A region is held as a union of multi-resolution tiles: each
//! [`id::SpaceTimeId`] names a rectangular block at a given zoom level and
//! time resolution, and a [`set::SpaceTimeIdSet`] keeps a collection of such
//! identifiers normalized, so that no entry is contained in another, adjacent
//! entries are merged, and every entry sits at the coarsest resolution that
//! still denotes exactly its volume.

pub mod contain;
pub mod id;
pub mod num;
pub mod range;
pub mod set;
pub mod storage;
