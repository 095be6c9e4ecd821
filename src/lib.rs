//! Safe removal of a torrent's on-disk footprint: its descriptor files and
//! its content, never anything outside the content root.
//!
//! The library decides and the caller performs: `plan` turns a content root
//! and its declared files into a plan, `remove` carries a plan out one
//! filesystem operation at a time, checking every resolved path against the
//! root before the first deletion. Paths are byte strings (Unix paths),
//! modelled as `Seq<u8>` in `path`.
pub mod expand;
pub mod path;
pub mod plan;
pub mod remove;
pub mod report;
pub mod status;
