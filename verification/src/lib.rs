//! Verified core of a torrent search tool: magnet links, result merging and
//! de-duplication, size rendering, and the per-site result extraction rules.

pub mod text;
pub mod magnet;
pub mod torrent;
pub mod dedup;
pub mod size;
pub mod html;
pub mod providers;
pub mod table;
pub mod choice;
