//! Pane-management engine for a Miller-columns style file browser.
//!
//! The engine keeps a cache of directory/file panes keyed by canonical
//! path, resolves panes by signed level offsets from a focus path,
//! lazily populates neighbouring panes from a filesystem snapshot, and
//! maintains the per-directory sort/selection/scroll invariants.
//! Terminal input and output live outside this crate; the engine works
//! on plain values only.

pub mod geom;
pub mod order;
pub mod path;
pub mod fsdata;
pub mod dirview;
pub mod pane;
pub mod nav;
