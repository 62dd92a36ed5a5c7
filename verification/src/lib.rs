//! History filtering for a content-addressed commit graph.
//!
//! A filter is a small tree of composable tree transforms. Applying it to a
//! history yields a derived history that holds only the transformed content;
//! a pair of caches links each original commit with its filtered counterpart,
//! so that an edit made on the filtered side can be carried back.
//!
//! The parts, from the ground up:
//!
//! - `bytes`, `path`, `glob`, `scan`: byte strings, paths, patterns and text.
//! - `tree`, `store`, `refs`, `revs`, `walk`: trees, the object store with
//!   its references, revisions, and walks through history.
//! - `filter`, `transform`, `overlay`: what a filter is, the tree it gives,
//!   and the way back from an edited tree.
//! - `text`, `parse`, `entries`: the written form of filters and of the
//!   entries of a run.
//! - `view_maps`, `apply`, `forward`, `unapply`: the caches, the forward
//!   applier and the reverse unapplier.
//! - `run`: a whole run over the entries of a text.
//! - `forge`: repository metadata from a forge's API.
//! - `laws`: what holds of all of this together.

pub mod bytes;
pub mod path;
pub mod glob;
pub mod scan;

pub mod tree;
pub mod store;
pub mod refs;
pub mod revs;
pub mod walk;

pub mod filter;
pub mod transform;
pub mod overlay;

pub mod text;
pub mod parse;
pub mod entries;

pub mod view_maps;
pub mod apply;
pub mod forward;
pub mod unapply;

pub mod run;
pub mod forge;
pub mod laws;

pub use crate::filter::FilterNode;
pub use crate::forward::apply_view_to_refs;
pub use crate::parse::build_view;
pub use crate::run::build_chain;
pub use crate::unapply::{unapply_view, UnapplyView};
