//! A rooted graph of nodes with up to two children each: loading it from a
//! line-oriented description, measuring it by a walk from the root, and
//! rendering it as indented text.
//!
//! The graph need not be a tree, nor free of cycles: a node may be the child
//! of several parents, of one of its descendants, or of itself. The walk
//! counts a node once for each path that reaches it, and is bounded by a
//! depth limit.
//!
//! - [`node`]: nodes, handles and the store that holds the nodes.
//! - [`text`]: reading integers from a line.
//! - [`loader`]: from lines to an edge list.
//! - [`dag`]: from an edge list to a graph; the graph and its statistics.
//! - [`traverse`]: the walk and what it sums up.
//! - [`stats`]: the statistics report.
//! - [`render`]: the rendering.
//! - [`load_lemmas`], [`walk_lemmas`], [`render_lemmas`]: facts that hold of
//!   every description, walk and rendering.

pub mod node;
pub mod text;
pub mod loader;
pub mod traverse;
pub mod stats;
pub mod render;
pub mod dag;
pub mod load_lemmas;
pub mod walk_lemmas;
pub mod render_lemmas;
