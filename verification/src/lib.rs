//! An arena-backed tree container.
//!
//! Nodes live in one growable arena and are addressed by stable integer
//! indices: each node holds its payload, the ordered indices of its children,
//! and an optional parent index.  The container supports incremental
//! construction, checked and unchecked access by index, flat iteration in
//! creation order, and depth-first traversal with pre- and post-order
//! callbacks.

mod construction;
mod iter;
mod traversal;
mod tree;

pub use construction::apply_step;
pub use construction::built;
pub use construction::child_calls;
pub use construction::lemma_built_len;
pub use construction::lemma_index_stability;
pub use construction::lemma_parent_child_symmetry;
pub use construction::step_data;
pub use construction::step_ok;
pub use construction::steps_ok;
pub use construction::BuildStep;
pub use iter::TreeIter;
pub use iter::TreeIterMut;
pub use traversal::child_list_events;
pub use traversal::folds_events;
pub use traversal::lemma_subtree_events_bracket;
pub use traversal::subtree_events;
pub use traversal::tree_events;
pub use traversal::visit_step;
pub use tree::lemma_mutation_round_trip;
pub use tree::links_point_forward;
pub use tree::Node;
pub use tree::NodeModel;
pub use tree::Tree;
