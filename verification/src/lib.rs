//! Native accessibility integration using a retained tree of accessibility nodes.
//!
//! The tree, its nodes and the rules that keep parent and child links
//! consistent are specified and proved here; the native platform integration
//! and the shared, reference-counted handle around the tree live outside.

pub mod roles;
pub mod slots;
pub mod access_key;
pub mod key_list;
pub mod text_store;
pub mod focus_map;
pub mod live_setting;
pub mod text;
pub mod access_property;
pub mod access_event;
pub mod error;
pub mod access_rect;
pub mod node_ids;
pub mod selection_data;
pub mod access_window;
pub mod access_node;
pub mod shape;
pub mod access_tree;
pub mod platforms;
