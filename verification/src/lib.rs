//! Core data structures and rules of the 3l14 engine: asset keys, containers,
//! the asset builder's bookkeeping and the debug menu state.

pub mod node_index;
pub mod text;
pub mod bytes;
pub mod entropy;
pub mod asset_3l14;
pub mod asset;
pub mod assets;
pub mod bucket_vec;
pub mod object_pool;
pub mod debug_menu;
pub mod builder;
pub mod builders;
pub mod asset_load_list;
pub mod symbol;
pub mod tooling;
pub mod aabb_tree;
pub mod grid_box;
pub mod asset_worker;
pub mod codec;
