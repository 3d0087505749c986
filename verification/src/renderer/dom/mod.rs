pub mod api;
pub mod node;
