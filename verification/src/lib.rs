pub mod container;
pub mod dot;
pub mod error;
pub mod graph;
pub mod group;
pub mod lifecycle;
pub mod lookup;
pub mod phases;
pub mod provider;
pub mod scope;
pub mod span;
pub mod text;
pub mod trace;
