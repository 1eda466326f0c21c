//! The core DOM types: the basic node hierarchy, the tree of nodes, and the
//! DOM operations that read and rearrange it.
#![allow(non_snake_case)]

pub mod layout;
pub mod types;
pub mod node;
pub mod tree;
pub mod fragment;
pub mod script;
pub mod laws;
pub mod reading_laws;
pub mod derived;
