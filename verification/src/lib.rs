use vstd::prelude::*;

pub mod color;
pub mod commands;
pub mod operations;
pub mod order;
pub mod slugs;
pub mod text;
pub mod variant;
