//! Verified core of a folder-based router generator: it turns a directory
//! layout of `route.rs` / `middleware.rs` / `fallback.rs` / `intercept.rs` /
//! `openapi.toml` files into a plan of the router and module tree to emit.
use vstd::prelude::*;

pub mod args;
pub mod generate;
pub mod modules;
pub mod openapi;
pub mod paths;
pub mod plan;
pub mod routes;
pub mod serve;
pub mod source;
pub mod syntax;
pub mod text;

verus! {

} // verus!
