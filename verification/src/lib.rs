//! A chat-log-driven text-generation bot library.
//!
//! The library parses chat logs into per-identity entries, builds one
//! generative model per identity, persists models in a binary encoding,
//! serves them from a TTL-evicting in-memory cache, and picks replies of
//! acceptable length from a model's generated candidates.

pub mod builder;
pub mod cache;
pub mod log_parse;
pub mod model;
pub mod reply;
pub mod router;
pub mod store;
pub mod wire;

pub use builder::build_models;
pub use cache::{Chains, CachedChain};
pub use log_parse::{normalize_nick, Entry, Parser, ParseRes};
pub use model::Model;
pub use reply::{select_from, select_reply};
pub use router::{route_inbound, RouteAction};
pub use store::{path_for_nick, nicks_from_listing};
