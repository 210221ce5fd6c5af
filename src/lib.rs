//! Watch engine for classifieds searches: turns marketplace search links into
//! query-API requests, decides which listings are new for each watch, and
//! remembers which listings were already delivered to which user.
pub mod text;
pub mod query;
pub mod history;
pub mod engine;
pub mod probe;
pub mod notify;
