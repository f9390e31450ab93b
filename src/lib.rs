//! A path router: route patterns made of static, parameter and catch-all
//! segments, a route table with conflict detection at registration, and a
//! lookup that resolves a request path to a route id and its bindings.

pub mod fixtures;
pub mod router;
pub mod segment;
pub mod trie;
