//! The decisions of a node in each of its roles.
//!
//! A role's functions take the local history and a message or the news
//! that some work has ended, change the history and the role's own state,
//! and return what the node's driver has to do next.
pub mod follower;
pub mod leader;
