//! The leader's side of the replication.
pub mod follower;

pub use self::follower::FollowersManager;
