//! An in-memory social-graph store: user profiles, posts with likes and
//! comments, a directed follow graph, and a reverse-chronological paginated
//! feed, together with a snapshot/restore facility that survives a process
//! restart.
//!
//! Identities are opaque caller references supplied by the hosting process;
//! the store only compares them. Timestamps are likewise supplied by the
//! host with each mutating call.

pub mod assoc;
pub mod feed;
pub mod laws;
pub mod snapshot;
pub mod store;
pub mod types;

pub use types::Comment;
pub use types::Post;
pub use types::Profile;
pub use types::SocialError;
