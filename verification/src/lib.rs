//! A content-addressable object store and repository-state engine: typed
//! objects (blob, tree, commit, tag) with canonical binary codecs, a loose
//! object store keyed by content hash, reference and name resolution, the
//! binary staging index, an ignore-rule matcher, and a three-way status
//! engine.

pub mod blob;
pub mod bytes;
pub mod commit;
pub mod error;
pub mod hexcode;
pub mod ignore;
pub mod index;
pub mod kvlm;
pub mod object;
pub mod resolve;
pub mod status;
pub mod store;
pub mod tag;
pub mod tree;

pub use blob::Blob;
pub use commit::Commit;
pub use error::GitError;
pub use kvlm::Kvlm;
pub use object::{Object, ObjectType};
pub use tag::Tag;
pub use tree::{Tree, TreeLeaf};
