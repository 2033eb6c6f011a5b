//! The commit object: a key-value-list-with-message body.

use vstd::prelude::*;

use crate::error::GitError;
use crate::kvlm::{Kvlm, kvlm_parse, kvlm_parse_spec, kvlm_serialize, kvlm_ser};

verus! {

/// A commit: tree and parent references, author lines and the message, all
/// held as ordered key-value pairs.
pub struct Commit {
    pub kvlm: Kvlm,
}

impl Commit {
    /// An empty commit body.
    pub fn new() -> (r: Commit)
        ensures
            r.kvlm@ == Seq::<(Option<Seq<u8>>, Seq<Seq<u8>>)>::empty(),
    {
        Commit { kvlm: Kvlm::new() }
    }

    /// Parses a commit body; a header line without its delimiters is a
    /// malformed object.
    pub fn deserialize(data: &Vec<u8>) -> (r: Result<Commit, GitError>)
        ensures
            match r {
                Ok(c) => kvlm_parse_spec(data@, 0) == Some(c.kvlm@),
                Err(e) => kvlm_parse_spec(data@, 0) is None && e matches GitError::MalformedObject,
            },
    {
        match kvlm_parse(data) {
            Ok(kvlm) => Ok(Commit { kvlm }),
            Err(e) => Err(e),
        }
    }

    /// The canonical bytes of this commit.
    pub fn serialize(&self) -> (r: Vec<u8>)
        ensures
            r@ == kvlm_ser(self.kvlm@),
    {
        kvlm_serialize(&self.kvlm)
    }
}

} // verus!
