//! The tag object: the same key-value-list-with-message body as a commit.

use vstd::prelude::*;

use crate::error::GitError;
use crate::kvlm::{Kvlm, kvlm_parse, kvlm_parse_spec, kvlm_serialize, kvlm_ser};

verus! {

/// An annotated tag: an `object` reference, tagger lines and the message.
pub struct Tag {
    pub kvlm: Kvlm,
}

impl Tag {
    /// An empty tag body.
    pub fn new() -> (r: Tag)
        ensures
            r.kvlm@ == Seq::<(Option<Seq<u8>>, Seq<Seq<u8>>)>::empty(),
    {
        Tag { kvlm: Kvlm::new() }
    }

    /// Parses a tag body; a header line without its delimiters is a
    /// malformed object.
    pub fn deserialize(data: &Vec<u8>) -> (r: Result<Tag, GitError>)
        ensures
            match r {
                Ok(t) => kvlm_parse_spec(data@, 0) == Some(t.kvlm@),
                Err(e) => kvlm_parse_spec(data@, 0) is None && e matches GitError::MalformedObject,
            },
    {
        match kvlm_parse(data) {
            Ok(kvlm) => Ok(Tag { kvlm }),
            Err(e) => Err(e),
        }
    }

    /// The canonical bytes of this tag.
    pub fn serialize(&self) -> (r: Vec<u8>)
        ensures
            r@ == kvlm_ser(self.kvlm@),
    {
        kvlm_serialize(&self.kvlm)
    }
}

} // verus!
