//! The closed union of the four object kinds and their codec dispatch.
//! Re-serializing a deserialized object of any kind reproduces the bytes it
//! was read from, because the content hash is derived from serialized bytes.

use vstd::prelude::*;

use crate::blob::Blob;
use crate::commit::Commit;
use crate::error::GitError;
use crate::kvlm::{kvlm_parse_spec, kvlm_ser, kvlm_wf, lemma_kvlm_round_trip};
use crate::tag::Tag;
use crate::tree::{
    Tree, tree_parse_spec, leaves_ser, sort_leaves, tree_wf, leaves_sorted, lemma_tree_round_trip,
};

verus! {

/// The four object kinds the on-disk format defines; the set is closed.
#[derive(Clone, Copy, PartialEq, Eq, Structural, Debug)]
pub enum ObjectType {
    Blob,
    Commit,
    Tag,
    Tree,
}

impl ObjectType {
    /// The canonical type tag as it appears in object headers.
    pub open spec fn spec_bytes(self) -> Seq<u8> {
        match self {
            ObjectType::Blob => seq![98u8, 108u8, 111u8, 98u8],
            ObjectType::Commit => seq![99u8, 111u8, 109u8, 109u8, 105u8, 116u8],
            ObjectType::Tag => seq![116u8, 97u8, 103u8],
            ObjectType::Tree => seq![116u8, 114u8, 101u8, 101u8],
        }
    }

    pub fn as_bytes(&self) -> (r: Vec<u8>)
        ensures
            r@ == self.spec_bytes(),
    {
        match self {
            ObjectType::Blob => vec![98u8, 108u8, 111u8, 98u8],
            ObjectType::Commit => vec![99u8, 111u8, 109u8, 109u8, 105u8, 116u8],
            ObjectType::Tag => vec![116u8, 97u8, 103u8],
            ObjectType::Tree => vec![116u8, 114u8, 101u8, 101u8],
        }
    }

    /// Which kind a type tag names, if any.
    pub open spec fn spec_of_bytes(tag: Seq<u8>) -> Option<ObjectType> {
        if tag == ObjectType::Blob.spec_bytes() {
            Some(ObjectType::Blob)
        } else if tag == ObjectType::Commit.spec_bytes() {
            Some(ObjectType::Commit)
        } else if tag == ObjectType::Tag.spec_bytes() {
            Some(ObjectType::Tag)
        } else if tag == ObjectType::Tree.spec_bytes() {
            Some(ObjectType::Tree)
        } else {
            None
        }
    }

    pub fn of_bytes(tag: &Vec<u8>) -> (r: Option<ObjectType>)
        ensures
            r == ObjectType::spec_of_bytes(tag@),
    {
        let blob = ObjectType::Blob.as_bytes();
        if crate::bytes::bytes_eq(tag, &blob) {
            return Some(ObjectType::Blob);
        }
        let commit = ObjectType::Commit.as_bytes();
        if crate::bytes::bytes_eq(tag, &commit) {
            return Some(ObjectType::Commit);
        }
        let tg = ObjectType::Tag.as_bytes();
        if crate::bytes::bytes_eq(tag, &tg) {
            return Some(ObjectType::Tag);
        }
        let tree = ObjectType::Tree.as_bytes();
        if crate::bytes::bytes_eq(tag, &tree) {
            return Some(ObjectType::Tree);
        }
        None
    }
}

/// The kind a six-digit tree leaf mode denotes: `04` a subtree, `10` or
/// `12` a blob, `16` a gitlink commit.
pub open spec fn leaf_kind_spec(mode: Seq<u8>) -> Option<ObjectType> {
    if mode.len() < 2 {
        None
    } else if mode[0] == 48 && mode[1] == 52 {
        Some(ObjectType::Tree)
    } else if mode[0] == 49 && (mode[1] == 48 || mode[1] == 50) {
        Some(ObjectType::Blob)
    } else if mode[0] == 49 && mode[1] == 54 {
        Some(ObjectType::Commit)
    } else {
        None
    }
}

/// Classifies a tree leaf by its mode prefix; an unknown prefix is a weird
/// leaf the caller reports.
pub fn leaf_kind(mode: &Vec<u8>) -> (r: Option<ObjectType>)
    ensures
        r == leaf_kind_spec(mode@),
{
    if mode.len() < 2 {
        None
    } else if mode[0] == 48 && mode[1] == 52 {
        Some(ObjectType::Tree)
    } else if mode[0] == 49 && (mode[1] == 48 || mode[1] == 50) {
        Some(ObjectType::Blob)
    } else if mode[0] == 49 && mode[1] == 54 {
        Some(ObjectType::Commit)
    } else {
        None
    }
}

/// One object of any kind.
pub enum Object {
    Blob(Blob),
    Commit(Commit),
    Tag(Tag),
    Tree(Tree),
}

impl Object {
    /// The kind of this object.
    pub open spec fn fmt_spec(&self) -> ObjectType {
        match self {
            Object::Blob(_) => ObjectType::Blob,
            Object::Commit(_) => ObjectType::Commit,
            Object::Tag(_) => ObjectType::Tag,
            Object::Tree(_) => ObjectType::Tree,
        }
    }

    pub fn fmt(&self) -> (r: ObjectType)
        ensures
            r == self.fmt_spec(),
    {
        match self {
            Object::Blob(_) => ObjectType::Blob,
            Object::Commit(_) => ObjectType::Commit,
            Object::Tag(_) => ObjectType::Tag,
            Object::Tree(_) => ObjectType::Tree,
        }
    }

    /// What serialization requires: a tree's ids must be valid hex.
    pub open spec fn ser_wf(&self) -> bool {
        match self {
            Object::Tree(t) => tree_wf(t@),
            _ => true,
        }
    }

    /// A fully well-formed object, the codecs' round-trip domain.
    pub open spec fn round_wf(&self) -> bool {
        match self {
            Object::Blob(_) => true,
            Object::Commit(c) => kvlm_wf(c.kvlm@),
            Object::Tag(t) => kvlm_wf(t.kvlm@),
            Object::Tree(t) => tree_wf(t@) && leaves_sorted(t@),
        }
    }

    /// The canonical serialized bytes.
    pub open spec fn spec_ser(&self) -> Seq<u8> {
        match self {
            Object::Blob(b) => b@,
            Object::Commit(c) => kvlm_ser(c.kvlm@),
            Object::Tag(t) => kvlm_ser(t.kvlm@),
            Object::Tree(t) => leaves_ser(sort_leaves(t@)),
        }
    }

    pub fn serialize(&self) -> (r: Vec<u8>)
        requires
            self.ser_wf(),
        ensures
            r@ == self.spec_ser(),
    {
        match self {
            Object::Blob(b) => b.serialize(),
            Object::Commit(c) => c.serialize(),
            Object::Tag(t) => t.serialize(),
            Object::Tree(t) => t.serialize(),
        }
    }

    /// What deserializing `data` as kind `t` must yield.
    pub open spec fn parse_rel(t: ObjectType, data: Seq<u8>, r: Result<Object, GitError>) -> bool {
        match t {
            ObjectType::Blob => r matches Ok(o) && o matches Object::Blob(b) && b@ == data,
            ObjectType::Commit => match kvlm_parse_spec(data, 0) {
                Some(ps) => r matches Ok(o) && o matches Object::Commit(c) && c.kvlm@ == ps,
                None => r matches Err(GitError::MalformedObject),
            },
            ObjectType::Tag => match kvlm_parse_spec(data, 0) {
                Some(ps) => r matches Ok(o) && o matches Object::Tag(tg) && tg.kvlm@ == ps,
                None => r matches Err(GitError::MalformedObject),
            },
            ObjectType::Tree => match tree_parse_spec(data, 0) {
                Some(s) => r matches Ok(o) && o matches Object::Tree(tr) && tr@ == s,
                None => r matches Err(GitError::MalformedObject),
            },
        }
    }

    /// Dispatches `data` to the codec for kind `t`.
    pub fn deserialize(t: ObjectType, data: &Vec<u8>) -> (r: Result<Object, GitError>)
        ensures
            Object::parse_rel(t, data@, r),
    {
        match t {
            ObjectType::Blob => Ok(Object::Blob(Blob::deserialize(data))),
            ObjectType::Commit => match Commit::deserialize(data) {
                Ok(c) => Ok(Object::Commit(c)),
                Err(e) => Err(e),
            },
            ObjectType::Tag => match Tag::deserialize(data) {
                Ok(tg) => Ok(Object::Tag(tg)),
                Err(e) => Err(e),
            },
            ObjectType::Tree => match Tree::deserialize(data) {
                Ok(tr) => Ok(Object::Tree(tr)),
                Err(e) => Err(e),
            },
        }
    }
}

/// For every supported object kind, deserializing the serialization parses
/// back to the very structure serialized: the codec round-trip law.
pub proof fn lemma_object_round_trip(o: Object)
    requires
        o.round_wf(),
    ensures
        match o {
            Object::Blob(b) => o.spec_ser() == b@,
            Object::Commit(c) => kvlm_parse_spec(o.spec_ser(), 0) == Some(c.kvlm@),
            Object::Tag(t) => kvlm_parse_spec(o.spec_ser(), 0) == Some(t.kvlm@),
            Object::Tree(t) => tree_parse_spec(o.spec_ser(), 0) == Some(t@),
        },
{
    match o {
        Object::Blob(_) => {},
        Object::Commit(c) => {
            lemma_kvlm_round_trip(c.kvlm@);
        },
        Object::Tag(t) => {
            lemma_kvlm_round_trip(t.kvlm@);
        },
        Object::Tree(t) => {
            lemma_tree_round_trip(t@);
        },
    }
}

} // verus!
