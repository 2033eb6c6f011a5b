//! Name and reference resolution: what a human-entered token can mean, how
//! a symbolic reference is read, and how a found object peels down to the
//! kind a caller wants.

use vstd::prelude::*;

use crate::bytes::{spec_starts_with, trim_end_spec, trim_spec};
use crate::error::GitError;
use crate::hexcode::is_hex_digit;
use crate::kvlm::find_key;
use crate::object::{Object, ObjectType};

verus! {

/// A token that can abbreviate an object id: four to forty hex digits.
pub open spec fn hex_name_spec(name: Seq<u8>) -> bool {
    4 <= name.len() <= 40 && forall|i: int| 0 <= i < name.len() ==> is_hex_digit(#[trigger] name[i])
}

pub fn is_hex_name(name: &Vec<u8>) -> (r: bool)
    ensures
        r == hex_name_spec(name@),
{
    if name.len() < 4 || name.len() > 40 {
        return false;
    }
    let mut i: usize = 0;
    while i < name.len()
        invariant
            i <= name@.len(),
            forall|j: int| 0 <= j < i ==> is_hex_digit(#[trigger] name@[j]),
        decreases name@.len() - i,
    {
        let b = name[i];
        if !((48 <= b && b <= 57) || (97 <= b && b <= 102) || (65 <= b && b <= 70)) {
            return false;
        }
        i = i + 1;
    }
    true
}

/// An upper-case hex digit folded to lower case; all else unchanged.
pub open spec fn lower_byte(b: u8) -> u8 {
    if 65 <= b <= 70 {
        (b + 32) as u8
    } else {
        b
    }
}

pub open spec fn lower_spec(s: Seq<u8>) -> Seq<u8> {
    s.map_values(|b: u8| lower_byte(b))
}

/// Folds the hex digits of a token to lower case.
pub fn hex_lower(name: &Vec<u8>) -> (r: Vec<u8>)
    ensures
        r@ == lower_spec(name@),
{
    let mut r: Vec<u8> = Vec::new();
    let mut i: usize = 0;
    while i < name.len()
        invariant
            i <= name@.len(),
            r@.len() == i,
            forall|j: int| 0 <= j < i ==> #[trigger] r@[j] == lower_byte(name@[j]),
        decreases name@.len() - i,
    {
        let b = name[i];
        if 65 <= b && b <= 70 {
            r.push(b + 32);
        } else {
            r.push(b);
        }
        i = i + 1;
    }
    proof {
        assert(r@ =~= lower_spec(name@));
    }
    r
}

/// The ids a short-hash scan yields: for each loose file name beginning
/// with the token's tail, the two-digit directory prefix glued back on.
pub open spec fn short_candidates(lower: Seq<u8>, files: Seq<Seq<u8>>) -> Seq<Seq<u8>>
    decreases files.len(),
{
    if files.len() == 0 {
        seq![]
    } else {
        (if spec_starts_with(files[0], lower.skip(2)) {
            seq![lower.take(2) + files[0]]
        } else {
            seq![]
        }) + short_candidates(lower, files.skip(1))
    }
}

/// Scans a loose-object directory listing for names completing the token.
pub fn short_hash_candidates(lower: &Vec<u8>, files: &Vec<Vec<u8>>) -> (r: Vec<Vec<u8>>)
    requires
        2 <= lower@.len(),
    ensures
        r.deep_view() == short_candidates(lower@, files.deep_view()),
{
    let ghost fv = files.deep_view();
    let prefix = crate::bytes::bytes_range(lower, 0, 2);
    let rest = crate::bytes::bytes_range(lower, 2, lower.len());
    assert(prefix@ =~= lower@.take(2));
    assert(rest@ =~= lower@.skip(2));
    let mut r: Vec<Vec<u8>> = Vec::new();
    let mut i: usize = 0;
    assert(fv.skip(0) =~= fv);
    assert(r.deep_view() =~= Seq::<Seq<u8>>::empty());
    while i < files.len()
        invariant
            i <= files@.len(),
            fv == files.deep_view(),
            prefix@ == lower@.take(2),
            rest@ == lower@.skip(2),
            short_candidates(lower@, fv) == r.deep_view() + short_candidates(
                lower@,
                fv.skip(i as int),
            ),
        decreases files@.len() - i,
    {
        proof {
            assert(fv.skip(i as int)[0] == fv[i as int]);
            assert(fv[i as int] == files@[i as int]@);
            assert(fv.skip(i as int).skip(1) =~= fv.skip(i + 1));
        }
        let ghost r0 = r.deep_view();
        if crate::bytes::starts_with(&files[i], &rest) {
            let mut cand = crate::bytes::bytes_range(&prefix, 0, prefix.len());
            crate::bytes::push_bytes(&mut cand, &files[i]);
            let ghost cv = cand@;
            r.push(cand);
            proof {
                assert(r.deep_view() =~~= r0.push(cv));
                assert(short_candidates(lower@, fv) =~~= r.deep_view() + short_candidates(
                    lower@,
                    fv.skip(i + 1),
                ));
            }
        } else {
            proof {
                assert(short_candidates(lower@, fv) =~~= r.deep_view() + short_candidates(
                    lower@,
                    fv.skip(i + 1),
                ));
            }
        }
        i = i + 1;
    }
    proof {
        assert(short_candidates(lower@, fv.skip(fv.len() as int)) =~= Seq::<Seq<u8>>::empty());
        assert(r.deep_view() =~~= short_candidates(lower@, fv));
    }
    r
}

/// Every loose object whose file name completes the token appears among
/// the scan's candidates: two objects sharing a short prefix both do, and
/// picking one then fails as ambiguous, naming them all.
pub proof fn lemma_short_candidates_contain(lower: Seq<u8>, files: Seq<Seq<u8>>, i: int)
    requires
        0 <= i < files.len(),
        spec_starts_with(files[i], lower.skip(2)),
    ensures
        short_candidates(lower, files).contains(lower.take(2) + files[i]),
    decreases i,
{
    let whole = short_candidates(lower, files);
    let head: Seq<Seq<u8>> = if spec_starts_with(files[0], lower.skip(2)) {
        seq![lower.take(2) + files[0]]
    } else {
        seq![]
    };
    let tail = short_candidates(lower, files.skip(1));
    assert(whole == head + tail);
    if i == 0 {
        assert(whole[0] == lower.take(2) + files[0]);
    } else {
        assert(files.skip(1)[i - 1] == files[i]);
        lemma_short_candidates_contain(lower, files.skip(1), i - 1);
        let j = choose|j: int| 0 <= j < tail.len() && tail[j] == lower.take(2) + files[i];
        assert(whole[head.len() + j] == tail[j]);
    }
}

/// Narrows a candidate list to the single object a name must mean: none is
/// an unknown reference, more than one is ambiguous and all are named.
pub fn resolve_pick(candidates: Vec<Vec<u8>>) -> (r: Result<Vec<u8>, GitError>)
    ensures
        candidates@.len() == 0 ==> r matches Err(GitError::NoSuchReference),
        candidates@.len() == 1 ==> (r matches Ok(s) && s@ == candidates@[0]@),
        candidates@.len() > 1 ==> (r matches Err(GitError::AmbiguousReference(c)) && c.deep_view()
            == candidates.deep_view()),
{
    if candidates.len() == 0 {
        Err(GitError::NoSuchReference)
    } else if candidates.len() > 1 {
        Err(GitError::AmbiguousReference(candidates))
    } else {
        let mut candidates = candidates;
        match candidates.pop() {
            Some(s) => Ok(s),
            None => Err(GitError::NoSuchReference),
        }
    }
}

/// The first value stored under a key, when the pair holds one.
pub open spec fn kv_first(ps: Seq<(Option<Seq<u8>>, Seq<Seq<u8>>)>, k: Seq<u8>) -> Option<Seq<u8>> {
    match find_key(ps, k) {
        Some(i) => if 0 <= i < ps.len() && ps[i].1.len() > 0 {
            Some(ps[i].1[0])
        } else {
            None
        },
        None => None,
    }
}

/// The `object` header key of a tag.
pub open spec fn object_key() -> Seq<u8> {
    seq![111u8, 98u8, 106u8, 101u8, 99u8, 116u8]
}

/// The `tree` header key of a commit.
pub open spec fn tree_key() -> Seq<u8> {
    seq![116u8, 114u8, 101u8, 101u8]
}

/// The tree a commit points to, from its `tree` header.
pub fn commit_tree(c: &crate::commit::Commit) -> (r: Option<Vec<u8>>)
    ensures
        match r {
            Some(v) => kv_first(c.kvlm@, tree_key()) == Some(v@),
            None => kv_first(c.kvlm@, tree_key()) is None,
        },
{
    let key = vec![116u8, 114u8, 101u8, 101u8];
    assert(key@ =~= tree_key());
    match c.kvlm.get(&key) {
        Some(vs) => {
            if vs.len() > 0 {
                let v = crate::bytes::bytes_range(&vs[0], 0, vs[0].len());
                proof {
                    assert(vs@.map_values(|x: Vec<u8>| x@)[0] == vs@[0]@);
                }
                Some(v)
            } else {
                None
            }
        },
        None => None,
    }
}

/// One peeling move toward the wanted kind.
pub enum PeelStep {
    /// The object already has the wanted kind; resolution ends here.
    Done,
    /// The kinds differ and no further peel rule applies.
    NotFound,
    /// Peeling continues at this id.
    Follow(Vec<u8>),
}

/// Decides one step of type peeling: a matching kind ends the search, a tag
/// peels through its `object` header, a commit peels to its `tree` when a
/// tree is wanted, and otherwise the search stops empty-handed.  A tag or
/// commit missing the needed header is malformed.
pub fn peel_step(obj: &Object, fmt: ObjectType, follow: bool) -> (r: Result<PeelStep, GitError>)
    ensures
        obj.fmt_spec() == fmt ==> r matches Ok(PeelStep::Done),
        obj.fmt_spec() != fmt && !follow ==> r matches Ok(PeelStep::NotFound),
        obj.fmt_spec() != fmt && follow ==> match obj {
            Object::Tag(t) => match kv_first(t.kvlm@, object_key()) {
                Some(v) => r matches Ok(PeelStep::Follow(s)) && s@ == v,
                None => r matches Err(GitError::MalformedObject),
            },
            Object::Commit(c) => if fmt == ObjectType::Tree {
                match kv_first(c.kvlm@, tree_key()) {
                    Some(v) => r matches Ok(PeelStep::Follow(s)) && s@ == v,
                    None => r matches Err(GitError::MalformedObject),
                }
            } else {
                r matches Ok(PeelStep::NotFound)
            },
            _ => r matches Ok(PeelStep::NotFound),
        },
{
    if obj.fmt() == fmt {
        return Ok(PeelStep::Done);
    }
    if !follow {
        return Ok(PeelStep::NotFound);
    }
    match obj {
        Object::Tag(t) => {
            let key = vec![111u8, 98u8, 106u8, 101u8, 99u8, 116u8];
            assert(key@ =~= object_key());
            match t.kvlm.get(&key) {
                Some(vs) => {
                    if vs.len() > 0 {
                        let v = crate::bytes::bytes_range(&vs[0], 0, vs[0].len());
                        proof {
                            assert(vs@.map_values(|x: Vec<u8>| x@)[0] == vs@[0]@);
                        }
                        Ok(PeelStep::Follow(v))
                    } else {
                        Err(GitError::MalformedObject)
                    }
                },
                None => Err(GitError::MalformedObject),
            }
        },
        Object::Commit(c) => {
            if fmt == ObjectType::Tree {
                match commit_tree(c) {
                    Some(v) => Ok(PeelStep::Follow(v)),
                    None => Err(GitError::MalformedObject),
                }
            } else {
                Ok(PeelStep::NotFound)
            }
        },
        _ => Ok(PeelStep::NotFound),
    }
}

/// The `ref: ` prefix of an indirect reference file.
pub open spec fn ref_prefix() -> Seq<u8> {
    seq![114u8, 101u8, 102u8, 58u8, 32u8]
}

/// What one reference file holds.
pub enum RefTarget {
    /// Another reference to resolve, named after `ref: `.
    Indirect(Vec<u8>),
    /// A raw object id.
    Direct(Vec<u8>),
}

/// Reads one level of reference indirection from a file's content.
pub fn ref_parse(data: &Vec<u8>) -> (r: RefTarget)
    ensures
        ({
            let t = trim_end_spec(data@);
            &&& spec_starts_with(t, ref_prefix()) ==> (r matches RefTarget::Indirect(p) && p@
                == t.skip(5))
            &&& !spec_starts_with(t, ref_prefix()) ==> (r matches RefTarget::Direct(d) && d@ == t)
        }),
{
    let t = crate::bytes::trim_end(data);
    let pfx = vec![114u8, 101u8, 102u8, 58u8, 32u8];
    assert(pfx@ =~= ref_prefix());
    if crate::bytes::starts_with(&t, &pfx) {
        let rest = crate::bytes::bytes_range(&t, 5, t.len());
        assert(rest@ =~= trim_end_spec(data@).skip(5));
        RefTarget::Indirect(rest)
    } else {
        RefTarget::Direct(t)
    }
}

/// The `ref: refs/heads/` prefix naming an active branch.
pub open spec fn head_branch_prefix() -> Seq<u8> {
    seq![
        114u8, 101u8, 102u8, 58u8, 32u8, 114u8, 101u8, 102u8, 115u8, 47u8, 104u8, 101u8, 97u8,
        100u8, 115u8, 47u8,
    ]
}

/// The branch `HEAD` names, when it names one symbolically.
pub fn branch_from_head(data: &Vec<u8>) -> (r: Option<Vec<u8>>)
    ensures
        spec_starts_with(data@, head_branch_prefix()) ==> (r matches Some(b) && b@ == trim_spec(
            data@.skip(16),
        )),
        !spec_starts_with(data@, head_branch_prefix()) ==> r is None,
{
    let pfx = vec![
        114u8, 101u8, 102u8, 58u8, 32u8, 114u8, 101u8, 102u8, 115u8, 47u8, 104u8, 101u8, 97u8,
        100u8, 115u8, 47u8,
    ];
    assert(pfx@ =~= head_branch_prefix());
    if crate::bytes::starts_with(data, &pfx) {
        let rest = crate::bytes::bytes_range(data, 16, data.len());
        assert(rest@ =~= data@.skip(16));
        Some(crate::bytes::trim(&rest))
    } else {
        None
    }
}

/// Whether the repository configuration's declared format version is
/// supported: only version zero is.
pub fn config_version_supported(version: i64) -> (r: bool)
    ensures
        r == (version == 0),
{
    version == 0
}

} // verus!
