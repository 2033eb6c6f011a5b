//! The tree object codec.  A tree is an ordered set of leaves; its canonical
//! serialization sorts leaves lexicographically by path, treating a subtree's
//! path as if it ended in a slash, and encodes each leaf as
//! `<mode> <path>\0<20-byte-sha>` with no separator.

use vstd::prelude::*;

use crate::bytes::{find_from, lex_lt};
use crate::error::GitError;
use crate::hexcode::{hex_of, unhex_of, is_lower_hex, is_lower_hex_digit};
use vstd::multiset::Multiset;

verus! {

/// One tree entry: a mode string, a path, and an object id in hex.
pub struct TreeLeaf {
    pub mode: Vec<u8>,
    pub path: Vec<u8>,
    pub sha: Vec<u8>,
}

impl View for TreeLeaf {
    type V = (Seq<u8>, Seq<u8>, Seq<u8>);

    open spec fn view(&self) -> (Seq<u8>, Seq<u8>, Seq<u8>) {
        (self.mode@, self.path@, self.sha@)
    }
}

/// The mathematical shape of a leaf list.
pub open spec fn leaves_view(s: Seq<TreeLeaf>) -> Seq<(Seq<u8>, Seq<u8>, Seq<u8>)> {
    s.map_values(|l: TreeLeaf| l@)
}

/// An ordered set of leaves.
pub struct Tree {
    pub items: Vec<TreeLeaf>,
}

impl View for Tree {
    type V = Seq<(Seq<u8>, Seq<u8>, Seq<u8>)>;

    open spec fn view(&self) -> Seq<(Seq<u8>, Seq<u8>, Seq<u8>)> {
        leaves_view(self.items@)
    }
}

/// Whether a mode denotes a subtree: it begins with octal `04`.
pub open spec fn is_subtree_mode(mode: Seq<u8>) -> bool {
    mode.len() >= 2 && mode[0] == 48 && mode[1] == 52
}

/// The sort key: the path, with a trailing slash when the leaf is a subtree.
pub open spec fn sort_key(l: (Seq<u8>, Seq<u8>, Seq<u8>)) -> Seq<u8> {
    if is_subtree_mode(l.0) {
        l.1 + seq![47u8]
    } else {
        l.1
    }
}

/// A leaf the codec round-trips: a six-byte mode free of space and NUL, a
/// path free of NUL, and a 40-digit lowercase hex id.
pub open spec fn leaf_wf(l: (Seq<u8>, Seq<u8>, Seq<u8>)) -> bool {
    &&& l.0.len() == 6
    &&& forall|i: int| 0 <= i < l.0.len() ==> #[trigger] l.0[i] != 32 && l.0[i] != 0
    &&& forall|i: int| 0 <= i < l.1.len() ==> #[trigger] l.1[i] != 0
    &&& l.2.len() == 40
    &&& is_lower_hex(l.2)
}

pub open spec fn tree_wf(s: Seq<(Seq<u8>, Seq<u8>, Seq<u8>)>) -> bool {
    forall|i: int| 0 <= i < s.len() ==> leaf_wf(#[trigger] s[i])
}

/// The on-disk bytes of one leaf.
pub open spec fn leaf_ser(l: (Seq<u8>, Seq<u8>, Seq<u8>)) -> Seq<u8> {
    l.0 + seq![32u8] + l.1 + seq![0u8] + unhex_of(l.2)
}

/// The on-disk bytes of a leaf list, in the order given.
pub open spec fn leaves_ser(s: Seq<(Seq<u8>, Seq<u8>, Seq<u8>)>) -> Seq<u8>
    decreases s.len(),
{
    if s.len() == 0 {
        seq![]
    } else {
        leaf_ser(s[0]) + leaves_ser(s.skip(1))
    }
}

/// Insertion into a sorted prefix: a new leaf goes before the first leaf
/// whose key is strictly greater, so equal keys keep their original order.
pub open spec fn insert_sorted(
    l: (Seq<u8>, Seq<u8>, Seq<u8>),
    s: Seq<(Seq<u8>, Seq<u8>, Seq<u8>)>,
) -> Seq<(Seq<u8>, Seq<u8>, Seq<u8>)>
    decreases s.len(),
{
    if s.len() == 0 {
        seq![l]
    } else if lex_lt(sort_key(l), sort_key(s[0])) {
        seq![l] + s
    } else {
        seq![s[0]] + insert_sorted(l, s.skip(1))
    }
}

/// The stable insertion sort of a leaf list by its sort keys.
pub open spec fn sort_leaves(s: Seq<(Seq<u8>, Seq<u8>, Seq<u8>)>) -> Seq<
    (Seq<u8>, Seq<u8>, Seq<u8>),
>
    decreases s.len(),
{
    if s.len() == 0 {
        seq![]
    } else {
        insert_sorted(s.last(), sort_leaves(s.drop_last()))
    }
}

/// Non-decreasing by sort key.
pub open spec fn leaves_sorted(s: Seq<(Seq<u8>, Seq<u8>, Seq<u8>)>) -> bool {
    forall|i: int, j: int|
        0 <= i < j < s.len() ==> !lex_lt(sort_key(#[trigger] s[j]), sort_key(#[trigger] s[i]))
}

proof fn lemma_insert_sorted_len(l: (Seq<u8>, Seq<u8>, Seq<u8>), s: Seq<(Seq<u8>, Seq<u8>, Seq<u8>)>)
    ensures
        insert_sorted(l, s).len() == s.len() + 1,
        insert_sorted(l, s).to_multiset() == s.to_multiset().insert(l),
    decreases s.len(),
{
    broadcast use vstd::seq_lib::group_seq_properties;

    if s.len() == 0 {
        assert(insert_sorted(l, s) =~= Seq::<(Seq<u8>, Seq<u8>, Seq<u8>)>::empty().push(l));
        assert(insert_sorted(l, s).to_multiset() =~= s.to_multiset().insert(l));
    } else if lex_lt(sort_key(l), sort_key(s[0])) {
        assert(insert_sorted(l, s) =~= s.insert(0, l));
        vstd::seq_lib::lemma_multiset_commutative(seq![l], s);
        assert(seq![l] + s =~= s.insert(0, l));
        assert(seq![l].to_multiset() =~= Multiset::<(Seq<u8>, Seq<u8>, Seq<u8>)>::empty().insert(
            l,
        )) by {
            assert(seq![l] =~= Seq::<(Seq<u8>, Seq<u8>, Seq<u8>)>::empty().push(l));
        }
        assert(insert_sorted(l, s).to_multiset() =~= s.to_multiset().insert(l));
    } else {
        lemma_insert_sorted_len(l, s.skip(1));
        vstd::seq_lib::lemma_multiset_commutative(seq![s[0]], insert_sorted(l, s.skip(1)));
        vstd::seq_lib::lemma_multiset_commutative(seq![s[0]], s.skip(1));
        assert(seq![s[0]] + s.skip(1) =~= s);
        assert(insert_sorted(l, s).to_multiset() =~= s.to_multiset().insert(l));
    }
}

/// Sorting keeps exactly the same leaves.
pub proof fn lemma_sort_leaves_multiset(s: Seq<(Seq<u8>, Seq<u8>, Seq<u8>)>)
    ensures
        sort_leaves(s).len() == s.len(),
        sort_leaves(s).to_multiset() == s.to_multiset(),
    decreases s.len(),
{
    broadcast use vstd::seq_lib::group_seq_properties;

    if s.len() > 0 {
        lemma_sort_leaves_multiset(s.drop_last());
        lemma_insert_sorted_len(s.last(), sort_leaves(s.drop_last()));
        assert(s =~= s.drop_last().push(s.last()));
        assert(s.to_multiset() =~= s.drop_last().to_multiset().insert(s.last()));
    }
}

proof fn lemma_insert_sorted_sorted(
    l: (Seq<u8>, Seq<u8>, Seq<u8>),
    s: Seq<(Seq<u8>, Seq<u8>, Seq<u8>)>,
)
    requires
        leaves_sorted(s),
    ensures
        leaves_sorted(insert_sorted(l, s)),
    decreases s.len(),
{
    let r = insert_sorted(l, s);
    if s.len() == 0 {
    } else if lex_lt(sort_key(l), sort_key(s[0])) {
        assert forall|i: int, j: int| 0 <= i < j < r.len() implies !lex_lt(
            sort_key(#[trigger] r[j]),
            sort_key(#[trigger] r[i]),
        ) by {
            if i == 0 {
                assert(r[j] == s[j - 1]);
                if j == 1 {
                    crate::bytes::lemma_lex_lt_irrefl(sort_key(l));
                    if lex_lt(sort_key(s[0]), sort_key(l)) {
                        crate::bytes::lemma_lex_lt_trans(sort_key(l), sort_key(s[0]), sort_key(l));
                    }
                } else {
                    if lex_lt(sort_key(s[j - 1]), sort_key(l)) {
                        crate::bytes::lemma_lex_lt_trans(
                            sort_key(s[j - 1]),
                            sort_key(l),
                            sort_key(s[0]),
                        );
                    }
                }
            } else {
                assert(r[i] == s[i - 1] && r[j] == s[j - 1]);
            }
        }
    } else {
        assert forall|i: int, j: int| 0 <= i < j < s.skip(1).len() implies !lex_lt(
            sort_key(#[trigger] s.skip(1)[j]),
            sort_key(#[trigger] s.skip(1)[i]),
        ) by {
            assert(s.skip(1)[j] == s[j + 1] && s.skip(1)[i] == s[i + 1]);
        }
        lemma_insert_sorted_sorted(l, s.skip(1));
        lemma_insert_sorted_len(l, s.skip(1));
        let tail = insert_sorted(l, s.skip(1));
        // Everything in the inserted tail is either `l` or a later element
        // of `s`, and neither is smaller than `s[0]`.
        crate::bytes::lemma_lex_lt_total(sort_key(l), sort_key(s[0]));
        assert forall|j: int| 0 <= j < tail.len() implies !lex_lt(
            sort_key(#[trigger] tail[j]),
            sort_key(s[0]),
        ) by {
            lemma_insert_sorted_membership(l, s.skip(1), j);
            if tail[j] == l {
                if lex_lt(sort_key(l), sort_key(s[0])) {
                }
            } else {
                let x = choose|x: int| 0 <= x < s.skip(1).len() && s.skip(1)[x] == tail[j];
                assert(s.skip(1)[x] == s[x + 1]);
                if lex_lt(sort_key(tail[j]), sort_key(s[0])) {
                    assert(!lex_lt(sort_key(s[x + 1]), sort_key(s[0])));
                }
            }
        }
        assert forall|i: int, j: int| 0 <= i < j < r.len() implies !lex_lt(
            sort_key(#[trigger] r[j]),
            sort_key(#[trigger] r[i]),
        ) by {
            if i == 0 {
                assert(r[j] == tail[j - 1]);
            } else {
                assert(r[i] == tail[i - 1] && r[j] == tail[j - 1]);
            }
        }
    }
}

/// Every element of an insertion is the new leaf or one of the old ones.
proof fn lemma_insert_sorted_membership(
    l: (Seq<u8>, Seq<u8>, Seq<u8>),
    s: Seq<(Seq<u8>, Seq<u8>, Seq<u8>)>,
    j: int,
)
    requires
        0 <= j < insert_sorted(l, s).len(),
    ensures
        insert_sorted(l, s)[j] == l || exists|x: int|
            0 <= x < s.len() && s[x] == insert_sorted(l, s)[j],
    decreases s.len(),
{
    if s.len() == 0 {
    } else if lex_lt(sort_key(l), sort_key(s[0])) {
        if j > 0 {
            assert(insert_sorted(l, s)[j] == s[j - 1]);
        }
    } else {
        if j == 0 {
            assert(insert_sorted(l, s)[0] == s[0]);
        } else {
            lemma_insert_sorted_membership(l, s.skip(1), j - 1);
            assert(insert_sorted(l, s)[j] == insert_sorted(l, s.skip(1))[j - 1]);
            if insert_sorted(l, s.skip(1))[j - 1] != l {
                let x = choose|x: int|
                    0 <= x < s.skip(1).len() && s.skip(1)[x] == insert_sorted(l, s.skip(1))[j - 1];
                assert(s[x + 1] == insert_sorted(l, s)[j]);
            }
        }
    }
}

/// The canonical order is what sorting yields.
pub proof fn lemma_sort_leaves_sorted(s: Seq<(Seq<u8>, Seq<u8>, Seq<u8>)>)
    ensures
        leaves_sorted(sort_leaves(s)),
    decreases s.len(),
{
    if s.len() > 0 {
        lemma_sort_leaves_sorted(s.drop_last());
        lemma_insert_sorted_sorted(s.last(), sort_leaves(s.drop_last()));
    }
}

/// Inserting a leaf no smaller than every element appends it.
proof fn lemma_insert_sorted_at_end(
    l: (Seq<u8>, Seq<u8>, Seq<u8>),
    s: Seq<(Seq<u8>, Seq<u8>, Seq<u8>)>,
)
    requires
        forall|i: int| 0 <= i < s.len() ==> !lex_lt(sort_key(l), sort_key(#[trigger] s[i])),
    ensures
        insert_sorted(l, s) == s.push(l),
    decreases s.len(),
{
    if s.len() == 0 {
        assert(insert_sorted(l, s) =~= s.push(l));
    } else {
        assert forall|i: int| 0 <= i < s.skip(1).len() implies !lex_lt(
            sort_key(l),
            sort_key(#[trigger] s.skip(1)[i]),
        ) by {
            assert(s.skip(1)[i] == s[i + 1]);
        }
        lemma_insert_sorted_at_end(l, s.skip(1));
        assert(insert_sorted(l, s) =~= s.push(l));
    }
}

/// Sorting an already sorted list changes nothing.
pub proof fn lemma_sort_leaves_id(s: Seq<(Seq<u8>, Seq<u8>, Seq<u8>)>)
    requires
        leaves_sorted(s),
    ensures
        sort_leaves(s) == s,
    decreases s.len(),
{
    if s.len() > 0 {
        assert forall|i: int, j: int| 0 <= i < j < s.drop_last().len() implies !lex_lt(
            sort_key(#[trigger] s.drop_last()[j]),
            sort_key(#[trigger] s.drop_last()[i]),
        ) by {
            assert(s.drop_last()[j] == s[j] && s.drop_last()[i] == s[i]);
        }
        lemma_sort_leaves_id(s.drop_last());
        assert forall|i: int| 0 <= i < s.drop_last().len() implies !lex_lt(
            sort_key(s.last()),
            sort_key(#[trigger] s.drop_last()[i]),
        ) by {
            assert(s.drop_last()[i] == s[i]);
        }
        lemma_insert_sorted_at_end(s.last(), s.drop_last());
        assert(s.drop_last().push(s.last()) =~= s);
    }
}

/// The parse of a tree payload from `pos` on: leaves in file order, each
/// mode normalized to six digits; `None` on a malformed buffer.
pub open spec fn tree_parse_spec(raw: Seq<u8>, pos: int) -> Option<Seq<(Seq<u8>, Seq<u8>, Seq<u8>)>>
    decreases raw.len() - pos + 1,
{
    if pos < 0 {
        None
    } else if pos >= raw.len() {
        Some(seq![])
    } else {
        match find_from(raw, pos, 32) {
            None => None,
            Some(spc) => {
                if spc - pos != 5 && spc - pos != 6 {
                    None
                } else {
                    let mode0 = raw.subrange(pos, spc);
                    let mode = if spc - pos == 5 {
                        seq![48u8] + mode0
                    } else {
                        mode0
                    };
                    match find_from(raw, spc, 0) {
                        None => None,
                        Some(nul) => {
                            if nul + 21 > raw.len() || !(pos <= spc < nul) {
                                None
                            } else {
                                let path = raw.subrange(spc + 1, nul);
                                let sha = hex_of(raw.subrange(nul + 1, nul + 21));
                                match tree_parse_spec(raw, nul + 21) {
                                    None => None,
                                    Some(rest) => Some(seq![(mode, path, sha)] + rest),
                                }
                            }
                        },
                    }
                }
            },
        }
    }
}

/// Parsing a serialized well-formed leaf list from `pos` restores it.
proof fn lemma_tree_parse_tail(raw: Seq<u8>, pos: int, s: Seq<(Seq<u8>, Seq<u8>, Seq<u8>)>)
    requires
        0 <= pos <= raw.len(),
        raw.skip(pos) == leaves_ser(s),
        tree_wf(s),
    ensures
        tree_parse_spec(raw, pos) == Some(s),
    decreases s.len(),
{
    let srl = raw.skip(pos);
    if s.len() == 0 {
        assert(srl.len() == 0);
        assert(pos >= raw.len());
        assert(tree_parse_spec(raw, pos) == Some(Seq::<(Seq<u8>, Seq<u8>, Seq<u8>)>::empty()));
        assert(s =~= Seq::<(Seq<u8>, Seq<u8>, Seq<u8>)>::empty());
    } else {
        let l = s[0];
        assert(leaf_wf(l));
        let lser = leaf_ser(l);
        crate::hexcode::lemma_unhex_of_len(l.2);
        let plen = l.1.len() as int;
        assert(lser.len() == 6 + 1 + plen + 1 + 20);
        assert(leaves_ser(s) == lser + leaves_ser(s.skip(1)));
        assert forall|j: int| 0 <= j < lser.len() implies raw[pos + j] == lser[j] by {
            assert(srl[j] == raw[pos + j]);
            assert(srl[j] == (lser + leaves_ser(s.skip(1)))[j]);
        }
        let spc = pos + 6;
        let nul = pos + 7 + plen;
        assert forall|j: int| pos <= j < spc implies raw[j] != 32 by {
            assert(raw[j] == lser[j - pos]);
            assert(lser[j - pos] == l.0[j - pos]);
        }
        assert(raw[spc] == 32) by {
            assert(lser[6] == 32);
        }
        crate::bytes::lemma_find_from_is(raw, pos, 32, spc);
        assert forall|j: int| spc <= j < nul implies raw[j] != 0 by {
            assert(raw[j] == lser[j - pos]);
            if j > spc {
                assert(lser[j - pos] == l.1[j - pos - 7]);
            }
        }
        assert(raw[nul] == 0) by {
            assert(lser[7 + plen] == 0);
        }
        crate::bytes::lemma_find_from_is(raw, spc, 0, nul);
        assert(nul + 21 <= raw.len());
        assert(raw.subrange(pos, spc) =~= l.0) by {
            assert forall|j: int| 0 <= j < 6 implies raw.subrange(pos, spc)[j] == l.0[j] by {
                assert(raw[pos + j] == lser[j]);
            }
        }
        assert(raw.subrange(spc + 1, nul) =~= l.1) by {
            assert forall|j: int| 0 <= j < plen implies raw.subrange(spc + 1, nul)[j] == l.1[j] by {
                assert(raw[spc + 1 + j] == lser[7 + j]);
                assert(lser[7 + j] == l.1[j]);
            }
        }
        assert(raw.subrange(nul + 1, nul + 21) =~= unhex_of(l.2)) by {
            assert forall|j: int| 0 <= j < 20 implies raw.subrange(nul + 1, nul + 21)[j] == unhex_of(
                l.2,
            )[j] by {
                assert(raw[nul + 1 + j] == lser[8 + plen + j]);
                assert(lser[8 + plen + j] == unhex_of(l.2)[j]);
            }
        }
        crate::hexcode::lemma_hex_unhex(l.2);
        assert(hex_of(raw.subrange(nul + 1, nul + 21)) == l.2);
        assert(raw.skip(nul + 21) =~= leaves_ser(s.skip(1))) by {
            assert forall|j: int| 0 <= j < raw.len() - nul - 21 implies raw.skip(nul + 21)[j]
                == leaves_ser(s.skip(1))[j] by {
                assert(raw.skip(nul + 21)[j] == raw[nul + 21 + j]);
                assert(srl[lser.len() + j] == raw[nul + 21 + j]);
                assert(srl[lser.len() + j] == (lser + leaves_ser(s.skip(1)))[lser.len() + j]);
            }
        }
        assert forall|i: int| 0 <= i < s.skip(1).len() implies leaf_wf(#[trigger] s.skip(1)[i]) by {
            assert(s.skip(1)[i] == s[i + 1]);
        }
        lemma_tree_parse_tail(raw, nul + 21, s.skip(1));
        assert(tree_parse_spec(raw, pos) == Some(seq![(l.0, l.1, l.2)] + s.skip(1)));
        assert((l.0, l.1, l.2) == l);
        assert(seq![l] + s.skip(1) =~= s);
    }
}

/// Deserializing a serialized tree restores it, provided its leaves already
/// stand in canonical order.
pub proof fn lemma_tree_round_trip(s: Seq<(Seq<u8>, Seq<u8>, Seq<u8>)>)
    requires
        tree_wf(s),
        leaves_sorted(s),
    ensures
        tree_parse_spec(leaves_ser(sort_leaves(s)), 0) == Some(s),
{
    lemma_sort_leaves_id(s);
    let raw = leaves_ser(s);
    assert(raw.skip(0) =~= raw);
    lemma_tree_parse_tail(raw, 0, s);
}

/// Every leaf of the sorted list is a leaf of the original.
proof fn lemma_sort_preserves_wf(s: Seq<(Seq<u8>, Seq<u8>, Seq<u8>)>)
    requires
        tree_wf(s),
    ensures
        tree_wf(sort_leaves(s)),
{
    broadcast use vstd::seq_lib::group_seq_properties;

    lemma_sort_leaves_multiset(s);
    assert forall|i: int| 0 <= i < sort_leaves(s).len() implies leaf_wf(
        #[trigger] sort_leaves(s)[i],
    ) by {
        let x = sort_leaves(s)[i];
        assert(sort_leaves(s).to_multiset().contains(x)) by {
            sort_leaves(s).to_multiset_ensures();
            assert(sort_leaves(s).contains(x));
        }
        assert(s.to_multiset().contains(x));
        s.to_multiset_ensures();
        assert(s.contains(x));
        let j = choose|j: int| 0 <= j < s.len() && s[j] == x;
        assert(leaf_wf(s[j]));
    }
}

/// A fresh leaf with the same fields.
pub fn leaf_copy(l: &TreeLeaf) -> (r: TreeLeaf)
    ensures
        r@ == l@,
{
    TreeLeaf {
        mode: crate::bytes::bytes_range(&l.mode, 0, l.mode.len()),
        path: crate::bytes::bytes_range(&l.path, 0, l.path.len()),
        sha: crate::bytes::bytes_range(&l.sha, 0, l.sha.len()),
    }
}

/// The sort key of a leaf.
fn sort_key_exec(l: &TreeLeaf) -> (r: Vec<u8>)
    ensures
        r@ == sort_key(l@),
{
    let mut r = crate::bytes::bytes_range(&l.path, 0, l.path.len());
    let subtree = l.mode.len() >= 2 && l.mode[0] == 48 && l.mode[1] == 52;
    if subtree {
        r.push(47);
        assert(r@ =~= l.path@ + seq![47u8]);
    }
    r
}

/// Insertion at the first strictly greater key splits the list there.
proof fn lemma_insert_sorted_split(
    l: (Seq<u8>, Seq<u8>, Seq<u8>),
    s: Seq<(Seq<u8>, Seq<u8>, Seq<u8>)>,
    j: int,
)
    requires
        0 <= j <= s.len(),
        forall|x: int| 0 <= x < j ==> !lex_lt(sort_key(l), sort_key(#[trigger] s[x])),
        j < s.len() ==> lex_lt(sort_key(l), sort_key(s[j])),
    ensures
        insert_sorted(l, s) == s.take(j) + seq![l] + s.skip(j),
    decreases j,
{
    if s.len() == 0 {
        assert(insert_sorted(l, s) =~= s.take(j) + seq![l] + s.skip(j));
    } else if j == 0 {
        assert(s.take(0) =~= Seq::<(Seq<u8>, Seq<u8>, Seq<u8>)>::empty());
        assert(s.skip(0) =~= s);
        assert(insert_sorted(l, s) =~= s.take(j) + seq![l] + s.skip(j));
    } else {
        assert forall|x: int| 0 <= x < j - 1 implies !lex_lt(
            sort_key(l),
            sort_key(#[trigger] s.skip(1)[x]),
        ) by {
            assert(s.skip(1)[x] == s[x + 1]);
        }
        if j - 1 < s.skip(1).len() {
            assert(s.skip(1)[j - 1] == s[j]);
        }
        lemma_insert_sorted_split(l, s.skip(1), j - 1);
        assert(insert_sorted(l, s) =~= s.take(j) + seq![l] + s.skip(j)) by {
            assert(insert_sorted(l, s) == seq![s[0]] + insert_sorted(l, s.skip(1)));
            assert forall|x: int| 0 <= x < insert_sorted(l, s).len() implies insert_sorted(l, s)[x]
                == (s.take(j) + seq![l] + s.skip(j))[x] by {
                lemma_insert_sorted_len(l, s);
                lemma_insert_sorted_len(l, s.skip(1));
                if x > 0 {
                    assert(insert_sorted(l, s)[x] == insert_sorted(l, s.skip(1))[x - 1]);
                    assert(insert_sorted(l, s.skip(1))[x - 1] == (s.skip(1).take(j - 1) + seq![l]
                        + s.skip(1).skip(j - 1))[x - 1]);
                    if x - 1 < j - 1 {
                        assert(s.skip(1).take(j - 1)[x - 1] == s[x]);
                        assert((s.take(j) + seq![l] + s.skip(j))[x] == s.take(j)[x]);
                    } else if x - 1 > j - 1 {
                        assert(s.skip(1).skip(j - 1)[x - 1 - (j - 1) - 1] == s[x - 1]);
                        assert((s.take(j) + seq![l] + s.skip(j))[x] == s.skip(j)[x - j - 1]);
                        assert(s.skip(j)[x - j - 1] == s[x - 1]);
                    }
                }
            }
        }
    }
}

/// Inserts a leaf into a key-sorted vector, before the first strictly
/// greater key.
#[verifier::loop_isolation(false)]
fn insert_leaf(l: TreeLeaf, s: Vec<TreeLeaf>) -> (r: Vec<TreeLeaf>)
    ensures
        leaves_view(r@) == insert_sorted(l@, leaves_view(s@)),
{
    let ghost lv = l@;
    let ghost sv = leaves_view(s@);
    let key = sort_key_exec(&l);
    let mut j: usize = 0;
    let mut s = s;
    while j < s.len()
        invariant
            j <= s@.len(),
            sv == leaves_view(s@),
            key@ == sort_key(lv),
            lv == l@,
            forall|x: int| 0 <= x < j ==> !lex_lt(sort_key(lv), sort_key(#[trigger] sv[x])),
        decreases s@.len() - j,
    {
        proof {
            assert(sv[j as int] == s@[j as int]@);
        }
        let kj = sort_key_exec(&s[j]);
        if crate::bytes::bytes_lt(&key, &kj) {
            proof {
                lemma_insert_sorted_split(lv, sv, j as int);
            }
            let ghost pre = s@;
            s.insert(j, l);
            proof {
                assert(leaves_view(s@) =~= sv.take(j as int) + seq![lv] + sv.skip(j as int)) by {
                    assert forall|x: int| 0 <= x < leaves_view(s@).len() implies leaves_view(s@)[x]
                        == (sv.take(j as int) + seq![lv] + sv.skip(j as int))[x] by {
                        assert(leaves_view(s@)[x] == s@[x]@);
                        if x < j {
                            assert(s@[x] == pre[x]);
                            assert(sv[x] == pre[x]@);
                        } else if x > j {
                            assert(s@[x] == pre[x - 1]);
                            assert(sv[x - 1] == pre[x - 1]@);
                            assert((sv.take(j as int) + seq![lv] + sv.skip(j as int))[x]
                                == sv.skip(j as int)[x - j - 1]);
                        }
                    }
                }
            }
            return s;
        }
        j = j + 1;
    }
    proof {
        lemma_insert_sorted_split(lv, sv, sv.len() as int);
    }
    let ghost slen = s@.len();
    s.push(l);
    proof {
        assert(leaves_view(s@) =~= sv.take(slen as int) + seq![lv] + sv.skip(slen as int)) by {
            assert(sv.take(slen as int) =~= sv);
            assert(sv.skip(slen as int) =~= Seq::<(Seq<u8>, Seq<u8>, Seq<u8>)>::empty());
            assert forall|x: int| 0 <= x < leaves_view(s@).len() implies leaves_view(s@)[x] == (
            sv.take(slen as int) + seq![lv] + sv.skip(slen as int))[x] by {
                assert(leaves_view(s@)[x] == s@[x]@);
            }
        }
    }
    s
}

/// The leaves in canonical serialization order.
pub fn sorted_leaves(items: &Vec<TreeLeaf>) -> (r: Vec<TreeLeaf>)
    ensures
        leaves_view(r@) == sort_leaves(leaves_view(items@)),
{
    let ghost iv = leaves_view(items@);
    let mut acc: Vec<TreeLeaf> = Vec::new();
    let mut i: usize = 0;
    assert(leaves_view(acc@) =~= sort_leaves(iv.take(0)));
    while i < items.len()
        invariant
            i <= items@.len(),
            iv == leaves_view(items@),
            leaves_view(acc@) == sort_leaves(iv.take(i as int)),
        decreases items@.len() - i,
    {
        proof {
            assert(iv[i as int] == items@[i as int]@);
            assert(iv.take(i + 1).drop_last() =~= iv.take(i as int));
            assert(iv.take(i + 1).last() == iv[i as int]);
        }
        let l = leaf_copy(&items[i]);
        acc = insert_leaf(l, acc);
        i = i + 1;
    }
    proof {
        assert(iv.take(iv.len() as int) =~= iv);
    }
    acc
}

/// Serializes a tree to its canonical bytes: leaves sorted by key, each as
/// mode, space, path, NUL and the raw twenty-byte id.
pub fn tree_serialize(tree: &Tree) -> (r: Vec<u8>)
    requires
        tree_wf(tree@),
    ensures
        r@ == leaves_ser(sort_leaves(tree@)),
{
    let sorted = sorted_leaves(&tree.items);
    let ghost sv = sort_leaves(tree@);
    proof {
        lemma_sort_preserves_wf(tree@);
    }
    let mut out: Vec<u8> = Vec::new();
    let mut i: usize = 0;
    assert(sv.skip(0) =~= sv);
    while i < sorted.len()
        invariant
            i <= sorted@.len(),
            sv == leaves_view(sorted@),
            tree_wf(sv),
            leaves_ser(sv) == out@ + leaves_ser(sv.skip(i as int)),
        decreases sorted@.len() - i,
    {
        proof {
            assert(sv.skip(i as int)[0] == sv[i as int]);
            assert(sv[i as int] == sorted@[i as int]@);
            assert(sv.skip(i as int).skip(1) =~= sv.skip(i + 1));
            assert(leaf_wf(sv[i as int]));
        }
        let l = &sorted[i];
        crate::bytes::push_bytes(&mut out, &l.mode);
        out.push(32);
        crate::bytes::push_bytes(&mut out, &l.path);
        out.push(0);
        match crate::hexcode::hex_decode(&l.sha) {
            Some(shabytes) => {
                proof {
                    crate::hexcode::lemma_hex_unhex(l.sha@);
                }
                crate::bytes::push_bytes(&mut out, &shabytes);
            },
            None => {
                proof {
                    assert(crate::hexcode::is_hex(l.sha@)) by {
                        assert forall|x: int|
                            0 <= x < l.sha@.len() implies crate::hexcode::is_hex_digit(
                            #[trigger] l.sha@[x],
                        ) by {
                            assert(is_lower_hex_digit(l.sha@[x]));
                        }
                    }
                    assert(false);
                }
            },
        }
        proof {
            assert(leaves_ser(sv) =~= out@ + leaves_ser(sv.skip(i + 1)));
        }
        i = i + 1;
    }
    proof {
        assert(leaves_ser(sv.skip(sv.len() as int)) =~= Seq::<u8>::empty());
        assert(out@ =~= leaves_ser(sv));
    }
    out
}

/// Parses leaves from `pos` to the end of the buffer.
fn tree_parse_at(raw: &Vec<u8>, pos: usize) -> (r: Result<Vec<TreeLeaf>, GitError>)
    ensures
        match tree_parse_spec(raw@, pos as int) {
            Some(s) => r matches Ok(v) && leaves_view(v@) == s,
            None => r matches Err(GitError::MalformedObject),
        },
    decreases raw@.len() - pos + 1,
{
    let len = raw.len();
    if pos >= len {
        let r: Vec<TreeLeaf> = Vec::new();
        assert(leaves_view(r@) =~= Seq::<(Seq<u8>, Seq<u8>, Seq<u8>)>::empty());
        return Ok(r);
    }
    let spc = match crate::bytes::find_byte(raw, pos, 32) {
        None => {
            return Err(GitError::MalformedObject);
        },
        Some(spc) => spc,
    };
    proof {
        crate::bytes::lemma_find_from(raw@, pos as int, 32);
    }
    if spc - pos != 5 && spc - pos != 6 {
        return Err(GitError::MalformedObject);
    }
    let mut mode = crate::bytes::bytes_range(raw, pos, spc);
    if spc - pos == 5 {
        mode.insert(0, 48);
        assert(mode@ =~= seq![48u8] + raw@.subrange(pos as int, spc as int));
    }
    let nul = match crate::bytes::find_byte(raw, spc, 0) {
        None => {
            return Err(GitError::MalformedObject);
        },
        Some(nul) => nul,
    };
    proof {
        crate::bytes::lemma_find_from(raw@, spc as int, 0);
    }
    if len - nul - 1 < 20 {
        assert(nul + 21 > raw@.len());
        return Err(GitError::MalformedObject);
    }
    assert(nul + 21 <= raw@.len());
    let path = crate::bytes::bytes_range(raw, spc + 1, nul);
    let sha_raw = crate::bytes::bytes_range(raw, nul + 1, nul + 21);
    let sha = crate::hexcode::hex_encode(&sha_raw);
    let leaf = TreeLeaf { mode, path, sha };
    match tree_parse_at(raw, nul + 21) {
        Err(e) => Err(e),
        Ok(rest) => {
            let ghost restv = leaves_view(rest@);
            let ghost lv = leaf@;
            let mut rest = rest;
            let ghost pre = rest@;
            rest.insert(0, leaf);
            proof {
                assert(leaves_view(rest@) =~= seq![lv] + restv) by {
                    assert forall|x: int| 0 <= x < leaves_view(rest@).len() implies leaves_view(
                        rest@,
                    )[x] == (seq![lv] + restv)[x] by {
                        assert(leaves_view(rest@)[x] == rest@[x]@);
                        if x > 0 {
                            assert(restv[x - 1] == pre[x - 1]@);
                        }
                    }
                }
            }
            Ok(rest)
        },
    }
}

impl Tree {
    /// Parses a tree payload; a missing delimiter, a malformed mode or a
    /// truncated id is reported, never silently dropped.
    pub fn deserialize(data: &Vec<u8>) -> (r: Result<Tree, GitError>)
        ensures
            match r {
                Ok(t) => tree_parse_spec(data@, 0) == Some(t@),
                Err(e) => tree_parse_spec(data@, 0) is None && e matches GitError::MalformedObject,
            },
    {
        match tree_parse_at(data, 0) {
            Ok(items) => Ok(Tree { items }),
            Err(e) => Err(e),
        }
    }

    /// The canonical bytes of this tree.
    pub fn serialize(&self) -> (r: Vec<u8>)
        requires
            tree_wf(self@),
        ensures
            r@ == leaves_ser(sort_leaves(self@)),
    {
        tree_serialize(self)
    }
}

} // verus!
