//! Compression: frequency counting, greedy code construction, and stream
//! assembly.
//!
//! The builder's heuristic is deliberately not optimal prefix coding: each
//! new entry splits the existing leaf whose count plus route-length-times-
//! new-count is least, landing on that leaf's left.  The stream format
//! does not depend on the heuristic; `compress` promises exactly that its
//! artifact decodes back to the input.

use vstd::prelude::*;
use crate::binarytree::{
    BinaryTree,
    BTreeNode,
    clone_bits,
    leaf_pairs_view,
    lemma_ser_then_parse,
    parse_node,
};
use crate::bitpack::{bytes_to_bits, pack_bits};
use crate::decompressor::{
    concat_routes,
    decode_payload,
    lemma_concat_routes_push,
    lemma_decode_concat,
    padding_of,
    spec_decompress,
};
use crate::error::CodecError;
use crate::savebits::{lemma_msb_bits_len, SaveBits};

verus! {

/// How many times `b` occurs in `data`.
pub open spec fn count_of(data: Seq<u8>, b: u8) -> nat
    decreases data.len(),
{
    if data.len() == 0 {
        0
    } else {
        count_of(data.drop_last(), b) + (if data.last() == b {
            1nat
        } else {
            0nat
        })
    }
}

pub proof fn lemma_count_of_le_len(data: Seq<u8>, b: u8)
    ensures
        count_of(data, b) <= data.len(),
    decreases data.len(),
{
    if data.len() > 0 {
        lemma_count_of_le_len(data.drop_last(), b);
    }
}

/// A byte that stands in `data` is counted at least once.
pub proof fn lemma_count_of_occurrence(data: Seq<u8>, idx: int)
    requires
        0 <= idx < data.len(),
    ensures
        count_of(data, data[idx]) >= 1,
    decreases data.len(),
{
    if idx < data.len() - 1 {
        lemma_count_of_occurrence(data.drop_last(), idx);
        assert(data.drop_last()[idx] == data[idx]);
    }
}

/// Descending order on frequency entries: by count, then by byte.
pub open spec fn pair_gt(a: (usize, u8), b: (usize, u8)) -> bool {
    a.0 > b.0 || (a.0 == b.0 && a.1 > b.1)
}

/// Tallies occurrences per distinct byte: every byte of `data` appears
/// exactly once, with its count, sorted descending by count then byte.
#[verifier::rlimit(60)]
pub fn count_uses(data: &[u8]) -> (r: Vec<(usize, u8)>)
    ensures
        r@.len() <= 256,
        data@.len() == 0 ==> r@.len() == 0,
        data@.len() > 0 ==> r@.len() >= 1,
        forall|i: int|
            0 <= i < r@.len() ==> (#[trigger] r@[i]).0 == count_of(data@, r@[i].1) && r@[i].0 >= 1,
        forall|b: u8|
            count_of(data@, b) >= 1 ==> exists|i: int|
                0 <= i < r@.len() && (#[trigger] r@[i]).1 == b,
        forall|i: int, j: int| 0 <= i < j < r@.len() ==> pair_gt(#[trigger] r@[i], #[trigger] r@[j]),
{
    let mut counts: Vec<usize> = Vec::new();
    let mut ci: usize = 0;
    while ci < 256
        invariant
            counts@.len() == ci <= 256,
            forall|b: int| 0 <= b < ci ==> (#[trigger] counts@[b]) == 0,
        decreases 256 - ci,
    {
        counts.push(0);
        ci += 1;
    }
    let mut idx: usize = 0;
    while idx < data.len()
        invariant
            0 <= idx <= data@.len(),
            counts@.len() == 256,
            forall|b: u8|
                (#[trigger] counts@[b as int]) as nat == count_of(data@.take(idx as int), b),
        decreases data@.len() - idx,
    {
        let b = data[idx];
        proof {
            assert forall|b2: u8|
                #[trigger] count_of(data@.take(idx + 1), b2) == count_of(
                data@.take(idx as int),
                b2,
            ) + (if b2 == b {
                1nat
            } else {
                0nat
            }) by {
                assert(data@.take(idx + 1).drop_last() =~= data@.take(idx as int));
                assert(data@.take(idx + 1).last() == data@[idx as int]);
            }
            lemma_count_of_le_len(data@.take(idx as int), b);
        }
        let c = counts[b as usize];
        counts[b as usize] = c + 1;
        idx += 1;
    }
    proof {
        assert(data@.take(data@.len() as int) =~= data@);
    }
    let mut r: Vec<(usize, u8)> = Vec::new();
    let mut bi: usize = 0;
    while bi < 256
        invariant
            0 <= bi <= 256,
            counts@.len() == 256,
            forall|b: u8| (#[trigger] counts@[b as int]) as nat == count_of(data@, b),
            r@.len() <= bi,
            forall|i: int|
                0 <= i < r@.len() ==> (#[trigger] r@[i]).0 == count_of(data@, r@[i].1) && r@[i].0
                    >= 1 && (r@[i].1 as int) < bi,
            forall|b: u8|
                (b as int) < bi && count_of(data@, b) >= 1 ==> exists|i: int|
                    0 <= i < r@.len() && (#[trigger] r@[i]).1 == b,
            forall|i: int, j: int|
                0 <= i < j < r@.len() ==> pair_gt(#[trigger] r@[i], #[trigger] r@[j]),
        decreases 256 - bi,
    {
        let c = counts[bi];
        if c > 0 {
            let e = (c, bi as u8);
            let ghost prev = r@;
            let mut k: usize = 0;
            while k < r.len() && (r[k].0 > c || (r[k].0 == c && r[k].1 > bi as u8))
                invariant
                    0 <= k <= r@.len(),
                    r@ == prev,
                    e == (c, bi as u8),
                    forall|i: int| 0 <= i < k ==> pair_gt(#[trigger] r@[i], e),
                decreases r@.len() - k,
            {
                k += 1;
            }
            proof {
                if (k as int) < r@.len() {
                    assert(!pair_gt(r@[k as int], e));
                    assert((r@[k as int].1 as int) < bi);
                    assert(pair_gt(e, r@[k as int]));
                }
            }
            r.insert(k, e);
            proof {
                let cur = r@;
                assert(cur == prev.insert(k as int, e));
                assert(cur.len() == prev.len() + 1);
                assert forall|i: int| 0 <= i < cur.len() implies (#[trigger] cur[i]).0 == count_of(
                    data@,
                    cur[i].1,
                ) && cur[i].0 >= 1 && (cur[i].1 as int) < bi + 1 by {
                    if i < k {
                        assert(cur[i] == prev[i]);
                    } else if i == k {
                        assert(cur[i] == e);
                    } else {
                        assert(cur[i] == prev[i - 1]);
                    }
                }
                assert forall|b: u8|
                    (b as int) < bi + 1 && count_of(data@, b) >= 1 implies exists|i: int|
                    0 <= i < cur.len() && (#[trigger] cur[i]).1 == b by {
                    if (b as int) == bi {
                        assert(cur[k as int].1 == b);
                    } else {
                        let iw = choose|iw: int| 0 <= iw < prev.len() && (#[trigger] prev[iw]).1 == b;
                        if iw < k {
                            assert(cur[iw].1 == b);
                        } else {
                            assert(cur[iw + 1] == prev[iw]);
                        }
                    }
                }
                assert forall|i: int, j: int| 0 <= i < j < cur.len() implies pair_gt(
                    #[trigger] cur[i],
                    #[trigger] cur[j],
                ) by {
                    if j < k {
                        assert(cur[i] == prev[i] && cur[j] == prev[j]);
                    } else if i > k {
                        assert(cur[i] == prev[i - 1] && cur[j] == prev[j - 1]);
                    } else if i == k {
                        assert(cur[i] == e && cur[j] == prev[j - 1]);
                        assert(k as int <= j - 1 < prev.len());
                        if k as int == j - 1 {
                        } else {
                            assert(pair_gt(prev[k as int], prev[j - 1]));
                            assert(pair_gt(e, prev[k as int]));
                        }
                    } else if j == k {
                        assert(cur[i] == prev[i] && cur[j] == e);
                    } else {
                        assert(cur[i] == prev[i] && cur[j] == prev[j - 1]);
                        if i == j - 1 {
                        } else {
                            assert(pair_gt(prev[i], prev[j - 1]));
                        }
                    }
                }
            }
        }
        bi += 1;
    }
    proof {
        if data@.len() == 0 && r@.len() > 0 {
            assert(r@[0].0 == count_of(data@, r@[0].1) && r@[0].0 >= 1);
        }
        if data@.len() > 0 {
            lemma_count_of_occurrence(data@, 0);
        }
    }
    r
}

/// The score a waiting entry gives an existing leaf: the leaf's count
/// plus the new entry's count once for each bit of the leaf's route.
pub open spec fn leaf_score(leaf: ((usize, u8), Seq<bool>), next_count: usize) -> int {
    leaf.0.0 + leaf.1.len() * next_count
}

/// The first leaf of least score, in left-to-right order.
pub open spec fn min_score_idx(leaves: Seq<((usize, u8), Seq<bool>)>, next_count: usize) -> int
    decreases leaves.len(),
{
    if leaves.len() <= 1 {
        0
    } else {
        let m = min_score_idx(leaves.drop_last(), next_count);
        if leaf_score(leaves.last(), next_count) < leaf_score(leaves[m], next_count) {
            leaves.len() - 1
        } else {
            m
        }
    }
}

pub proof fn lemma_min_score_idx_in_range(leaves: Seq<((usize, u8), Seq<bool>)>, next_count: usize)
    requires
        leaves.len() >= 1,
    ensures
        0 <= min_score_idx(leaves, next_count) < leaves.len(),
    decreases leaves.len(),
{
    if leaves.len() > 1 {
        lemma_min_score_idx_in_range(leaves.drop_last(), next_count);
    }
}

/// One step of the greedy builder: split the leaf of least score, the new
/// entry landing on its left.
pub open spec fn grow_step(tree: BTreeNode<(usize, u8)>, e: (usize, u8)) -> BTreeNode<
    (usize, u8),
> {
    let lvs = tree.leaves_spec();
    let i = min_score_idx(lvs, e.0);
    let bits = lvs[i].1.push(false);
    match tree.add_leaf_spec(e, bits, 0) {
        Some((t, d, p)) => t,
        None => tree,
    }
}

/// The tree the greedy builder grows: the first entry seeds a one-leaf
/// tree, each later entry splits the leaf of least score.
pub open spec fn build_tree_spec(entries: Seq<(usize, u8)>) -> BTreeNode<(usize, u8)>
    decreases entries.len(),
{
    if entries.len() <= 1 {
        BTreeNode::Leaf { value: entries[0] }
    } else {
        grow_step(build_tree_spec(entries.drop_last()), entries.last())
    }
}

/// The builder's tree has one leaf per entry, and every entry sits in a
/// leaf.
pub proof fn lemma_build_tree_coverage(entries: Seq<(usize, u8)>)
    requires
        entries.len() >= 1,
    ensures
        build_tree_spec(entries).leaf_count() == entries.len(),
        forall|j: int| #![trigger entries[j]]
            0 <= j < entries.len() ==> exists|i: int|
                0 <= i < build_tree_spec(entries).leaves_spec().len() && (
                #[trigger] build_tree_spec(entries).leaves_spec()[i]).0 == entries[j],
    decreases entries.len(),
{
    let t = build_tree_spec(entries);
    t.lemma_leaves_len();
    if entries.len() == 1 {
        assert(t.leaves_spec()[0].0 == entries[0]);
    } else {
        let prev = build_tree_spec(entries.drop_last());
        let e = entries.last();
        lemma_build_tree_coverage(entries.drop_last());
        prev.lemma_leaves_len();
        let lvs = prev.leaves_spec();
        lemma_min_score_idx_in_range(lvs, e.0);
        let sel = min_score_idx(lvs, e.0);
        let bits = lvs[sel].1.push(false);
        assert(bits.subrange(0, lvs[sel].1.len() as int) =~= lvs[sel].1);
        prev.lemma_add_along_route(sel, e, bits, 0);
        let (t2, d, p) = prev.add_leaf_spec(e, bits, 0)->Some_0;
        assert(t == t2);
        prev.lemma_add_leaf_bounds(e, bits, 0);
        let side = bits[lvs[sel].1.len() as int];
        assert(!side);
        let mid = seq![(e, lvs[sel].1.push(false)), (lvs[sel].0, lvs[sel].1.push(true))];
        assert(t2.leaves_spec() == lvs.subrange(0, sel) + mid + lvs.subrange(
            sel + 1,
            lvs.len() as int,
        ));
        assert forall|j: int| #![trigger entries[j]] 0 <= j < entries.len() implies exists|i: int|
            0 <= i < t.leaves_spec().len() && (#[trigger] t.leaves_spec()[i]).0 == entries[j] by {
            if j == entries.len() - 1 {
                assert(t.leaves_spec()[sel].0 == e);
            } else {
                assert(entries.drop_last()[j] == entries[j]);
                let iw = choose|iw: int|
                    0 <= iw < lvs.len() && (#[trigger] lvs[iw]).0 == entries.drop_last()[j];
                if iw < sel {
                    assert(t.leaves_spec()[iw].0 == lvs[iw].0);
                } else if iw == sel {
                    assert(t.leaves_spec()[sel + 1].0 == lvs[sel].0);
                } else {
                    assert(t.leaves_spec()[iw + 1].0 == lvs[iw].0);
                }
            }
        }
    }
}

/// Grows the greedy builder's tree from a non-empty frequency table, as
/// `build_tree_spec` describes; one leaf per entry.
pub fn build_tree(entries: &Vec<(usize, u8)>) -> (t: BinaryTree<(usize, u8)>)
    requires
        entries@.len() >= 1,
    ensures
        t.root == build_tree_spec(entries@),
        t.root.leaf_count() == entries@.len(),
{
    let mut tree = BinaryTree::new(entries[0]);
    proof {
        assert(entries@.take(1).len() == 1);
        assert(entries@.take(1)[0] == entries@[0]);
        lemma_build_tree_coverage(entries@.take(1));
    }
    let mut n: usize = 1;
    while n < entries.len()
        invariant
            1 <= n <= entries@.len(),
            tree.root == build_tree_spec(entries@.take(n as int)),
            tree.root.leaf_count() == n,
        decreases entries@.len() - n,
    {
        let e = entries[n];
        let leaves = tree.leaf_vec();
        proof {
            tree.root.lemma_leaves_len();
        }
        let ghost lvs = tree.root.leaves_spec();
        let mut best: usize = 0;
        let mut k: usize = 1;
        proof {
            assert(lvs.take(1).len() == 1);
            assert(min_score_idx(lvs.take(1), e.0) == 0);
        }
        while k < leaves.len()
            invariant
                0 <= best < k,
                1 <= k <= leaves@.len() || (k == 1 && leaves@.len() <= 1),
                leaf_pairs_view(leaves@) == lvs,
                e == entries@[n as int],
                best as int == min_score_idx(lvs.take(k as int), e.0),
            decreases leaves@.len() - k,
        {
            let kcnt = leaves[k].0.0;
            let klen = leaves[k].1.len();
            let bcnt = leaves[best].0.0;
            let blen = leaves[best].1.len();
            proof {
                assert(lvs[k as int] == (leaves@[k as int].0, leaves@[k as int].1@));
                assert(lvs[best as int] == (leaves@[best as int].0, leaves@[best as int].1@));
                assert((klen as u128) * (e.0 as u128) + (kcnt as u128) <= u128::MAX && (blen
                    as u128) * (e.0 as u128) + (bcnt as u128) <= u128::MAX) by (nonlinear_arith)
                    requires
                        klen <= u64::MAX,
                        blen <= u64::MAX,
                        e.0 <= u64::MAX,
                        kcnt <= u64::MAX,
                        bcnt <= u64::MAX,
                ;
            }
            let sk = (kcnt as u128) + (klen as u128) * (e.0 as u128);
            let sb = (bcnt as u128) + (blen as u128) * (e.0 as u128);
            if sk < sb {
                best = k;
            }
            k += 1;
            proof {
                assert(lvs.take(k as int).drop_last() =~= lvs.take(k - 1));
                assert(lvs.take(k as int).last() == lvs[k - 1]);
            }
        }
        proof {
            assert(lvs.take(lvs.len() as int) =~= lvs);
            assert(best as int == min_score_idx(lvs, e.0));
        }
        let mut route = clone_bits(&leaves[best].1);
        route.push(false);
        proof {
            assert(route@ == lvs[best as int].1.push(false));
            assert(route@.subrange(0, lvs[best as int].1.len() as int) =~= lvs[best as int].1);
            tree.root.lemma_add_along_route(best as int, e, route@, 0);
        }
        let res = tree.add_leaf(e, &route, 0);
        proof {
            assert(res is Some);
        }
        n += 1;
        proof {
            assert(entries@.take(n as int).drop_last() =~= entries@.take(n - 1));
            assert(entries@.take(n as int).last() == entries@[n - 1]);
            assert(tree.root == grow_step(build_tree_spec(entries@.take(n - 1)), entries@[n - 1]));
        }
    }
    proof {
        assert(entries@.take(entries@.len() as int) =~= entries@);
    }
    tree
}

/// Byte payloads are always serialisable.
proof fn lemma_all_bytes_encodable(node: BTreeNode<u8>)
    ensures
        node.all_encodable(),
    decreases node,
{
    match node {
        BTreeNode::Leaf { .. } => {},
        BTreeNode::Branch { left, right } => {
            lemma_all_bytes_encodable(*left);
            lemma_all_bytes_encodable(*right);
        },
    }
}

/// A byte tree of `k` leaves serialises to `10 k - 1` bits: `2 k - 1`
/// tags and eight payload bits per leaf.
proof fn lemma_u8_ser_len(node: BTreeNode<u8>)
    ensures
        node.ser_node().len() == 10 * node.leaf_count() - 1,
    decreases node,
{
    match node {
        BTreeNode::Leaf { value } => {
            lemma_msb_bits_len(value as nat, 8);
        },
        BTreeNode::Branch { left, right } => {
            lemma_u8_ser_len(*left);
            lemma_u8_ser_len(*right);
        },
    }
}

/// Compresses `data`: a frequency table, the greedy tree (a one-byte
/// alphabet promoted to two leaves), the tree's bits after three padding
/// bits, every byte's code in input order, and zero padding to a whole
/// octet.  The one promise that matters: the artifact decodes back to
/// `data` exactly.  Empty input gives the empty artifact.  The length
/// bound on `data` only keeps the bit stream addressable in `usize`.
#[verifier::rlimit(60)]
pub fn compress(data: &[u8]) -> (r: Vec<u8>)
    requires
        data@.len() * 256 + 2600 <= usize::MAX,
    ensures
        spec_decompress(r@) == Ok::<Seq<u8>, CodecError>(data@),
        data@.len() == 0 ==> r@.len() == 0,
{
    let uses = count_uses(data);
    if uses.len() == 0 {
        let r: Vec<u8> = Vec::new();
        proof {
            assert(data@ =~= Seq::<u8>::empty());
            assert(r@ =~= Seq::<u8>::empty());
        }
        return r;
    }
    let mut tree = build_tree(&uses);
    proof {
        lemma_build_tree_coverage(uses@);
        tree.root.lemma_leaves_len();
    }
    if uses.len() == 1 {
        let e0 = uses[0];
        let mut one: Vec<bool> = Vec::new();
        one.push(false);
        proof {
            assert(tree.root.leaves_spec()[0].1.len() == 0);
            assert(one@.subrange(0, 0) =~= tree.root.leaves_spec()[0].1);
            tree.root.lemma_add_along_route(0, e0, one@, 0);
            tree.root.lemma_add_leaf_bounds(e0, one@, 0);
        }
        let res = tree.add_leaf(e0, &one, 0);
        proof {
            assert(res is Some);
            tree.root.lemma_leaves_len();
        }
    }
    let ghost troot = tree.root;
    proof {
        assert(troot.leaf_count() >= 2);
        assert(troot.leaf_count() <= 257);
        if troot is Leaf {
            assert(troot.leaf_count() == 1);
        }
        assert forall|j: int| #![trigger uses@[j]] 0 <= j < uses@.len() implies exists|i: int|
            0 <= i < troot.leaves_spec().len() && (#[trigger] troot.leaves_spec()[i]).0
                == uses@[j] by {
            if uses@.len() == 1 {
                assert(troot.leaves_spec()[0].0 == uses@[0]);
            }
        }
    }
    let f = |p: (usize, u8)| -> (b: u8)
        ensures
            b == p.1,
        { p.1 };
    proof {
        assert(forall|t: (usize, u8)| #[trigger] f.requires((t,)));
    }
    let byte_tree = tree.map_values(&f);
    let ghost broot = byte_tree.root;
    proof {
        troot.lemma_maps_to_leaves(broot, f);
        troot.lemma_leaves_len();
        broot.lemma_leaves_len();
        broot.lemma_route_len_bound();
        lemma_all_bytes_encodable(broot);
        lemma_u8_ser_len(broot);
    }
    let ghost lvs2 = broot.leaves_spec();
    proof {
        assert forall|j: int| #![trigger uses@[j]] 0 <= j < uses@.len() implies exists|i: int|
            0 <= i < lvs2.len() && (#[trigger] lvs2[i]).0 == uses@[j].1 by {
            let iw = choose|iw: int|
                0 <= iw < troot.leaves_spec().len() && (#[trigger] troot.leaves_spec()[iw]).0
                    == uses@[j];
            assert(f.ensures((troot.leaves_spec()[iw].0,), lvs2[iw].0));
            assert(lvs2[iw].0 == uses@[j].1);
        }
    }
    let leaves2 = byte_tree.leaf_vec();
    let mut table: Vec<Option<Vec<bool>>> = Vec::new();
    let mut ti: usize = 0;
    while ti < 256
        invariant
            table@.len() == ti <= 256,
            forall|b: int| 0 <= b < ti ==> (#[trigger] table@[b]) is None,
        decreases 256 - ti,
    {
        table.push(None);
        ti += 1;
    }
    let mut li: usize = 0;
    while li < leaves2.len()
        invariant
            0 <= li <= leaves2@.len(),
            table@.len() == 256,
            leaf_pairs_view(leaves2@) == lvs2,
            forall|b: int|
                0 <= b < 256 ==> (match #[trigger] table@[b] {
                    Some(rt) => exists|i: int|
                        0 <= i < lvs2.len() && #[trigger] lvs2[i] == (b as u8, rt@),
                    None => forall|i: int| 0 <= i < li ==> (#[trigger] lvs2[i]).0 != b,
                }),
        decreases leaves2@.len() - li,
    {
        let b = leaves2[li].0;
        let rt = clone_bits(&leaves2[li].1);
        proof {
            assert(lvs2[li as int] == (leaves2@[li as int].0, leaves2@[li as int].1@));
        }
        table[b as usize] = Some(rt);
        li += 1;
    }
    proof {
        assert forall|j: int| #![trigger data@[j]] 0 <= j < data@.len() implies (table@[data@[j]
            as int]) is Some by {
            lemma_count_of_occurrence(data@, j);
            let b = data@[j];
            let iu = choose|iu: int| 0 <= iu < uses@.len() && (#[trigger] uses@[iu]).1 == b;
            let iw = choose|iw: int| 0 <= iw < lvs2.len() && (#[trigger] lvs2[iw]).0 == uses@[iu].1;
            if table@[b as int] is None {
                assert(lvs2[iw].0 != b as int);
            }
        }
    }
    let mut payload: Vec<bool> = Vec::new();
    let ghost mut routes: Seq<Seq<bool>> = Seq::empty();
    let mut di: usize = 0;
    proof {
        assert(payload@ =~= concat_routes(routes));
    }
    while di < data.len()
        invariant
            0 <= di <= data@.len(),
            data@.len() * 256 + 2600 <= usize::MAX,
            table@.len() == 256,
            broot.leaf_count() <= 257,
            lvs2 == broot.leaves_spec(),
            forall|b: int|
                0 <= b < 256 ==> (match #[trigger] table@[b] {
                    Some(rt) => exists|i: int|
                        0 <= i < lvs2.len() && #[trigger] lvs2[i] == (b as u8, rt@),
                    None => true,
                }),
            forall|j: int| #![trigger data@[j]]
                0 <= j < data@.len() ==> (table@[data@[j] as int]) is Some,
            forall|i: int|
                0 <= i < lvs2.len() ==> (#[trigger] lvs2[i]).1.len() < broot.leaf_count(),
            routes.len() == di,
            payload@ == concat_routes(routes),
            payload@.len() <= di * 256,
            forall|j: int| #![trigger routes[j]]
                0 <= j < di ==> exists|i: int|
                    0 <= i < lvs2.len() && #[trigger] lvs2[i] == (data@[j], routes[j]),
        decreases data@.len() - di,
    {
        let b = data[di];
        let ghost prev_routes = routes;
        match &table[b as usize] {
            Some(rt) => {
                let mut rc = clone_bits(rt);
                proof {
                    let iw = choose|i: int|
                        0 <= i < lvs2.len() && #[trigger] lvs2[i] == (
                        b,
                        table@[b as int]->Some_0@,
                        );
                    assert(lvs2[iw].1.len() < broot.leaf_count());
                    assert(rc@.len() <= 256);
                }
                payload.append(&mut rc);
                proof {
                    routes = routes.push(table@[b as int]->Some_0@);
                    lemma_concat_routes_push(prev_routes, table@[b as int]->Some_0@);
                    assert forall|j: int| #![trigger routes[j]] 0 <= j < di + 1 implies exists|
                        i: int,
                    |
                        0 <= i < lvs2.len() && #[trigger] lvs2[i] == (data@[j], routes[j]) by {
                        if j < di {
                            assert(routes[j] == prev_routes[j]);
                            let iw = choose|i: int|
                                0 <= i < lvs2.len() && #[trigger] lvs2[i] == (
                                data@[j],
                                prev_routes[j],
                                );
                            assert(lvs2[iw] == (data@[j], routes[j]));
                        } else {
                            let iw = choose|i: int|
                                0 <= i < lvs2.len() && #[trigger] lvs2[i] == (
                                b,
                                table@[b as int]->Some_0@,
                                );
                            assert(lvs2[iw] == (data@[j], routes[j]));
                        }
                    }
                }
            },
            None => {
                proof {
                    assert(false);
                }
            },
        }
        di += 1;
    }
    let tree_bits = byte_tree.save_bits();
    let tl = tree_bits.len();
    let pl = payload.len();
    proof {
        assert(tl <= 2569);
        assert(pl <= data@.len() * 256);
    }
    let total = 3 + tl + pl;
    let rem = total % 8;
    let pad = if rem == 0 {
        0
    } else {
        8 - rem
    };
    let mut out_bits: Vec<bool> = Vec::new();
    out_bits.push(pad % 2 == 1);
    out_bits.push((pad / 2) % 2 == 1);
    out_bits.push((pad / 4) % 2 == 1);
    let ghost hdr = out_bits@;
    let ghost tser = tree_bits@;
    let ghost pay = payload@;
    let mut tb = tree_bits;
    out_bits.append(&mut tb);
    let mut pb = payload;
    out_bits.append(&mut pb);
    let ghost body = out_bits@;
    let mut z: usize = 0;
    while z < pad
        invariant
            0 <= z <= pad,
            out_bits@.len() == body.len() + z,
            out_bits@.subrange(0, body.len() as int) == body,
            forall|j: int| body.len() <= j < out_bits@.len() ==> !(#[trigger] out_bits@[j]),
        decreases pad - z,
    {
        out_bits.push(false);
        proof {
            assert(out_bits@.subrange(0, body.len() as int) =~= body);
        }
        z += 1;
    }
    proof {
        assert((total + pad) % 8 == 0) by (nonlinear_arith)
            requires
                total >= 0,
                rem == total % 8,
                pad == (if rem == 0 {
                    0int
                } else {
                    8 - rem
                }),
        ;
        assert(out_bits@.len() == total + pad);
    }
    let out = pack_bits(&out_bits);
    proof {
        let obits = out_bits@;
        assert(out@.len() > 0);
        assert(bytes_to_bits(out@) == obits);
        assert forall|j: int| 0 <= j < body.len() implies #[trigger] obits[j] == body[j] by {
            assert(obits.subrange(0, body.len() as int)[j] == obits[j]);
        }
        assert(body[0] == hdr[0] && body[1] == hdr[1] && body[2] == hdr[2]);
        assert(hdr[0] == (pad % 2 == 1) && hdr[1] == ((pad / 2) % 2 == 1) && hdr[2] == ((pad / 4)
            % 2 == 1));
        assert(padding_of(obits) == pad);
        let ser = broot.ser_node();
        assert(tser == ser);
        assert(obits.subrange(3, 3 + tl as int) =~= tser) by {
            assert forall|k: int| 0 <= k < tl implies #[trigger] obits.subrange(
                3,
                3 + tl as int,
            )[k] == tser[k] by {
                assert(obits[3 + k] == body[3 + k]);
                assert(body[3 + k] == tser[k]);
            }
        }
        lemma_ser_then_parse::<u8>(broot, obits, 3);
        assert(parse_node::<u8>(obits, 3) == Some((broot, 3 + tl as int)));
        assert(broot is Branch);
        let pos = 3 + tl as int;
        let end = pos + pl as int;
        assert(obits.len() - padding_of(obits) == end);
        assert(obits.subrange(pos, end) =~= pay) by {
            assert forall|k: int| 0 <= k < pl implies #[trigger] obits.subrange(pos, end)[k]
                == pay[k] by {
                assert(obits[pos + k] == body[pos + k]);
                assert(body[pos + k] == pay[k]);
            }
        }
        assert(pay == concat_routes(routes));
        lemma_decode_concat(broot, data@, routes, obits, pos, end);
        assert(decode_payload(broot, obits, pos, end) == Some(data@));
    }
    out
}

} // verus!
