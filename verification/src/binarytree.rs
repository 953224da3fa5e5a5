//! A full binary tree whose leaves carry values.
//!
//! The tree represents a prefix code: the route from the root to a leaf
//! (`false` = left, `true` = right) is the leaf's codeword, and since every
//! branch has exactly two children — the datatype admits nothing else — the
//! routes of distinct leaves are prefix-free.  The tree is grown by
//! splitting a leaf into a branch (`add_leaf`), read by descending along a
//! bit source (`get_leaf`), enumerated left to right (`leaves`), mapped
//! over its leaf values (`map_values`), and serialised bit by bit in
//! pre-order (`SaveBits`).

use vstd::prelude::*;
use crate::savebits::SaveBits;

verus! {

/// A node: a leaf with a value, or a branch with exactly two children.
pub enum BTreeNode<T> {
    Leaf { value: T },
    Branch { left: Box<BTreeNode<T>>, right: Box<BTreeNode<T>> },
}

/// A full binary tree, held by its root node.
pub struct BinaryTree<T> {
    pub root: BTreeNode<T>,
}

impl<T> BTreeNode<T> {
    /// How many leaves the subtree holds; always at least one.
    pub open spec fn leaf_count(self) -> nat
        decreases self,
    {
        match self {
            BTreeNode::Leaf { .. } => 1,
            BTreeNode::Branch { left, right } => left.leaf_count() + right.leaf_count(),
        }
    }

    /// The leaves left to right, each with its route from this node.
    pub open spec fn leaves_spec(self) -> Seq<(T, Seq<bool>)>
        decreases self,
    {
        match self {
            BTreeNode::Leaf { value } => seq![(value, Seq::<bool>::empty())],
            BTreeNode::Branch { left, right } => left.leaves_spec().map_values(
                |p: (T, Seq<bool>)| (p.0, seq![false] + p.1),
            ) + right.leaves_spec().map_values(|p: (T, Seq<bool>)| (p.0, seq![true] + p.1)),
        }
    }

    /// Descending by bits from `pos` until a leaf: the value reached and
    /// the first unread position, or `None` if the bits run out at a branch.
    pub open spec fn descend(self, bits: Seq<bool>, pos: int) -> Option<(T, int)>
        decreases self,
    {
        match self {
            BTreeNode::Leaf { value } => Some((value, pos)),
            BTreeNode::Branch { left, right } => if pos < 0 || pos >= bits.len() {
                None
            } else if bits[pos] {
                right.descend(bits, pos + 1)
            } else {
                left.descend(bits, pos + 1)
            },
        }
    }

    /// Inserting `v`: bits from `pos` steer to a leaf, one further bit
    /// chooses the side of a fresh branch on which `v` lands, and the old
    /// leaf keeps the other side.  Yields the grown subtree, the depth of
    /// the split leaf, and the first unread position; `None` if the bits
    /// run out first (the subtree is then left as it was).
    pub open spec fn add_leaf_spec(self, v: T, bits: Seq<bool>, pos: int) -> Option<
        (BTreeNode<T>, int, int),
    >
        decreases self,
    {
        if pos < 0 || pos >= bits.len() {
            None
        } else {
            match self {
                BTreeNode::Leaf { value } => if bits[pos] {
                    Some(
                        (
                            BTreeNode::Branch {
                                left: Box::new(self),
                                right: Box::new(BTreeNode::Leaf { value: v }),
                            },
                            0,
                            pos + 1,
                        ),
                    )
                } else {
                    Some(
                        (
                            BTreeNode::Branch {
                                left: Box::new(BTreeNode::Leaf { value: v }),
                                right: Box::new(self),
                            },
                            0,
                            pos + 1,
                        ),
                    )
                },
                BTreeNode::Branch { left, right } => if bits[pos] {
                    match right.add_leaf_spec(v, bits, pos + 1) {
                        Some((sub, d, p)) => Some(
                            (BTreeNode::Branch { left, right: Box::new(sub) }, d + 1, p),
                        ),
                        None => None,
                    }
                } else {
                    match left.add_leaf_spec(v, bits, pos + 1) {
                        Some((sub, d, p)) => Some(
                            (BTreeNode::Branch { left: Box::new(sub), right }, d + 1, p),
                        ),
                        None => None,
                    }
                },
            }
        }
    }

    /// There are as many leaves as `leaf_count` says.
    pub proof fn lemma_leaves_len(self)
        ensures
            self.leaves_spec().len() == self.leaf_count(),
        decreases self,
    {
        match self {
            BTreeNode::Leaf { .. } => {},
            BTreeNode::Branch { left, right } => {
                left.lemma_leaves_len();
                right.lemma_leaves_len();
            },
        }
    }

    /// A successful descent stays inside the bits and, from a branch,
    /// consumes at least one of them.
    pub proof fn lemma_descend_bounds(self, bits: Seq<bool>, pos: int)
        requires
            0 <= pos <= bits.len(),
        ensures
            self.descend(bits, pos) matches Some((v, p)) ==> pos <= p <= bits.len() && ((self
                is Branch) ==> pos < p),
        decreases self,
    {
        match self {
            BTreeNode::Leaf { .. } => {},
            BTreeNode::Branch { left, right } => {
                if 0 <= pos < bits.len() {
                    left.lemma_descend_bounds(bits, pos + 1);
                    right.lemma_descend_bounds(bits, pos + 1);
                }
            },
        }
    }

    /// A successful insertion consumes at least one bit, stays inside the
    /// bits, reports a depth below the bits consumed, and grows the leaf
    /// count by exactly one.
    pub proof fn lemma_add_leaf_bounds(self, v: T, bits: Seq<bool>, pos: int)
        ensures
            self.add_leaf_spec(v, bits, pos) matches Some((t, d, p)) ==> {
                &&& pos < p <= bits.len()
                &&& 0 <= d < p - pos
                &&& t.leaf_count() == self.leaf_count() + 1
                &&& t is Branch
            },
        decreases self,
    {
        match self {
            BTreeNode::Leaf { .. } => {
                assert((BTreeNode::Leaf { value: v }).leaf_count() == 1);
                assert(self.leaf_count() == 1);
            },
            BTreeNode::Branch { left, right } => {
                left.lemma_add_leaf_bounds(v, bits, pos + 1);
                right.lemma_add_leaf_bounds(v, bits, pos + 1);
            },
        }
    }
}

impl<T> BTreeNode<T> {
    /// Routes listed by `leaves_spec` do lead to their leaves: descending
    /// by the `i`-th route reads exactly it and reaches the `i`-th value.
    pub proof fn lemma_descend_route(self, i: int, bits: Seq<bool>, pos: int)
        requires
            0 <= i < self.leaves_spec().len(),
            0 <= pos,
            pos + self.leaves_spec()[i].1.len() <= bits.len(),
            bits.subrange(pos, pos + self.leaves_spec()[i].1.len() as int)
                == self.leaves_spec()[i].1,
        ensures
            self.descend(bits, pos) == Some(
                (self.leaves_spec()[i].0, pos + self.leaves_spec()[i].1.len() as int),
            ),
        decreases self,
    {
        let route = self.leaves_spec()[i].1;
        assert forall|k: int| 0 <= k < route.len() implies #[trigger] bits[pos + k] == route[k] by {
            assert(bits.subrange(pos, pos + route.len() as int)[k] == bits[pos + k]);
        }
        match self {
            BTreeNode::Leaf { .. } => {},
            BTreeNode::Branch { left, right } => {
                let ls = left.leaves_spec();
                let rs = right.leaves_spec();
                if i < ls.len() {
                    let sub = ls[i].1;
                    assert(route == seq![false] + sub);
                    assert(bits[pos + 0] == route[0]);
                    assert(!bits[pos]);
                    assert(bits.subrange(pos + 1, pos + 1 + sub.len() as int) =~= sub) by {
                        assert forall|k: int|
                            0 <= k < sub.len() implies #[trigger] bits.subrange(
                            pos + 1,
                            pos + 1 + sub.len() as int,
                        )[k] == sub[k] by {
                            assert(bits[pos + (1 + k)] == route[1 + k]);
                        }
                    }
                    left.lemma_descend_route(i, bits, pos + 1);
                } else {
                    let j = i - ls.len();
                    let sub = rs[j].1;
                    assert(route == seq![true] + sub);
                    assert(bits[pos + 0] == route[0]);
                    assert(bits[pos]);
                    assert(bits.subrange(pos + 1, pos + 1 + sub.len() as int) =~= sub) by {
                        assert forall|k: int|
                            0 <= k < sub.len() implies #[trigger] bits.subrange(
                            pos + 1,
                            pos + 1 + sub.len() as int,
                        )[k] == sub[k] by {
                            assert(bits[pos + (1 + k)] == route[1 + k]);
                        }
                    }
                    right.lemma_descend_route(j, bits, pos + 1);
                }
            },
        }
    }

    /// Inserting along the `i`-th leaf's route, with one further bit for
    /// the side, splits exactly that leaf: the new leaf takes the side the
    /// bit names, the old leaf the other, and every other leaf keeps its
    /// route.
    pub proof fn lemma_add_along_route(self, i: int, v: T, bits: Seq<bool>, pos: int)
        requires
            0 <= i < self.leaves_spec().len(),
            0 <= pos,
            pos + self.leaves_spec()[i].1.len() + 1 <= bits.len(),
            bits.subrange(pos, pos + self.leaves_spec()[i].1.len() as int)
                == self.leaves_spec()[i].1,
        ensures
            self.add_leaf_spec(v, bits, pos) is Some,
            ({
                let (t2, d, p) = self.add_leaf_spec(v, bits, pos)->Some_0;
                let route = self.leaves_spec()[i].1;
                let w = self.leaves_spec()[i].0;
                let side = bits[pos + route.len() as int];
                &&& d == route.len()
                &&& p == pos + route.len() + 1
                &&& t2.leaves_spec() == self.leaves_spec().subrange(0, i) + (if side {
                    seq![(w, route.push(false)), (v, route.push(true))]
                } else {
                    seq![(v, route.push(false)), (w, route.push(true))]
                }) + self.leaves_spec().subrange(i + 1, self.leaves_spec().len() as int)
            }),
        decreases self,
    {
        let route = self.leaves_spec()[i].1;
        assert forall|k: int| 0 <= k < route.len() implies #[trigger] bits[pos + k] == route[k] by {
            assert(bits.subrange(pos, pos + route.len() as int)[k] == bits[pos + k]);
        }
        match self {
            BTreeNode::Leaf { value } => {
                let side = bits[pos];
                let (t2, d, p) = self.add_leaf_spec(v, bits, pos)->Some_0;
                assert((BTreeNode::Leaf { value: v }).leaves_spec() == seq![
                    (v, Seq::<bool>::empty()),
                ]);
                assert((BTreeNode::Leaf { value }).leaves_spec() == seq![
                    (value, Seq::<bool>::empty()),
                ]);
                assert(t2.leaves_spec() =~~= self.leaves_spec().subrange(0, i) + (if side {
                    seq![(value, route.push(false)), (v, route.push(true))]
                } else {
                    seq![(v, route.push(false)), (value, route.push(true))]
                }) + self.leaves_spec().subrange(i + 1, self.leaves_spec().len() as int));
            },
            BTreeNode::Branch { left, right } => {
                let ls = left.leaves_spec();
                let rs = right.leaves_spec();
                let whole = self.leaves_spec();
                if i < ls.len() {
                    let sub = ls[i].1;
                    assert(route == seq![false] + sub);
                    assert(bits[pos + 0] == route[0]);
                    assert(!bits[pos]);
                    assert(bits.subrange(pos + 1, pos + 1 + sub.len() as int) =~= sub) by {
                        assert forall|k: int|
                            0 <= k < sub.len() implies #[trigger] bits.subrange(
                            pos + 1,
                            pos + 1 + sub.len() as int,
                        )[k] == sub[k] by {
                            assert(bits[pos + (1 + k)] == route[1 + k]);
                        }
                    }
                    left.lemma_add_along_route(i, v, bits, pos + 1);
                    let (l2, d0, p0) = left.add_leaf_spec(v, bits, pos + 1)->Some_0;
                    let (t2, d, p) = self.add_leaf_spec(v, bits, pos)->Some_0;
                    assert(t2 == (BTreeNode::Branch { left: Box::new(l2), right }));
                    let side = bits[pos + 1 + sub.len() as int];
                    assert(side == bits[pos + route.len() as int]);
                    let w = ls[i].0;
                    assert(whole[i] == (w, route));
                    assert(t2.leaves_spec() =~~= whole.subrange(0, i) + (if side {
                        seq![(w, route.push(false)), (v, route.push(true))]
                    } else {
                        seq![(v, route.push(false)), (w, route.push(true))]
                    }) + whole.subrange(i + 1, whole.len() as int));
                } else {
                    let j = i - ls.len();
                    let sub = rs[j].1;
                    assert(route == seq![true] + sub);
                    assert(bits[pos + 0] == route[0]);
                    assert(bits[pos]);
                    assert(bits.subrange(pos + 1, pos + 1 + sub.len() as int) =~= sub) by {
                        assert forall|k: int|
                            0 <= k < sub.len() implies #[trigger] bits.subrange(
                            pos + 1,
                            pos + 1 + sub.len() as int,
                        )[k] == sub[k] by {
                            assert(bits[pos + (1 + k)] == route[1 + k]);
                        }
                    }
                    right.lemma_add_along_route(j, v, bits, pos + 1);
                    let (r2, d0, p0) = right.add_leaf_spec(v, bits, pos + 1)->Some_0;
                    let (t2, d, p) = self.add_leaf_spec(v, bits, pos)->Some_0;
                    assert(t2 == (BTreeNode::Branch { left, right: Box::new(r2) }));
                    let side = bits[pos + 1 + sub.len() as int];
                    assert(side == bits[pos + route.len() as int]);
                    let w = rs[j].0;
                    assert(whole[i] == (w, route));
                    assert(t2.leaves_spec() =~~= whole.subrange(0, i) + (if side {
                        seq![(w, route.push(false)), (v, route.push(true))]
                    } else {
                        seq![(v, route.push(false)), (w, route.push(true))]
                    }) + whole.subrange(i + 1, whole.len() as int));
                }
            },
        }
    }

    /// Every subtree holds at least one leaf.
    pub proof fn lemma_leaf_count_pos(self)
        ensures
            self.leaf_count() >= 1,
        decreases self,
    {
        match self {
            BTreeNode::Leaf { .. } => {},
            BTreeNode::Branch { left, right } => {
                left.lemma_leaf_count_pos();
                right.lemma_leaf_count_pos();
            },
        }
    }

    /// No route is as long as the leaf count.
    pub proof fn lemma_route_len_bound(self)
        ensures
            forall|i: int|
                0 <= i < self.leaves_spec().len() ==> (#[trigger] self.leaves_spec()[i]).1.len()
                    < self.leaf_count(),
        decreases self,
    {
        self.lemma_leaves_len();
        match self {
            BTreeNode::Leaf { .. } => {},
            BTreeNode::Branch { left, right } => {
                left.lemma_route_len_bound();
                right.lemma_route_len_bound();
                left.lemma_leaves_len();
                right.lemma_leaves_len();
                left.lemma_leaf_count_pos();
                right.lemma_leaf_count_pos();
                let ls = left.leaves_spec();
                assert forall|i: int|
                    0 <= i < self.leaves_spec().len() implies (
                #[trigger] self.leaves_spec()[i]).1.len() < self.leaf_count() by {
                    if i < ls.len() {
                        assert(self.leaves_spec()[i].1 == seq![false] + ls[i].1);
                    } else {
                        assert(self.leaves_spec()[i].1 == seq![true] + right.leaves_spec()[i
                            - ls.len()].1);
                    }
                }
            },
        }
    }

    /// Below a branch every route holds at least the branch's own bit.
    pub proof fn lemma_branch_routes_nonempty(self)
        ensures
            self is Branch ==> forall|i: int|
                0 <= i < self.leaves_spec().len() ==> (#[trigger] self.leaves_spec()[i]).1.len()
                    >= 1,
    {
        match self {
            BTreeNode::Leaf { .. } => {},
            BTreeNode::Branch { left, right } => {},
        }
    }
}

impl<T: Copy> BTreeNode<T> {
    /// An exact structural copy of the subtree.
    fn clone_node(node: &BTreeNode<T>) -> (r: BTreeNode<T>)
        ensures
            r == *node,
        decreases node,
    {
        match node {
            BTreeNode::Leaf { value } => BTreeNode::Leaf { value: *value },
            BTreeNode::Branch { left, right } => BTreeNode::Branch {
                left: Box::new(Self::clone_node(left)),
                right: Box::new(Self::clone_node(right)),
            },
        }
    }

    /// Descends by bits, as `descend` describes.
    fn get_from(node: &BTreeNode<T>, bits: &Vec<bool>, pos: usize) -> (r: Option<(T, usize)>)
        requires
            pos <= bits@.len(),
        ensures
            (match r {
                Some((v, p)) => node.descend(bits@, pos as int) == Some((v, p as int)) && pos <= p
                    <= bits@.len(),
                None => node.descend(bits@, pos as int) is None,
            }),
        decreases node,
    {
        match node {
            BTreeNode::Leaf { value } => Some((*value, pos)),
            BTreeNode::Branch { left, right } => {
                if pos < bits.len() {
                    if bits[pos] {
                        Self::get_from(right, bits, pos + 1)
                    } else {
                        Self::get_from(left, bits, pos + 1)
                    }
                } else {
                    None
                }
            },
        }
    }

    /// Rebuilds the subtree with `v` inserted, as `add_leaf_spec` describes.
    fn add_from(node: &BTreeNode<T>, v: T, bits: &Vec<bool>, pos: usize) -> (r: (
        BTreeNode<T>,
        Option<(usize, usize)>,
    ))
        requires
            pos <= bits@.len(),
        ensures
            (match r.1 {
                Some((d, p)) => node.add_leaf_spec(v, bits@, pos as int) == Some(
                    (r.0, d as int, p as int),
                ),
                None => node.add_leaf_spec(v, bits@, pos as int) is None && r.0 == *node,
            }),
        decreases node,
    {
        proof {
            node.lemma_add_leaf_bounds(v, bits@, pos as int);
        }
        if pos >= bits.len() {
            return (Self::clone_node(node), None);
        }
        let steer = bits[pos];
        match node {
            BTreeNode::Leaf { value } => {
                let grown = if steer {
                    BTreeNode::Branch {
                        left: Box::new(BTreeNode::Leaf { value: *value }),
                        right: Box::new(BTreeNode::Leaf { value: v }),
                    }
                } else {
                    BTreeNode::Branch {
                        left: Box::new(BTreeNode::Leaf { value: v }),
                        right: Box::new(BTreeNode::Leaf { value: *value }),
                    }
                };
                (grown, Some((0, pos + 1)))
            },
            BTreeNode::Branch { left, right } => {
                if steer {
                    let (sub, res) = Self::add_from(right, v, bits, pos + 1);
                    match res {
                        Some((d, p)) => {
                            proof {
                                right.lemma_add_leaf_bounds(v, bits@, pos + 1);
                            }
                            (
                                BTreeNode::Branch {
                                    left: Box::new(Self::clone_node(left)),
                                    right: Box::new(sub),
                                },
                                Some((d + 1, p)),
                            )
                        },
                        None => (
                            BTreeNode::Branch {
                                left: Box::new(Self::clone_node(left)),
                                right: Box::new(sub),
                            },
                            None,
                        ),
                    }
                } else {
                    let (sub, res) = Self::add_from(left, v, bits, pos + 1);
                    match res {
                        Some((d, p)) => {
                            proof {
                                left.lemma_add_leaf_bounds(v, bits@, pos + 1);
                            }
                            (
                                BTreeNode::Branch {
                                    left: Box::new(sub),
                                    right: Box::new(Self::clone_node(right)),
                                },
                                Some((d + 1, p)),
                            )
                        },
                        None => (
                            BTreeNode::Branch {
                                left: Box::new(sub),
                                right: Box::new(Self::clone_node(right)),
                            },
                            None,
                        ),
                    }
                }
            },
        }
    }
}

/// Collected leaf pairs seen abstractly: each route vector as its sequence.
pub open spec fn leaf_pairs_view<T>(s: Seq<(T, Vec<bool>)>) -> Seq<(T, Seq<bool>)> {
    s.map_values(|p: (T, Vec<bool>)| (p.0, p.1@))
}

/// Copies a route.
pub(crate) fn clone_bits(v: &Vec<bool>) -> (r: Vec<bool>)
    ensures
        r@ == v@,
{
    let mut r: Vec<bool> = Vec::new();
    let mut i: usize = 0;
    while i < v.len()
        invariant
            0 <= i <= v@.len(),
            r@ == v@.subrange(0, i as int),
        decreases v@.len() - i,
    {
        r.push(v[i]);
        proof {
            assert(r@ =~= v@.subrange(0, i + 1));
        }
        i += 1;
    }
    proof {
        assert(r@ =~= v@);
    }
    r
}

/// Copies the first `end` bits of a bit source.
pub(crate) fn clone_bits_prefix(v: &Vec<bool>, end: usize) -> (r: Vec<bool>)
    requires
        end <= v@.len(),
    ensures
        r@ == v@.take(end as int),
{
    let mut r: Vec<bool> = Vec::new();
    let mut i: usize = 0;
    while i < end
        invariant
            0 <= i <= end <= v@.len(),
            r@ == v@.subrange(0, i as int),
        decreases end - i,
    {
        r.push(v[i]);
        proof {
            assert(r@ =~= v@.subrange(0, i + 1));
        }
        i += 1;
    }
    proof {
        assert(r@ =~= v@.take(end as int));
    }
    r
}

impl<T: Copy> BTreeNode<T> {
    /// Appends to `out` every leaf of the subtree, left to right, with its
    /// route extended below `prefix`.
    fn collect_leaves(node: &BTreeNode<T>, prefix: &Vec<bool>, out: &mut Vec<(T, Vec<bool>)>)
        ensures
            leaf_pairs_view(final(out)@) == leaf_pairs_view(old(out)@)
                + node.leaves_spec().map_values(|p: (T, Seq<bool>)| (p.0, prefix@ + p.1)),
        decreases node,
    {
        match node {
            BTreeNode::Leaf { value } => {
                let route = clone_bits(prefix);
                out.push((*value, route));
                proof {
                    assert(leaf_pairs_view(out@) =~~= leaf_pairs_view(old(out)@)
                        + node.leaves_spec().map_values(
                        |p: (T, Seq<bool>)| (p.0, prefix@ + p.1),
                    ));
                }
            },
            BTreeNode::Branch { left, right } => {
                let mut lp = clone_bits(prefix);
                lp.push(false);
                Self::collect_leaves(left, &lp, out);
                let mut rp = clone_bits(prefix);
                rp.push(true);
                Self::collect_leaves(right, &rp, out);
                proof {
                    assert(leaf_pairs_view(out@) =~~= leaf_pairs_view(old(out)@)
                        + node.leaves_spec().map_values(
                        |p: (T, Seq<bool>)| (p.0, prefix@ + p.1),
                    ));
                }
            },
        }
    }
}

/// Walks the leaves of a tree from left to right, handing out each leaf's
/// value with its route from the root.
pub struct BTreeLeafIter<T> {
    items: Vec<(T, Vec<bool>)>,
    pos: usize,
}

impl<T> BTreeLeafIter<T> {
    pub closed spec fn wf(self) -> bool {
        self.pos <= self.items@.len()
    }

    /// The leaves not yet handed out, in order.
    pub closed spec fn remaining(self) -> Seq<(T, Seq<bool>)> {
        leaf_pairs_view(self.items@).skip(self.pos as int)
    }
}

impl<T: Copy> BTreeLeafIter<T> {
    /// The next leaf with its route, or `None` once all have been seen.
    pub fn next(&mut self) -> (r: Option<(T, Vec<bool>)>)
        requires
            old(self).wf(),
        ensures
            final(self).wf(),
            (match r {
                Some(p) => old(self).remaining().len() > 0 && (p.0, p.1@) == old(
                    self,
                ).remaining()[0] && final(self).remaining() == old(self).remaining().skip(1),
                None => old(self).remaining().len() == 0 && *final(self) == *old(self),
            }),
    {
        if self.pos < self.items.len() {
            let item = &self.items[self.pos];
            let v = item.0;
            let route = clone_bits(&item.1);
            self.pos = self.pos + 1;
            proof {
                assert(final(self).remaining() =~= old(self).remaining().skip(1));
            }
            Some((v, route))
        } else {
            None
        }
    }
}

impl<T: Copy> BinaryTree<T> {
    /// All leaves with their routes, as one vector.
    pub(crate) fn leaf_vec(&self) -> (r: Vec<(T, Vec<bool>)>)
        ensures
            leaf_pairs_view(r@) == self.root.leaves_spec(),
    {
        let mut out: Vec<(T, Vec<bool>)> = Vec::new();
        let prefix: Vec<bool> = Vec::new();
        BTreeNode::collect_leaves(&self.root, &prefix, &mut out);
        proof {
            assert(leaf_pairs_view(out@) =~~= self.root.leaves_spec());
        }
        out
    }

    /// An iterator over the leaves from left to right, each with its route.
    pub fn leaves(&self) -> (it: BTreeLeafIter<T>)
        ensures
            it.wf(),
            it.remaining() == self.root.leaves_spec(),
    {
        let it = BTreeLeafIter { items: self.leaf_vec(), pos: 0 };
        proof {
            assert(it.remaining() =~= self.root.leaves_spec());
        }
        it
    }
}

impl<T: Copy> BinaryTree<T> {
    /// A one-leaf tree holding `root_value`.
    pub fn new(root_value: T) -> (t: BinaryTree<T>)
        ensures
            t.root == (BTreeNode::Leaf { value: root_value }),
            t.root.leaf_count() == 1,
    {
        BinaryTree { root: BTreeNode::Leaf { value: root_value } }
    }

    /// Descends by bits from `pos` until a leaf and returns its value with
    /// the first unread position, or `None` if the bits run out at a branch.
    /// No bit is read once a leaf is reached.
    pub fn get_leaf(&self, bits: &Vec<bool>, pos: usize) -> (r: Option<(T, usize)>)
        requires
            pos <= bits@.len(),
        ensures
            (match r {
                Some((v, p)) => self.root.descend(bits@, pos as int) == Some((v, p as int)) && pos
                    <= p <= bits@.len(),
                None => self.root.descend(bits@, pos as int) is None,
            }),
    {
        BTreeNode::get_from(&self.root, bits, pos)
    }

    /// Inserts `new_value` where the bits from `pos` lead, as
    /// `add_leaf_spec` describes, growing the leaf count by one; returns
    /// the depth of the split and the first unread position.  When the
    /// bits run out first, returns `None` and leaves the tree unchanged.
    pub fn add_leaf(&mut self, new_value: T, bits: &Vec<bool>, pos: usize) -> (r: Option<
        (usize, usize),
    >)
        requires
            pos <= bits@.len(),
        ensures
            (match r {
                Some((d, p)) => old(self).root.add_leaf_spec(new_value, bits@, pos as int) == Some(
                    (final(self).root, d as int, p as int),
                ) && final(self).root.leaf_count() == old(self).root.leaf_count() + 1,
                None => old(self).root.add_leaf_spec(new_value, bits@, pos as int) is None
                    && final(self).root == old(self).root,
            }),
    {
        proof {
            self.root.lemma_add_leaf_bounds(new_value, bits@, pos as int);
        }
        let (new_root, res) = BTreeNode::add_from(&self.root, new_value, bits, pos);
        self.root = new_root;
        res
    }
}

impl<T> BTreeNode<T> {
    /// `other` has the same shape, each leaf value an output of `f` on the
    /// value that stood there.
    pub open spec fn maps_to<U, F: Fn(T) -> U>(self, other: BTreeNode<U>, f: F) -> bool
        decreases self,
    {
        match self {
            BTreeNode::Leaf { value } => match other {
                BTreeNode::Leaf { value: w } => f.ensures((value,), w),
                _ => false,
            },
            BTreeNode::Branch { left, right } => match other {
                BTreeNode::Branch { left: l2, right: r2 } => left.maps_to(*l2, f)
                    && right.maps_to(*r2, f),
                _ => false,
            },
        }
    }

    /// A mapped tree keeps every route; only the leaf values change, each
    /// to an output of `f` on the old value.
    pub proof fn lemma_maps_to_leaves<U, F: Fn(T) -> U>(self, other: BTreeNode<U>, f: F)
        requires
            self.maps_to(other, f),
        ensures
            other.leaves_spec().len() == self.leaves_spec().len(),
            forall|i: int|
                0 <= i < self.leaves_spec().len() ==> (#[trigger] other.leaves_spec()[i]).1
                    == self.leaves_spec()[i].1 && f.ensures(
                    (self.leaves_spec()[i].0,),
                    other.leaves_spec()[i].0,
                ),
            (other is Branch) <==> (self is Branch),
        decreases self,
    {
        match self {
            BTreeNode::Leaf { .. } => {},
            BTreeNode::Branch { left, right } => {
                match other {
                    BTreeNode::Leaf { .. } => {},
                    BTreeNode::Branch { left: l2, right: r2 } => {
                        left.lemma_maps_to_leaves(*l2, f);
                        right.lemma_maps_to_leaves(*r2, f);
                    },
                }
            },
        }
    }
}

impl<T: Copy> BTreeNode<T> {
    /// Rebuilds the subtree with every leaf value sent through `f`.
    fn map_node<U, F: Fn(T) -> U>(node: &BTreeNode<T>, f: &F) -> (r: BTreeNode<U>)
        requires
            forall|t: T| #[trigger] f.requires((t,)),
        ensures
            node.maps_to(r, *f),
        decreases node,
    {
        match node {
            BTreeNode::Leaf { value } => BTreeNode::Leaf { value: f(*value) },
            BTreeNode::Branch { left, right } => BTreeNode::Branch {
                left: Box::new(Self::map_node(left, f)),
                right: Box::new(Self::map_node(right, f)),
            },
        }
    }
}

impl<T: Copy> BinaryTree<T> {
    /// A tree of the same shape with each leaf value sent through `f`.
    pub fn map_values<U, F: Fn(T) -> U>(self, f: &F) -> (r: BinaryTree<U>)
        requires
            forall|t: T| #[trigger] f.requires((t,)),
        ensures
            self.root.maps_to(r.root, *f),
    {
        BinaryTree { root: BTreeNode::map_node(&self.root, f) }
    }
}

impl<T: SaveBits> BTreeNode<T> {
    /// Every leaf value may be serialised.
    pub open spec fn all_encodable(self) -> bool
        decreases self,
    {
        match self {
            BTreeNode::Leaf { value } => value.encodable(),
            BTreeNode::Branch { left, right } => left.all_encodable() && right.all_encodable(),
        }
    }

    /// Pre-order bits: a branch is a `false` tag then both subtrees, a
    /// leaf a `true` tag then its payload's bits.
    pub open spec fn ser_node(self) -> Seq<bool>
        decreases self,
    {
        match self {
            BTreeNode::Leaf { value } => seq![true] + value.spec_bits(),
            BTreeNode::Branch { left, right } => seq![false] + left.ser_node() + right.ser_node(),
        }
    }

    /// Number of nodes; bounds the depth of any parse of the subtree.
    pub open spec fn node_size(self) -> nat
        decreases self,
    {
        match self {
            BTreeNode::Leaf { .. } => 1,
            BTreeNode::Branch { left, right } => 1 + left.node_size() + right.node_size(),
        }
    }

    /// The serialisation is at least one bit per node.
    pub proof fn lemma_size_le_ser(self)
        ensures
            self.node_size() <= self.ser_node().len(),
        decreases self,
    {
        match self {
            BTreeNode::Leaf { .. } => {},
            BTreeNode::Branch { left, right } => {
                left.lemma_size_le_ser();
                right.lemma_size_le_ser();
            },
        }
    }
}

/// Parses one pre-order subtree at `pos`; `fuel` only bounds the recursion
/// depth, for which the number of nodes parsed always suffices.
pub open spec fn parse_node_fuel<T: SaveBits>(bits: Seq<bool>, pos: int, fuel: nat) -> Option<
    (BTreeNode<T>, int),
>
    decreases fuel,
{
    if fuel == 0 {
        None
    } else if pos < 0 || pos >= bits.len() {
        None
    } else if bits[pos] {
        match T::spec_parse(bits, pos + 1) {
            Some((v, p)) => Some((BTreeNode::Leaf { value: v }, p)),
            None => None,
        }
    } else {
        match parse_node_fuel::<T>(bits, pos + 1, (fuel - 1) as nat) {
            Some((l, p1)) => match parse_node_fuel::<T>(bits, p1, (fuel - 1) as nat) {
                Some((r, p2)) => Some(
                    (BTreeNode::Branch { left: Box::new(l), right: Box::new(r) }, p2),
                ),
                None => None,
            },
            None => None,
        }
    }
}

/// What parsing a pre-order subtree at `pos` yields: the subtree and the
/// first position after it, or `None` when the bits run out mid-tree.
pub open spec fn parse_node<T: SaveBits>(bits: Seq<bool>, pos: int) -> Option<(BTreeNode<T>, int)> {
    parse_node_fuel::<T>(bits, pos, (bits.len() + 1) as nat)
}

/// A successful parse consumes at least one bit, stays inside the bits,
/// and yields a tree of encodable leaves.
pub proof fn lemma_parse_fuel_bounds<T: SaveBits>(bits: Seq<bool>, pos: int, fuel: nat)
    ensures
        parse_node_fuel::<T>(bits, pos, fuel) matches Some((t, p)) ==> pos < p <= bits.len()
            && t.all_encodable(),
    decreases fuel,
{
    if fuel > 0 && 0 <= pos < bits.len() {
        if bits[pos] {
            T::lemma_parse_advances(bits, pos + 1);
        } else {
            lemma_parse_fuel_bounds::<T>(bits, pos + 1, (fuel - 1) as nat);
            match parse_node_fuel::<T>(bits, pos + 1, (fuel - 1) as nat) {
                Some((l, p1)) => {
                    lemma_parse_fuel_bounds::<T>(bits, p1, (fuel - 1) as nat);
                },
                None => {},
            }
        }
    }
}

/// More fuel never changes a successful parse.
pub proof fn lemma_parse_fuel_mono<T: SaveBits>(bits: Seq<bool>, pos: int, f1: nat, f2: nat)
    requires
        f1 <= f2,
    ensures
        parse_node_fuel::<T>(bits, pos, f1) matches Some(r) ==> parse_node_fuel::<T>(
            bits,
            pos,
            f2,
        ) == Some(r),
    decreases f1,
{
    if f1 > 0 && 0 <= pos < bits.len() && !bits[pos] {
        lemma_parse_fuel_mono::<T>(bits, pos + 1, (f1 - 1) as nat, (f2 - 1) as nat);
        match parse_node_fuel::<T>(bits, pos + 1, (f1 - 1) as nat) {
            Some((l, p1)) => {
                lemma_parse_fuel_mono::<T>(bits, p1, (f1 - 1) as nat, (f2 - 1) as nat);
            },
            None => {},
        }
    }
}

/// Beyond `bits.len() - pos + 1` the exact fuel is irrelevant.
pub proof fn lemma_parse_fuel_indep<T: SaveBits>(bits: Seq<bool>, pos: int, f1: nat, f2: nat)
    requires
        pos <= bits.len(),
        f1 >= bits.len() - pos + 1,
        f2 >= bits.len() - pos + 1,
    ensures
        parse_node_fuel::<T>(bits, pos, f1) == parse_node_fuel::<T>(bits, pos, f2),
    decreases f1,
{
    if 0 <= pos < bits.len() && !bits[pos] {
        lemma_parse_fuel_indep::<T>(bits, pos + 1, (f1 - 1) as nat, (f2 - 1) as nat);
        match parse_node_fuel::<T>(bits, pos + 1, (f1 - 1) as nat) {
            Some((l, p1)) => {
                lemma_parse_fuel_bounds::<T>(bits, pos + 1, (f1 - 1) as nat);
                lemma_parse_fuel_indep::<T>(bits, p1, (f1 - 1) as nat, (f2 - 1) as nat);
            },
            None => {},
        }
    }
}

/// Round trip for one subtree: wherever its serialised bits stand, parsing
/// there returns an equal subtree and consumes exactly those bits.
pub proof fn lemma_ser_then_parse_fuel<T: SaveBits>(
    node: BTreeNode<T>,
    bits: Seq<bool>,
    pos: int,
    fuel: nat,
)
    requires
        node.all_encodable(),
        0 <= pos,
        pos + node.ser_node().len() <= bits.len(),
        bits.subrange(pos, pos + node.ser_node().len() as int) == node.ser_node(),
        fuel >= node.node_size(),
    ensures
        parse_node_fuel::<T>(bits, pos, fuel) == Some(
            (node, pos + node.ser_node().len() as int),
        ),
    decreases node,
{
    let ser = node.ser_node();
    assert forall|k: int| 0 <= k < ser.len() implies #[trigger] bits[pos + k] == ser[k] by {
        assert(bits.subrange(pos, pos + ser.len() as int)[k] == bits[pos + k]);
    }
    match node {
        BTreeNode::Leaf { value } => {
            assert(bits[pos + 0] == ser[0]);
            let pl = value.spec_bits();
            assert(bits.subrange(pos + 1, pos + 1 + pl.len() as int) =~= pl) by {
                assert forall|k: int|
                    0 <= k < pl.len() implies #[trigger] bits.subrange(
                    pos + 1,
                    pos + 1 + pl.len() as int,
                )[k] == pl[k] by {
                    assert(bits[pos + (1 + k)] == ser[1 + k]);
                    assert(ser[1 + k] == pl[k]);
                }
            }
            value.lemma_save_then_parse(bits, pos + 1);
        },
        BTreeNode::Branch { left, right } => {
            assert(bits[pos + 0] == ser[0]);
            let ls = left.ser_node();
            let rs = right.ser_node();
            assert(ser.len() == 1 + ls.len() + rs.len());
            assert(bits.subrange(pos + 1, pos + 1 + ls.len() as int) =~= ls) by {
                assert forall|k: int|
                    0 <= k < ls.len() implies #[trigger] bits.subrange(
                    pos + 1,
                    pos + 1 + ls.len() as int,
                )[k] == ls[k] by {
                    assert(bits[pos + (1 + k)] == ser[1 + k]);
                    assert(ser[1 + k] == ls[k]);
                }
            }
            lemma_ser_then_parse_fuel::<T>(*left, bits, pos + 1, (fuel - 1) as nat);
            let p1 = pos + 1 + ls.len() as int;
            assert(bits.subrange(p1, p1 + rs.len() as int) =~= rs) by {
                assert forall|k: int|
                    0 <= k < rs.len() implies #[trigger] bits.subrange(
                    p1,
                    p1 + rs.len() as int,
                )[k] == rs[k] by {
                    assert(bits[pos + (1 + ls.len() + k)] == ser[1 + ls.len() + k]);
                    assert(ser[1 + ls.len() + k] == rs[k]);
                }
            }
            lemma_ser_then_parse_fuel::<T>(*right, bits, p1, (fuel - 1) as nat);
        },
    }
}

/// Round trip for one subtree at the parser's canonical fuel.
pub proof fn lemma_ser_then_parse<T: SaveBits>(node: BTreeNode<T>, bits: Seq<bool>, pos: int)
    requires
        node.all_encodable(),
        0 <= pos,
        pos + node.ser_node().len() <= bits.len(),
        bits.subrange(pos, pos + node.ser_node().len() as int) == node.ser_node(),
    ensures
        parse_node::<T>(bits, pos) == Some((node, pos + node.ser_node().len() as int)),
{
    node.lemma_size_le_ser();
    lemma_ser_then_parse_fuel::<T>(node, bits, pos, node.node_size());
    lemma_parse_fuel_mono::<T>(bits, pos, node.node_size(), (bits.len() + 1) as nat);
}

impl<T: SaveBits> BTreeNode<T> {
    /// Appends the pre-order serialisation of the subtree to `out`.
    fn save_from_node(node: &BTreeNode<T>, out: &mut Vec<bool>)
        requires
            node.all_encodable(),
        ensures
            final(out)@ == old(out)@ + node.ser_node(),
        decreases node,
    {
        match node {
            BTreeNode::Leaf { value } => {
                out.push(true);
                let mut payload = value.save_bits();
                out.append(&mut payload);
                proof {
                    assert(out@ =~= old(out)@ + node.ser_node());
                }
            },
            BTreeNode::Branch { left, right } => {
                out.push(false);
                Self::save_from_node(left, out);
                Self::save_from_node(right, out);
                proof {
                    assert(out@ =~= old(out)@ + node.ser_node());
                }
            },
        }
    }

    /// Parses one pre-order subtree at `pos`, as `parse_node` describes.
    pub(crate) fn load_node(bits: &Vec<bool>, pos: usize) -> (r: Option<(BTreeNode<T>, usize)>)
        requires
            pos <= bits@.len(),
        ensures
            (match r {
                Some((t, p)) => parse_node::<T>(bits@, pos as int) == Some((t, p as int)) && pos < p
                    <= bits@.len(),
                None => parse_node::<T>(bits@, pos as int) is None,
            }),
        decreases bits@.len() - pos,
    {
        if pos >= bits.len() {
            return None;
        }
        let ghost len = bits@.len() as int;
        if bits[pos] {
            proof {
                T::lemma_parse_advances(bits@, pos + 1);
            }
            match T::from_bits(bits, pos + 1) {
                Some((v, p)) => Some((BTreeNode::Leaf { value: v }, p)),
                None => None,
            }
        } else {
            proof {
                lemma_parse_fuel_indep::<T>(bits@, pos + 1, len as nat, (len + 1) as nat);
            }
            match Self::load_node(bits, pos + 1) {
                Some((l, p1)) => {
                    proof {
                        lemma_parse_fuel_indep::<T>(bits@, p1 as int, len as nat, (len + 1) as nat);
                    }
                    match Self::load_node(bits, p1) {
                        Some((r, p2)) => Some(
                            (BTreeNode::Branch { left: Box::new(l), right: Box::new(r) }, p2),
                        ),
                        None => None,
                    }
                },
                None => None,
            }
        }
    }
}

impl<T: SaveBits> SaveBits for BinaryTree<T> {
    open spec fn encodable(&self) -> bool {
        self.root.all_encodable()
    }

    open spec fn spec_bits(&self) -> Seq<bool> {
        self.root.ser_node()
    }

    open spec fn spec_parse(bits: Seq<bool>, pos: int) -> Option<(BinaryTree<T>, int)> {
        match parse_node::<T>(bits, pos) {
            Some((n, p)) => Some((BinaryTree { root: n }, p)),
            None => None,
        }
    }

    fn save_bits(&self) -> (r: Vec<bool>) {
        let mut out: Vec<bool> = Vec::new();
        BTreeNode::save_from_node(&self.root, &mut out);
        proof {
            assert(out@ =~= self.root.ser_node());
        }
        out
    }

    fn from_bits(bits: &Vec<bool>, pos: usize) -> (r: Option<(Self, usize)>) {
        match BTreeNode::load_node(bits, pos) {
            Some((n, p)) => Some((BinaryTree { root: n }, p)),
            None => None,
        }
    }

    proof fn lemma_parse_advances(bits: Seq<bool>, pos: int) {
        lemma_parse_fuel_bounds::<T>(bits, pos, (bits.len() + 1) as nat);
    }

    proof fn lemma_save_then_parse(&self, bits: Seq<bool>, pos: int) {
        lemma_ser_then_parse::<T>(self.root, bits, pos);
    }
}

/// Saving a tree and parsing the bits back yields a tree of identical
/// shape, identical leaf order, and identical leaf payloads — the very
/// same tree — wherever the bits stand in a longer stream.
pub proof fn lemma_tree_round_trip<T: SaveBits>(t: BinaryTree<T>, bits: Seq<bool>, pos: int)
    requires
        t.encodable(),
        0 <= pos,
        pos + t.spec_bits().len() <= bits.len(),
        bits.subrange(pos, pos + t.spec_bits().len() as int) == t.spec_bits(),
    ensures
        BinaryTree::<T>::spec_parse(bits, pos) == Some((t, pos + t.spec_bits().len() as int)),
{
    t.lemma_save_then_parse(bits, pos);
}

} // verus!
