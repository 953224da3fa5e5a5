//! Decompression: padding and tree recovery from the header, then code
//! replay over the payload bits.
//!
//! `spec_decompress` is the exact meaning of a compressed artifact — which
//! bytes it decodes to, or which error it earns — and `decompress` returns
//! precisely that.

use vstd::prelude::*;
use crate::binarytree::{BinaryTree, BTreeNode, parse_node};
use crate::bitpack::{bytes_to_bits, unpack_bits};
use crate::error::CodecError;

verus! {

/// The bytes read off `tree` by the payload bits in `[pos, end)`, each
/// descent starting anew at the root; `None` when the bits end
/// mid-descent.  Meaningful for trees of two or more leaves, whose every
/// descent consumes at least one bit.
pub open spec fn decode_payload(
    tree: BTreeNode<u8>,
    bits: Seq<bool>,
    pos: int,
    end: int,
) -> Option<Seq<u8>>
    decreases end - pos,
    when tree is Branch && 0 <= pos <= end <= bits.len()
    via decode_payload_decreases
{
    if pos == end {
        Some(Seq::empty())
    } else {
        match tree.descend(bits.take(end), pos) {
            None => None,
            Some((b, p2)) => match decode_payload(tree, bits, p2, end) {
                None => None,
                Some(rest) => Some(seq![b] + rest),
            },
        }
    }
}

#[via_fn]
proof fn decode_payload_decreases(tree: BTreeNode<u8>, bits: Seq<bool>, pos: int, end: int) {
    if pos != end {
        tree.lemma_descend_bounds(bits.take(end), pos);
    }
}

/// The routes of a payload laid end to end.
pub open spec fn concat_routes(routes: Seq<Seq<bool>>) -> Seq<bool>
    decreases routes.len(),
{
    if routes.len() == 0 {
        Seq::empty()
    } else {
        routes.first() + concat_routes(routes.skip(1))
    }
}

pub proof fn lemma_concat_routes_push(routes: Seq<Seq<bool>>, r: Seq<bool>)
    ensures
        concat_routes(routes.push(r)) == concat_routes(routes) + r,
    decreases routes.len(),
{
    if routes.len() == 0 {
        assert(routes.push(r).skip(1) =~= Seq::<Seq<bool>>::empty());
        assert(concat_routes(routes.push(r).skip(1)) == Seq::<bool>::empty());
        assert(routes.push(r).first() == r);
        assert(concat_routes(routes) == Seq::<bool>::empty());
        assert(concat_routes(routes.push(r)) =~= concat_routes(routes) + r);
    } else {
        assert(routes.push(r).skip(1) =~= routes.skip(1).push(r));
        assert(routes.push(r).first() == routes.first());
        lemma_concat_routes_push(routes.skip(1), r);
        assert(routes.first() + (concat_routes(routes.skip(1)) + r) =~= (routes.first()
            + concat_routes(routes.skip(1))) + r);
    }
}

/// Codes laid end to end decode, one leaf at a time, to the bytes they
/// code for: if every `(data[j], routes[j])` is a leaf of the tree and
/// the bits from `pos` to `end` are exactly the routes in order, replay
/// yields `data`.
pub proof fn lemma_decode_concat(
    tree: BTreeNode<u8>,
    data: Seq<u8>,
    routes: Seq<Seq<bool>>,
    bits: Seq<bool>,
    pos: int,
    end: int,
)
    requires
        tree is Branch,
        0 <= pos <= end <= bits.len(),
        routes.len() == data.len(),
        bits.subrange(pos, end) == concat_routes(routes),
        forall|j: int| #![trigger routes[j]]
            0 <= j < data.len() ==> exists|i: int|
                0 <= i < tree.leaves_spec().len() && #[trigger] tree.leaves_spec()[i] == (
                data[j],
                routes[j],
                ),
    ensures
        decode_payload(tree, bits, pos, end) == Some(data),
    decreases data.len(),
{
    if data.len() == 0 {
        assert(end - pos == concat_routes(routes).len());
    } else {
        let r0 = routes.first();
        let rest = concat_routes(routes.skip(1));
        assert(bits.subrange(pos, end) == r0 + rest);
        assert(end - pos == r0.len() + rest.len());
        let i = choose|i: int|
            0 <= i < tree.leaves_spec().len() && tree.leaves_spec()[i] == (data[0], r0);
        tree.lemma_branch_routes_nonempty();
        assert(r0.len() >= 1);
        let window = bits.take(end);
        assert(window.subrange(pos, pos + r0.len() as int) =~= r0) by {
            assert forall|k: int|
                0 <= k < r0.len() implies #[trigger] window.subrange(
                pos,
                pos + r0.len() as int,
            )[k] == r0[k] by {
                assert(bits.subrange(pos, end)[k] == (r0 + rest)[k]);
            }
        }
        tree.lemma_descend_route(i, window, pos);
        let p2 = pos + r0.len() as int;
        assert(bits.subrange(p2, end) =~= rest) by {
            assert forall|k: int| 0 <= k < rest.len() implies #[trigger] bits.subrange(
                p2,
                end,
            )[k] == rest[k] by {
                assert(bits.subrange(pos, end)[r0.len() + k] == (r0 + rest)[r0.len() + k]);
            }
        }
        assert forall|j: int| #![trigger routes.skip(1)[j]] 0 <= j < data.skip(1).len() implies exists|i2: int|
            0 <= i2 < tree.leaves_spec().len() && #[trigger] tree.leaves_spec()[i2] == (
            data.skip(1)[j],
            routes.skip(1)[j],
        ) by {
            assert(data.skip(1)[j] == data[j + 1]);
            assert(routes.skip(1)[j] == routes[j + 1]);
            let iw = choose|iw: int|
                0 <= iw < tree.leaves_spec().len() && tree.leaves_spec()[iw] == (
                data[j + 1],
                routes[j + 1],
            );
            assert(0 <= iw < tree.leaves_spec().len() && tree.leaves_spec()[iw] == (
            data.skip(1)[j],
            routes.skip(1)[j],
            ));
        }
        lemma_decode_concat(tree, data.skip(1), routes.skip(1), bits, p2, end);
        assert(seq![data[0]] + data.skip(1) =~= data);
    }
}

/// The three header bits, assembled least significant first.
pub open spec fn padding_of(bits: Seq<bool>) -> int {
    (if bits[0] {
        1int
    } else {
        0int
    }) + (if bits[1] {
        2int
    } else {
        0int
    }) + (if bits[2] {
        4int
    } else {
        0int
    })
}

/// What a compressed artifact decodes to.  The empty artifact stands for
/// the empty input.  Otherwise the three padding bits are read, then the
/// tree; a one-leaf tree is malformed (the encoder never emits one), a
/// tree that the bits cannot finish is a truncation, as is a declared
/// padding that would reach back into the header; the remaining payload
/// bits then replay codes against the tree, and ending mid-descent is an
/// overrun.
pub open spec fn spec_decompress(data: Seq<u8>) -> Result<Seq<u8>, CodecError> {
    if data.len() == 0 {
        Ok(Seq::empty())
    } else {
        let bits = bytes_to_bits(data);
        let total = bits.len() as int;
        let padding = padding_of(bits);
        match parse_node::<u8>(bits, 3) {
            None => Err(CodecError::TruncatedStream),
            Some((tree, pos)) => if !(tree is Branch) {
                Err(CodecError::MalformedTree)
            } else if total - padding < pos {
                Err(CodecError::TruncatedStream)
            } else {
                match decode_payload(tree, bits, pos, total - padding) {
                    None => Err(CodecError::PayloadOverrun),
                    Some(out) => Ok(out),
                }
            },
        }
    }
}

/// Replays codes over the bits in `[pos, end)`, appending the byte of
/// each leaf reached, as `decode_payload` describes.
pub fn apply_tree(tree: &BinaryTree<u8>, bits: &Vec<bool>, pos: usize, end: usize) -> (r: Option<
    Vec<u8>,
>)
    requires
        tree.root is Branch,
        pos <= end <= bits@.len(),
    ensures
        (match r {
            Some(out) => decode_payload(tree.root, bits@, pos as int, end as int) == Some(out@),
            None => decode_payload(tree.root, bits@, pos as int, end as int) is None,
        }),
{
    let window = crate::binarytree::clone_bits_prefix(bits, end);
    let mut out: Vec<u8> = Vec::new();
    let mut p = pos;
    while p < end
        invariant
            pos <= p <= end <= bits@.len(),
            tree.root is Branch,
            window@ == bits@.take(end as int),
            (decode_payload(tree.root, bits@, p as int, end as int) matches Some(rest)
                ==> decode_payload(tree.root, bits@, pos as int, end as int) == Some(out@ + rest)),
            (decode_payload(tree.root, bits@, p as int, end as int) is None ==> decode_payload(
                tree.root,
                bits@,
                pos as int,
                end as int,
            ) is None),
        decreases end - p,
    {
        let ghost before = out@;
        match tree.get_leaf(&window, p) {
            Some((b, p2)) => {
                proof {
                    tree.root.lemma_descend_bounds(window@, p as int);
                }
                out.push(b);
                p = p2;
                proof {
                    assert forall|rest: Seq<u8>|
                        decode_payload(tree.root, bits@, p as int, end as int) == Some(
                            rest,
                        ) implies decode_payload(tree.root, bits@, pos as int, end as int) == Some(
                        out@ + rest,
                    ) by {
                        assert(before + (seq![b] + rest) =~= out@ + rest);
                    }
                }
            },
            None => {
                return None;
            },
        }
    }
    proof {
        assert(out@ + Seq::<u8>::empty() =~= out@);
    }
    Some(out)
}

/// Decompresses an artifact, returning exactly what `spec_decompress`
/// says: the original bytes, or the artifact's defect.
pub fn decompress(data: Vec<u8>) -> (r: Result<Vec<u8>, CodecError>)
    ensures
        (match r {
            Ok(out) => spec_decompress(data@) == Ok::<Seq<u8>, CodecError>(out@),
            Err(e) => spec_decompress(data@) == Err::<Seq<u8>, CodecError>(e),
        }),
{
    if data.len() == 0 {
        return Ok(Vec::new());
    }
    let bits = unpack_bits(&data);
    let total = bits.len();
    let mut padding: usize = 0;
    if bits[0] {
        padding = padding + 1;
    }
    if bits[1] {
        padding = padding + 2;
    }
    if bits[2] {
        padding = padding + 4;
    }
    match BTreeNode::<u8>::load_node(&bits, 3) {
        None => Err(CodecError::TruncatedStream),
        Some((root, pos)) => {
            match root {
                BTreeNode::Leaf { .. } => Err(CodecError::MalformedTree),
                BTreeNode::Branch { .. } => {
                    if total - padding < pos {
                        Err(CodecError::TruncatedStream)
                    } else {
                        let tree = BinaryTree { root };
                        match apply_tree(&tree, &bits, pos, total - padding) {
                            Some(out) => Ok(out),
                            None => Err(CodecError::PayloadOverrun),
                        }
                    }
                },
            }
        },
    }
}

} // verus!
