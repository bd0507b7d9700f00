//! The BIOS Huffman codec (decompression only).
//!
//! A stream is the shared header (type 2, parameter the bit width) followed
//! by one tree-size byte `n`, a packed `2n + 1`-byte tree table, and a
//! bit stream of little-endian 32-bit words consumed most significant bit
//! first.  The table is deserialized once into an owned binary tree: each
//! branch byte's top two bits say whether its children are leaves, and its
//! low six bits are a child base index from which both child offsets are
//! computed.  Decoding walks the tree bit by bit, emitting a leaf's byte and
//! restarting at the root, until the declared size is reached.
//!
//! The matching compressor was never part of the format's contract and is
//! reported as unimplemented.

use vstd::prelude::*;

use crate::bios::{bios_compression_type, bios_compression_type_spec, BiosCompressionType};
use crate::bytes::{read_u32_le, u24_le_at, u32_le_at};
use crate::compressor::Compressor;
use crate::error::{result_view, CompressionError};

verus! {

/// An owned Huffman tree: a branch holds both children, a leaf one output
/// byte.
pub enum HuffmanNode {
    Branch { node0: Box<HuffmanNode>, node1: Box<HuffmanNode> },
    Leaf { value: u8 },
}

/// The table offset from which a branch at `offset` addresses its children:
/// child 0 lives at this base plus twice the branch's child index, child 1
/// one byte later.
pub open spec fn huffman_child_base(offset: int) -> int {
    if offset % 2 == 0 {
        offset + 1
    } else {
        offset + 2
    }
}

/// The tree stored at `offset` of the packed table: a leaf byte, or a
/// branch whose children are read recursively.  Fails with `OutOfBounds`
/// when an offset leaves the table.
pub open spec fn read_node_spec(t: Seq<u8>, offset: int, is_leaf: bool) -> Result<
    HuffmanNode,
    CompressionError,
>
    decreases
            (if t.len() - offset >= 0 {
                t.len() - offset
            } else {
                0
            }),
            (if is_leaf {
                0int
            } else {
                1int
            }),
        when 0 <= offset
{
    if offset >= t.len() {
        Err(CompressionError::OutOfBounds)
    } else if is_leaf {
        Ok(HuffmanNode::Leaf { value: t[offset] })
    } else {
        let node = t[offset];
        let node0_leaf = (node >> 7) & 1 == 1;
        let node1_leaf = (node >> 6) & 1 == 1;
        let node0_offset = huffman_child_base(offset) + 2 * (node & 0x3F);
        match read_node_spec(t, node0_offset, node0_leaf) {
            Err(e) => Err(e),
            Ok(n0) => match read_node_spec(t, node0_offset + 1, node1_leaf) {
                Err(e) => Err(e),
                Ok(n1) => Ok(HuffmanNode::Branch { node0: Box::new(n0), node1: Box::new(n1) }),
            },
        }
    }
}

/// The height of a tree: 0 for a leaf.
pub open spec fn huffman_height(n: HuffmanNode) -> int
    decreases n,
{
    match n {
        HuffmanNode::Leaf { .. } => 0,
        HuffmanNode::Branch { node0, node1 } => {
            let h0 = huffman_height(*node0);
            let h1 = huffman_height(*node1);
            1 + if h0 >= h1 {
                h0
            } else {
                h1
            }
        },
    }
}

/// Walks the tree over the bit stream: `bits` holds the `remaining` not yet
/// consumed bits of the current 32-bit word, most significant first, and
/// `pos` is the position of the next word.  Emitting a leaf restarts at
/// `root`; decoding ends when `out` reaches `size`.
pub open spec fn huffman_decode_bits(
    input: Seq<u8>,
    pos: int,
    bits: u32,
    remaining: int,
    node: HuffmanNode,
    root: HuffmanNode,
    out: Seq<u8>,
    size: int,
) -> Result<Seq<u8>, CompressionError>
    decreases size - out.len(), huffman_height(node),
        via huffman_decode_bits_decreases
{
    if out.len() >= size {
        Ok(out)
    } else {
        match node {
            HuffmanNode::Leaf { .. } => Err(CompressionError::InvalidFormat),
            HuffmanNode::Branch { node0, node1 } => {
                let next = if bits >= 0x80000000 {
                    *node1
                } else {
                    *node0
                };
                let bits2 = bits << 1;
                match next {
                    HuffmanNode::Leaf { value } => {
                        let out2 = out.push(value);
                        if remaining - 1 == 0 && out2.len() < size {
                            if pos + 4 > input.len() {
                                Err(CompressionError::Truncated)
                            } else {
                                huffman_decode_bits(
                                    input,
                                    pos + 4,
                                    u32_le_at(input, pos) as u32,
                                    32,
                                    root,
                                    root,
                                    out2,
                                    size,
                                )
                            }
                        } else {
                            huffman_decode_bits(
                                input,
                                pos,
                                bits2,
                                remaining - 1,
                                root,
                                root,
                                out2,
                                size,
                            )
                        }
                    },
                    HuffmanNode::Branch { .. } => {
                        if remaining - 1 == 0 && out.len() < size {
                            if pos + 4 > input.len() {
                                Err(CompressionError::Truncated)
                            } else {
                                huffman_decode_bits(
                                    input,
                                    pos + 4,
                                    u32_le_at(input, pos) as u32,
                                    32,
                                    next,
                                    root,
                                    out,
                                    size,
                                )
                            }
                        } else {
                            huffman_decode_bits(input, pos, bits2, remaining - 1, next, root, out, size)
                        }
                    },
                }
            },
        }
    }
}

/// A tree's height is never negative.
proof fn lemma_huffman_height_nonneg(n: HuffmanNode)
    ensures
        huffman_height(n) >= 0,
    decreases n,
{
    match n {
        HuffmanNode::Branch { node0, node1 } => {
            lemma_huffman_height_nonneg(*node0);
            lemma_huffman_height_nonneg(*node1);
        },
        HuffmanNode::Leaf { .. } => {
        },
    }
}

#[via_fn]
proof fn huffman_decode_bits_decreases(
    input: Seq<u8>,
    pos: int,
    bits: u32,
    remaining: int,
    node: HuffmanNode,
    root: HuffmanNode,
    out: Seq<u8>,
    size: int,
) {
    if out.len() < size {
        match node {
            HuffmanNode::Branch { node0, node1 } => {
                let h0 = huffman_height(*node0);
                let h1 = huffman_height(*node1);
                lemma_huffman_height_nonneg(*node0);
                lemma_huffman_height_nonneg(*node1);
                assert(huffman_height(node) == 1 + if h0 >= h1 {
                    h0
                } else {
                    h1
                });
            },
            HuffmanNode::Leaf { .. } => {
            },
        }
    }
}

/// What decompressing a Huffman stream yields.
pub open spec fn huffman_decompress_spec(input: Seq<u8>) -> Result<Seq<u8>, CompressionError> {
    if input.len() < 1 {
        Err(CompressionError::Truncated)
    } else if bios_compression_type_spec(input[0]) != Some(BiosCompressionType::Huffman) {
        Err(CompressionError::InvalidFormat)
    } else if input.len() < 4 {
        Err(CompressionError::Truncated)
    } else {
        let size = u24_le_at(input, 1);
        if input.len() < 5 {
            Err(CompressionError::Truncated)
        } else {
            let tree_size = 2 * input[4] + 1;
            if input.len() < 5 + tree_size {
                Err(CompressionError::Truncated)
            } else {
                match read_node_spec(input.subrange(5, 5 + tree_size), 0, false) {
                    Err(e) => Err(e),
                    Ok(root) => {
                        let bit_pos = 5 + tree_size;
                        if bit_pos + 4 > input.len() {
                            Err(CompressionError::Truncated)
                        } else {
                            huffman_decode_bits(
                                input,
                                bit_pos + 4,
                                u32_le_at(input, bit_pos) as u32,
                                32,
                                root,
                                root,
                                Seq::empty(),
                                size,
                            )
                        }
                    },
                }
            }
        }
    }
}

/// Deserializes the node stored at `offset` of the packed tree table.
fn read_node(tree: &[u8], offset: usize, is_leaf: bool) -> (result: Result<
    HuffmanNode,
    CompressionError,
>)
    requires
        tree@.len() <= 0x1000,
    ensures
        result == read_node_spec(tree@, offset as int, is_leaf),
    decreases
            (if tree@.len() - offset >= 0 {
                tree@.len() - offset
            } else {
                0
            }),
            (if is_leaf {
                0int
            } else {
                1int
            }),
{
    if offset >= tree.len() {
        return Err(CompressionError::OutOfBounds);
    }
    if is_leaf {
        return Ok(HuffmanNode::Leaf { value: tree[offset] });
    }
    let node = tree[offset];
    let node0_leaf = (node >> 7) & 1 == 1;
    let node1_leaf = (node >> 6) & 1 == 1;
    let aligned = (offset + 3) & !1usize;
    proof {
        let o = offset;
        assert((((o + 3) as usize) & !1usize) == (if ((o + 3) as usize) % 2 == 0 {
            (o + 3) as usize
        } else {
            (o + 2) as usize
        })) by (bit_vector)
            requires
                o < 0x1000usize,
        ;
        assert(aligned == if (o + 3) % 2 == 0 {
            o + 3
        } else {
            o + 2
        });
    }
    let node0_offset = aligned - 1 + (node & 0x3F) as usize * 2;
    assert(node0_offset == huffman_child_base(offset as int) + 2 * (node & 0x3F));
    let n0 = match read_node(tree, node0_offset, node0_leaf) {
        Ok(n) => n,
        Err(e) => {
            return Err(e);
        },
    };
    let n1 = match read_node(tree, node0_offset + 1, node1_leaf) {
        Ok(n) => n,
        Err(e) => {
            return Err(e);
        },
    };
    Ok(HuffmanNode::Branch { node0: Box::new(n0), node1: Box::new(n1) })
}

/// Decompresses a BIOS Huffman stream.
///
/// Returns exactly the declared number of bytes; fails with `InvalidFormat`
/// on a header whose type is not Huffman, `OutOfBounds` on a tree offset
/// that leaves the table, and `Truncated` when the input ends early.
pub fn decompress_huffman(input: &[u8]) -> (result: Result<Vec<u8>, CompressionError>)
    ensures
        result_view(result) == huffman_decompress_spec(input@),
{
    if input.len() < 1 {
        return Err(CompressionError::Truncated);
    }
    if bios_compression_type(input[0]) != Some(BiosCompressionType::Huffman) {
        return Err(CompressionError::InvalidFormat);
    }
    if input.len() < 4 {
        return Err(CompressionError::Truncated);
    }
    let size = crate::bytes::read_u24_le(input, 1) as usize;
    if input.len() < 5 {
        return Err(CompressionError::Truncated);
    }
    let tree_size = 2 * (input[4] as usize) + 1;
    if input.len() - 5 < tree_size {
        return Err(CompressionError::Truncated);
    }
    let mut tree_data: Vec<u8> = Vec::new();
    crate::bytes::push_slice_range(&mut tree_data, input, 5, 5 + tree_size);
    assert(tree_data@ =~= input@.subrange(5, 5 + tree_size as int));
    let root = match read_node(tree_data.as_slice(), 0, false) {
        Ok(n) => n,
        Err(e) => {
            return Err(e);
        },
    };
    let bit_pos = 5 + tree_size;
    if input.len() - bit_pos < 4 {
        return Err(CompressionError::Truncated);
    }
    let mut bits = read_u32_le(input, bit_pos);
    let mut pos = bit_pos + 4;
    let mut remaining: usize = 32;
    let ghost target = huffman_decode_bits(
        input@,
        pos as int,
        bits,
        32,
        root,
        root,
        Seq::empty(),
        size as int,
    );
    assert(root is Branch);
    let mut out: Vec<u8> = Vec::new();
    let mut cur: &HuffmanNode = &root;
    while out.len() < size
        invariant
            pos <= input@.len(),
            out@.len() <= size,
            remaining <= 32,
            out@.len() < size ==> remaining >= 1,
            *cur is Branch,
            root is Branch,
            huffman_decode_bits(
                input@,
                pos as int,
                bits,
                remaining as int,
                *cur,
                root,
                out@,
                size as int,
            ) == target,
            huffman_decompress_spec(input@) == target,
        decreases size - out@.len(), huffman_height(*cur),
    {
        match cur {
            HuffmanNode::Branch { node0, node1 } => {
                let next: &HuffmanNode = if bits >= 0x80000000 {
                    &**node1
                } else {
                    &**node0
                };
                proof {
                    let h0 = huffman_height(**node0);
                    let h1 = huffman_height(**node1);
                    lemma_huffman_height_nonneg(**node0);
                    lemma_huffman_height_nonneg(**node1);
                    assert(huffman_height(*cur) == 1 + if h0 >= h1 {
                        h0
                    } else {
                        h1
                    });
                    assert(huffman_height(*next) < huffman_height(*cur));
                    assert(huffman_height(*next) >= 0);
                }
                bits = bits << 1;
                remaining = remaining - 1;
                match next {
                    HuffmanNode::Leaf { value } => {
                        out.push(*value);
                        cur = &root;
                    },
                    HuffmanNode::Branch { .. } => {
                        cur = next;
                    },
                }
                if remaining == 0 && out.len() < size {
                    if input.len() - pos < 4 {
                        return Err(CompressionError::Truncated);
                    }
                    bits = read_u32_le(input, pos);
                    pos = pos + 4;
                    remaining = 32;
                }
            },
            HuffmanNode::Leaf { .. } => {
                proof {
                    assert(false);
                }
            },
        }
    }
    Ok(out)
}

/// Huffman compression is not part of the format's contract: the call
/// always reports `Unimplemented`.
pub fn compress_huffman(input: &[u8]) -> (result: Result<Vec<u8>, CompressionError>)
    ensures
        result == Err::<Vec<u8>, CompressionError>(CompressionError::Unimplemented),
{
    Err(CompressionError::Unimplemented)
}


/// The Huffman codec as a `Compressor`: decompression only.
#[derive(Clone, Copy, Default)]
pub struct HuffmanCompressor;

impl Compressor for HuffmanCompressor {
    fn compress(&self, input: &[u8]) -> (result: Result<Vec<u8>, CompressionError>)
        ensures
            result == Err::<Vec<u8>, CompressionError>(CompressionError::Unimplemented),
    {
        compress_huffman(input)
    }

    fn decompress(&self, input: &[u8]) -> (result: Result<Vec<u8>, CompressionError>)
        ensures
            result_view(result) == huffman_decompress_spec(input@),
    {
        decompress_huffman(input)
    }
}

} // verus!

