use vstd::prelude::*;

use crate::index::{NodeIndex, MAX_INDEX_COUNT};

verus! {

/// The magic word at the start of every image: "ACID".
pub const HEADER_MAGIC: u32 = 0x4143_4944;

/// Bytes taken by the header: four 32-bit words.
pub const HEADER_SIZE: u64 = 16;

/// Bytes taken by a link: two 32-bit words.
pub const LINK_SIZE: u64 = 8;

/// Alignment of links, and of the nodes that start with one.
pub const LINK_ALIGN: u64 = 4;

/// The fixed prefix of an image: its magic word, the payload size and the
/// counts of heads and of nodes.
#[derive(Clone, Copy, PartialEq, Eq, Structural, Debug)]
pub struct Header {
    pub magic: u32,
    pub data_size: u32,
    pub heads: NodeIndex,
    pub nodes: NodeIndex,
}

/// `x` rounded up to the next multiple of `a`.
pub open spec fn align_up(x: int, a: int) -> int {
    (x + a - 1) / a * a
}

/// Bytes taken by one node: its link, then its payload, padded to the link alignment.
pub open spec fn node_size_of(data_size: int) -> int {
    align_up(LINK_SIZE + data_size, LINK_ALIGN as int)
}

/// Offset of the heads array.
pub open spec fn heads_offset_of() -> int {
    align_up(HEADER_SIZE as int, LINK_ALIGN as int)
}

/// Offset of the nodes array, for a given count of heads.
pub open spec fn nodes_offset_of(heads: int) -> int {
    align_up(heads_offset_of() + heads * LINK_SIZE, LINK_ALIGN as int)
}

/// Length of an image with the given shape.
pub open spec fn file_size_of(data_size: int, heads: int, nodes: int) -> int {
    nodes_offset_of(heads) + nodes * node_size_of(data_size)
}

/// Rounds `offset` up to the next multiple of `align`.
pub fn align_to(offset: u64, align: u64) -> (r: u64)
    requires
        align > 0,
        offset + align - 1 <= u64::MAX,
    ensures
        r == align_up(offset as int, align as int),
        offset <= r < offset + align,
{
    let q = (offset + (align - 1)) / align;
    assert(offset <= q * align <= offset + align - 1) by (nonlinear_arith)
        requires
            align > 0,
            q as int == (offset + align - 1) as int / align as int,
    ;
    q * align
}

/// Size of one node, as `node_size_of` gives it.
pub fn node_size(data_size: u32) -> (r: u64)
    ensures
        r == node_size_of(data_size as int),
        8 + data_size <= r <= data_size + 11,
{
    let r = align_to(LINK_SIZE + data_size as u64, LINK_ALIGN);
    r
}

impl Header {
    /// The header of an image with `heads` lists, `nodes` nodes and payloads
    /// of `data_size` bytes.
    pub fn new(heads: NodeIndex, nodes: NodeIndex, data_size: u32) -> (r: Header)
        ensures
            r.magic == HEADER_MAGIC,
            r.data_size == data_size,
            r.heads == heads,
            r.nodes == nodes,
    {
        Header { magic: HEADER_MAGIC, data_size, heads, nodes }
    }

    /// Offset of the heads array.
    pub fn heads_offset(&self) -> (r: u64)
        ensures
            r == heads_offset_of(),
            r == HEADER_SIZE,
    {
        align_to(HEADER_SIZE, LINK_ALIGN)
    }

    /// Offset of the nodes array.
    pub fn nodes_offset(&self) -> (r: u64)
        ensures
            r == nodes_offset_of(self.heads as int),
            HEADER_SIZE + self.heads * LINK_SIZE <= r <= HEADER_SIZE + self.heads * LINK_SIZE + 3,
    {
        align_to(self.heads_offset() + self.heads as u64 * LINK_SIZE, LINK_ALIGN)
    }

    /// Length of an image with this header's shape.
    pub fn file_size(&self) -> (r: u64)
        requires
            self.nodes <= MAX_INDEX_COUNT,
        ensures
            r == file_size_of(self.data_size as int, self.heads as int, self.nodes as int),
    {
        let ns = node_size(self.data_size);
        let n = self.nodes as u64;
        assert(n * ns <= 0x7fff_ffff * 0x1_0000_000a) by (nonlinear_arith)
            requires
                ns <= 0x1_0000_000a,
                n <= 0x7fff_ffff,
        ;
        let off = self.nodes_offset();
        off + n * ns
    }
}

} // verus!
