use vstd::prelude::*;

verus! {

/// Index of a node, or of a head, inside its own array.
pub type NodeIndex = u32;

/// The bit that marks an encoded link index as a head.
pub const HEAD_FLAG: u32 = 0x8000_0000;

/// The largest count of heads or of nodes that the encoding can address.
pub const MAX_INDEX_COUNT: u32 = 0x7fff_ffff;

/// A tagged address of a linkable slot: a node or a head.
#[derive(Clone, Copy, PartialEq, Eq, Structural, Debug)]
pub enum LinkIndex {
    Node(NodeIndex),
    Head(NodeIndex),
}

/// The on-disk word of a link index: heads carry the high bit.
pub open spec fn encode(l: LinkIndex) -> u32 {
    match l {
        LinkIndex::Node(n) => n,
        LinkIndex::Head(h) => (h + 0x8000_0000) as u32,
    }
}

/// The link index that an on-disk word stands for.
pub open spec fn decode(w: u32) -> LinkIndex {
    if w < 0x8000_0000 {
        LinkIndex::Node(w)
    } else {
        LinkIndex::Head((w - 0x8000_0000) as u32)
    }
}

/// The numeric part of a link index fits in the 31 bits that the encoding leaves.
pub open spec fn encodable(l: LinkIndex) -> bool {
    match l {
        LinkIndex::Node(n) => n < 0x8000_0000,
        LinkIndex::Head(h) => h < 0x8000_0000,
    }
}

impl LinkIndex {
    /// Encodes this index as an on-disk word.
    pub fn to_node(self) -> (r: NodeIndex)
        requires
            encodable(self),
        ensures
            r == encode(self),
    {
        match self {
            LinkIndex::Node(n) => n,
            LinkIndex::Head(n) => {
                let r = n | HEAD_FLAG;
                assert(r == n + 0x8000_0000) by (bit_vector)
                    requires n < 0x8000_0000u32, r == n | 0x8000_0000u32;
                r
            },
        }
    }

    /// Decodes an on-disk word.
    pub fn from_node(idx: NodeIndex) -> (r: LinkIndex)
        ensures
            r == decode(idx),
            encodable(r),
    {
        if idx & HEAD_FLAG == 0 {
            assert(idx < 0x8000_0000) by (bit_vector)
                requires idx & 0x8000_0000u32 == 0u32;
            LinkIndex::Node(idx)
        } else {
            let n = idx & !HEAD_FLAG;
            assert(idx >= 0x8000_0000 && n == idx - 0x8000_0000) by (bit_vector)
                requires idx & 0x8000_0000u32 != 0u32, n == idx & !0x8000_0000u32;
            LinkIndex::Head(n)
        }
    }
}

/// Decoding an encoded index gives the index back, for nodes and heads alike.
pub proof fn lemma_decode_encode(l: LinkIndex)
    requires
        encodable(l),
    ensures
        decode(encode(l)) == l,
{
}

/// Encoding a decoded word gives the word back.
pub proof fn lemma_encode_decode(w: u32)
    ensures
        encode(decode(w)) == w,
        encodable(decode(w)),
{
}

/// Two encodable indices share a word exactly when they are the same index.
pub proof fn lemma_encode_injective(a: LinkIndex, b: LinkIndex)
    requires
        encodable(a),
        encodable(b),
    ensures
        encode(a) == encode(b) <==> a == b,
{
    lemma_decode_encode(a);
    lemma_decode_encode(b);
}

} // verus!
