use vstd::prelude::*;

use super::{shape_ok, word_in, AcidList, Error, Link};
use crate::index::MAX_INDEX_COUNT;
use crate::layout::HEADER_MAGIC;
use crate::index::{decode, encode, LinkIndex, NodeIndex};
use crate::layout::{file_size_of, node_size, node_size_of, nodes_offset_of, Header, HEADER_SIZE, LINK_SIZE};

verus! {

/// The 32-bit word stored little-endian at `off`.
#[verifier::opaque]
pub open spec fn read_u32(b: Seq<u8>, off: int) -> u32 {
    (b[off] + 256 * b[off + 1] + 65536 * b[off + 2] + 16777216 * b[off + 3]) as u32
}

/// What `read_u32` reads: the four bytes at `off`, least significant first.
pub proof fn lemma_read_u32(b: Seq<u8>, off: int)
    ensures
        read_u32(b, off) == (b[off] + 256 * b[off + 1] + 65536 * b[off + 2] + 16777216 * b[off
            + 3]) as u32,
{
    reveal(read_u32);
}

/// Reads the little-endian word at `off`.
fn get_u32(b: &[u8], off: usize) -> (r: u32)
    requires
        off + 4 <= b@.len(),
    ensures
        r == read_u32(b@, off as int),
{
    reveal(read_u32);
    b[off] as u32 + 256 * (b[off + 1] as u32) + 65536 * (b[off + 2] as u32) + 16777216 * (b[off
        + 3] as u32)
}

/// Writes `x` little-endian at `off`, leaving every other byte as it was.
fn put_u32(v: &mut Vec<u8>, off: usize, x: u32)
    requires
        off + 4 <= old(v)@.len(),
    ensures
        final(v)@.len() == old(v)@.len(),
        read_u32(final(v)@, off as int) == x,
        forall|k: int| 0 <= k < old(v)@.len() && (k < off || off + 4 <= k) ==> #[trigger] final(v)@[k] == old(v)@[k],
        forall|o: int| 0 <= o && o + 4 <= old(v)@.len() && (o + 4 <= off || off + 4 <= o) ==> #[trigger] read_u32(final(v)@, o) == read_u32(old(v)@, o),
{
    let b0 = (x % 256) as u8;
    let b1 = (x / 256 % 256) as u8;
    let b2 = (x / 65536 % 256) as u8;
    let b3 = (x / 16777216) as u8;
    let n = v.len();
    assert(off + 4 <= n);
    let (o1, o2, o3) = (off + 1, off + 2, off + 3);
    v.set(off, b0);
    v.set(o1, b1);
    v.set(o2, b2);
    v.set(o3, b3);
    assert(x == b0 + 256 * b1 + 65536 * b2 + 16777216 * b3);
    reveal(read_u32);
}

/// Copies `src` into `v` at `off`, leaving every other byte as it was.
fn put_bytes(v: &mut Vec<u8>, off: usize, src: &[u8])
    requires
        off + src@.len() <= old(v)@.len(),
    ensures
        final(v)@.len() == old(v)@.len(),
        forall|k: int| 0 <= k < src@.len() ==> #[trigger] final(v)@[off + k] == src@[k],
        forall|k: int| 0 <= k < old(v)@.len() && (k < off || off + src@.len() <= k) ==> #[trigger] final(v)@[k] == old(v)@[k],
        forall|o: int| 0 <= o && o + 4 <= old(v)@.len() && (o + 4 <= off || off + src@.len() <= o) ==> #[trigger] read_u32(final(v)@, o) == read_u32(old(v)@, o),
{
    let n = v.len();
    let mut j: usize = 0;
    while j < src.len()
        invariant
            off + src@.len() <= n,
            n == old(v)@.len(),
            v@.len() == n,
            j <= src@.len(),
            forall|k: int| 0 <= k < j ==> #[trigger] v@[off + k] == src@[k],
            forall|k: int| 0 <= k < n && (k < off || off + j <= k) ==> #[trigger] v@[k] == old(v)@[k],
        decreases src@.len() - j,
    {
        v.set(off + j, src[j]);
        j = j + 1;
    }
    assert forall|o: int| 0 <= o && o + 4 <= old(v)@.len() && (o + 4 <= off || off + src@.len() <= o) implies #[trigger] read_u32(v@, o) == read_u32(old(v)@, o) by {
        reveal(read_u32);
        assert(v@[o] == old(v)@[o] && v@[o + 1] == old(v)@[o + 1] && v@[o + 2] == old(v)@[o + 2] && v@[o + 3] == old(v)@[o + 3]);
    }
}

/// Consecutive strides do not overlap.
proof fn lemma_stride(ns: int, j: int, i: int)
    requires
        0 <= j < i,
        0 <= ns,
    ensures
        j * ns + ns <= i * ns,
{
    assert(j * ns + ns <= i * ns) by (nonlinear_arith)
        requires
            0 <= j < i,
            0 <= ns,
    ;
}

/// The header that the first sixteen bytes of an image record.
pub open spec fn header_of(b: Seq<u8>) -> Header {
    Header {
        magic: read_u32(b, 0),
        data_size: read_u32(b, 4),
        heads: read_u32(b, 8),
        nodes: read_u32(b, 12),
    }
}

/// Offset of the link of the slot that `w` addresses, in an image with header `hd`.
pub open spec fn slot_offset(hd: Header, w: u32) -> int {
    match decode(w) {
        LinkIndex::Head(h) => HEADER_SIZE + h * LINK_SIZE,
        LinkIndex::Node(i) => nodes_offset_of(hd.heads as int) + i * node_size_of(
            hd.data_size as int,
        ),
    }
}

/// The link that an image records for the slot that `w` addresses.
pub open spec fn image_link(b: Seq<u8>, hd: Header, w: u32) -> Link {
    Link { previous: read_u32(b, slot_offset(hd, w)), next: read_u32(b, slot_offset(hd, w) + 4) }
}

/// The links that an image records are valid and symmetric.
pub open spec fn image_links_ok(b: Seq<u8>, hd: Header) -> bool {
    forall|w: u32| #[trigger]
        word_in(hd, w) ==> {
            let l = image_link(b, hd, w);
            &&& word_in(hd, l.previous)
            &&& word_in(hd, l.next)
            &&& image_link(b, hd, l.next).previous == w
            &&& image_link(b, hd, l.previous).next == w
        }
}

/// The error with which an image is refused on its length and header
/// alone, if it is.
pub open spec fn header_error(b: Seq<u8>, data_size: u32) -> Option<Error> {
    let hd = header_of(b);
    if b.len() < HEADER_SIZE {
        Some(Error::NotInitialized)
    } else if hd.magic != HEADER_MAGIC {
        Some(Error::WrongArchitecture)
    } else if hd.data_size != data_size {
        Some(Error::WrongDataType)
    } else if !shape_ok(hd) || b.len() != file_size_of(
        hd.data_size as int,
        hd.heads as int,
        hd.nodes as int,
    ) {
        Some(Error::NotInitialized)
    } else {
        None
    }
}

/// Copies `n` bytes of `b` from `off`.
fn copy_range(b: &[u8], off: usize, n: usize) -> (r: Vec<u8>)
    requires
        off + n <= b@.len(),
    ensures
        r@ == b@.subrange(off as int, off + n),
{
    let mut r: Vec<u8> = Vec::new();
    let len = b.len();
    assert(off + n <= len);
    let mut k: usize = 0;
    while k < n
        invariant
            off + n <= b@.len(),
            b@.len() <= usize::MAX,
            k <= n,
            r@ == b@.subrange(off as int, off + k),
        decreases n - k,
    {
        r.push(b[off + k]);
        k = k + 1;
        assert(r@ =~= b@.subrange(off as int, off + k));
    }
    r
}

impl AcidList {
    /// `b` is the byte image of this list: its header, every link and every
    /// payload byte stand where the layout puts them.
    pub open spec fn is_image(&self, b: Seq<u8>) -> bool {
        let hd = self.spec_header();
        &&& b.len() == file_size_of(hd.data_size as int, hd.heads as int, hd.nodes as int)
        &&& header_of(b) == hd
        &&& forall|w: u32| #[trigger]
            self.valid_word(w) ==> self.slot(w) == image_link(b, hd, w)
        &&& forall|i: int, k: int|
            0 <= i < hd.nodes && 0 <= k < hd.data_size ==> b[slot_offset(hd, i as u32) + 8 + k]
                == #[trigger] self.payload(i)[k]
    }

    /// The byte image of this list.
    pub fn to_bytes(&self) -> (r: Vec<u8>)
        requires
            self.shaped(),
            file_size_of(
                self.spec_header().data_size as int,
                self.spec_header().heads as int,
                self.spec_header().nodes as int,
            ) <= usize::MAX,
        ensures
            self.is_image(r@),
    {
        let hd = self.header;
        let size = hd.file_size() as usize;
        let mut v = AcidList::zeroed(size);
        put_u32(&mut v, 0, hd.magic);
        put_u32(&mut v, 4, hd.data_size);
        put_u32(&mut v, 8, hd.heads);
        put_u32(&mut v, 12, hd.nodes);
        let n_heads = hd.heads as usize;
        let mut h: usize = 0;
        while h < n_heads
            invariant
                self.shaped(),
                hd == self.header,
                n_heads == hd.heads,
                size == file_size_of(hd.data_size as int, hd.heads as int, hd.nodes as int),
                h <= n_heads,
                v@.len() == size,
                header_of(v@) == hd,
                forall|j: int| 0 <= j < h ==> read_u32(v@, HEADER_SIZE + 8 * j) == #[trigger] self.heads@[j].previous
                    && read_u32(v@, HEADER_SIZE + 8 * j + 4) == self.heads@[j].next,
            decreases n_heads - h,
        {
            let off = 16 + 8 * h;
            let ghost v0 = v@;
            put_u32(&mut v, off, self.heads[h].previous);
            let ghost v1 = v@;
            put_u32(&mut v, off + 4, self.heads[h].next);
            proof {
                assert forall|j: int| 0 <= j <= h implies read_u32(v@, HEADER_SIZE + 8 * j) == #[trigger] self.heads@[j].previous
                    && read_u32(v@, HEADER_SIZE + 8 * j + 4) == self.heads@[j].next by {
                    if j < h {
                        assert(read_u32(v0, HEADER_SIZE + 8 * j) == self.heads@[j].previous);
                        assert(read_u32(v1, HEADER_SIZE + 8 * j) == read_u32(v0, HEADER_SIZE + 8 * j));
                        assert(read_u32(v1, HEADER_SIZE + 8 * j + 4) == read_u32(v0, HEADER_SIZE + 8 * j + 4));
                    } else {
                        assert(read_u32(v@, off as int) == read_u32(v1, off as int));
                    }
                }
            }
            h = h + 1;
        }
        let base = hd.nodes_offset();
        let ns = node_size(hd.data_size);
        let n_nodes = hd.nodes as usize;
        proof {
            assert(n_nodes * ns >= 0) by (nonlinear_arith)
                requires
                    n_nodes >= 0,
                    ns >= 0,
            ;
        }
        let mut i: usize = 0;
        while i < n_nodes
            invariant
                self.shaped(),
                hd == self.header,
                n_heads == hd.heads,
                n_nodes == hd.nodes,
                base == nodes_offset_of(hd.heads as int),
                base >= HEADER_SIZE + 8 * n_heads,
                ns == node_size_of(hd.data_size as int),
                ns >= 8 + hd.data_size,
                size == base + n_nodes * ns,
                size == file_size_of(hd.data_size as int, hd.heads as int, hd.nodes as int),
                i <= n_nodes,
                v@.len() == size,
                header_of(v@) == hd,
                forall|j: int| 0 <= j < n_heads ==> read_u32(v@, HEADER_SIZE + 8 * j) == #[trigger] self.heads@[j].previous
                    && read_u32(v@, HEADER_SIZE + 8 * j + 4) == self.heads@[j].next,
                forall|j: int| 0 <= j < i ==> read_u32(v@, base + j * ns) == #[trigger] self.nodes@[j].previous
                    && read_u32(v@, base + j * ns + 4) == self.nodes@[j].next,
                forall|j: int, k: int| 0 <= j < i && 0 <= k < hd.data_size ==> v@[base + j * ns + 8 + k] == #[trigger] self.contents@[j]@[k],
            decreases n_nodes - i,
        {
            proof {
                lemma_stride(ns as int, i as int, n_nodes as int);
            }
            let off = (base + i as u64 * ns) as usize;
            let ghost v0 = v@;
            put_u32(&mut v, off, self.nodes[i].previous);
            let ghost v1 = v@;
            put_u32(&mut v, off + 4, self.nodes[i].next);
            let ghost v2 = v@;
            put_bytes(&mut v, off + 8, self.contents[i].as_slice());
            proof {
                assert forall|j: int| 0 <= j < n_heads implies read_u32(v@, HEADER_SIZE + 8 * j) == #[trigger] self.heads@[j].previous
                    && read_u32(v@, HEADER_SIZE + 8 * j + 4) == self.heads@[j].next by {
                    assert(read_u32(v0, HEADER_SIZE + 8 * j) == self.heads@[j].previous);
                    assert(read_u32(v1, HEADER_SIZE + 8 * j) == read_u32(v0, HEADER_SIZE + 8 * j));
                    assert(read_u32(v2, HEADER_SIZE + 8 * j) == read_u32(v1, HEADER_SIZE + 8 * j));
                    assert(read_u32(v1, HEADER_SIZE + 8 * j + 4) == read_u32(v0, HEADER_SIZE + 8 * j + 4));
                    assert(read_u32(v2, HEADER_SIZE + 8 * j + 4) == read_u32(v1, HEADER_SIZE + 8 * j + 4));
                    assert(read_u32(v@, HEADER_SIZE + 8 * j) == read_u32(v2, HEADER_SIZE + 8 * j));
                    assert(read_u32(v@, HEADER_SIZE + 8 * j + 4) == read_u32(v2, HEADER_SIZE + 8 * j + 4));
                }
                assert forall|j: int| 0 <= j <= i implies read_u32(v@, base + j * ns) == #[trigger] self.nodes@[j].previous
                    && read_u32(v@, base + j * ns + 4) == self.nodes@[j].next by {
                    if j < i {
                        assert(read_u32(v0, base + j * ns) == self.nodes@[j].previous);
                        lemma_stride(ns as int, j, i as int);
                        assert(read_u32(v1, base + j * ns) == read_u32(v0, base + j * ns));
                        assert(read_u32(v2, base + j * ns) == read_u32(v1, base + j * ns));
                        assert(read_u32(v1, base + j * ns + 4) == read_u32(v0, base + j * ns + 4));
                        assert(read_u32(v2, base + j * ns + 4) == read_u32(v1, base + j * ns + 4));
                        assert(read_u32(v@, base + j * ns) == read_u32(v2, base + j * ns));
                        assert(read_u32(v@, base + j * ns + 4) == read_u32(v2, base + j * ns + 4));
                    } else {
                        assert(off == base + j * ns);
                        assert(read_u32(v2, off as int) == read_u32(v1, off as int));
                        assert(read_u32(v@, off as int) == read_u32(v2, off as int));
                        assert(read_u32(v@, off + 4) == read_u32(v2, off + 4));
                    }
                }
                assert forall|j: int, k: int| 0 <= j <= i && 0 <= k < hd.data_size implies v@[base + j * ns + 8 + k] == #[trigger] self.contents@[j]@[k] by {
                    if j < i {
                        lemma_stride(ns as int, j, i as int);
                        assert(v@[base + j * ns + 8 + k] == v0[base + j * ns + 8 + k]);
                    }
                }
            }
            i = i + 1;
        }
        proof {
            assert forall|w: u32| #[trigger] self.valid_word(w) implies self.slot(w) == image_link(
                v@,
                hd,
                w,
            ) by {
                match decode(w) {
                    LinkIndex::Head(h) => {
                        assert(self.heads@[h as int].previous == read_u32(v@, HEADER_SIZE + 8 * h));
                    },
                    LinkIndex::Node(j) => {
                        assert(self.nodes@[j as int].previous == read_u32(v@, base + j * ns));
                    },
                }
            }
            assert forall|j: int, k: int| 0 <= j < hd.nodes && 0 <= k < hd.data_size implies v@[slot_offset(hd, j as u32) + 8 + k]
                == #[trigger] self.payload(j)[k] by {
                assert(v@[base + j * ns + 8 + k] == self.contents@[j]@[k]);
            }
        }
        v
    }

    /// Reads the links of the heads that an image records.
    fn parse_heads(b: &[u8], hd: Header) -> (heads: Vec<Link>)
        requires
            hd == header_of(b@),
            shape_ok(hd),
            b@.len() == file_size_of(hd.data_size as int, hd.heads as int, hd.nodes as int),
        ensures
            heads@.len() == hd.heads,
            forall|j: int| 0 <= j < hd.heads ==> #[trigger] heads@[j] == image_link(b@, hd, encode(LinkIndex::Head(j as u32))),
    {
        let len = b.len();
        let size = len as u64;
        let n_heads = hd.heads as usize;
        let mut heads: Vec<Link> = Vec::new();
        let mut h: usize = 0;
        while h < n_heads
            invariant
                n_heads == hd.heads,
                n_heads <= MAX_INDEX_COUNT,
                hd == header_of(b@),
                len == b@.len(),
                len == size,
                size == file_size_of(hd.data_size as int, hd.heads as int, hd.nodes as int),
                nodes_offset_of(hd.heads as int) >= HEADER_SIZE + 8 * n_heads,
                h <= n_heads,
                heads@.len() == h,
                forall|j: int| 0 <= j < h ==> #[trigger] heads@[j] == image_link(b@, hd, encode(LinkIndex::Head(j as u32))),
            decreases n_heads - h,
        {
            let off = 16 + 8 * h;
            heads.push(Link { previous: get_u32(b, off), next: get_u32(b, off + 4) });
            proof {
                crate::index::lemma_decode_encode(LinkIndex::Head(h as u32));
            }
            h = h + 1;
        }
        heads
    }

    /// Reads the links and payloads of the nodes that an image records.
    fn parse_nodes(b: &[u8], hd: Header) -> (r: (Vec<Link>, Vec<Vec<u8>>))
        requires
            hd == header_of(b@),
            shape_ok(hd),
            b@.len() == file_size_of(hd.data_size as int, hd.heads as int, hd.nodes as int),
        ensures
            r.0@.len() == hd.nodes,
            r.1@.len() == hd.nodes,
            forall|j: int| 0 <= j < hd.nodes ==> #[trigger] r.0@[j] == image_link(b@, hd, j as u32),
            forall|j: int| 0 <= j < hd.nodes ==> #[trigger] r.1@[j]@.len() == hd.data_size,
            forall|j: int, k: int| 0 <= j < hd.nodes && 0 <= k < hd.data_size ==> b@[slot_offset(hd, j as u32) + 8 + k]
                == #[trigger] r.1@[j]@[k],
    {
        let len = b.len();
        let base = hd.nodes_offset();
        let ns = node_size(hd.data_size);
        let ds = hd.data_size as usize;
        let n_nodes = hd.nodes as usize;
        proof {
            assert(n_nodes * ns >= 0) by (nonlinear_arith)
                requires
                    n_nodes >= 0,
                    ns >= 0,
            ;
        }
        let mut nodes: Vec<Link> = Vec::new();
        let mut contents: Vec<Vec<u8>> = Vec::new();
        let mut i: usize = 0;
        while i < n_nodes
            invariant
                n_nodes == hd.nodes,
                n_nodes <= MAX_INDEX_COUNT,
                ds == hd.data_size,
                hd == header_of(b@),
                len == b@.len(),
                base == nodes_offset_of(hd.heads as int),
                ns == node_size_of(hd.data_size as int),
                ns >= 8 + hd.data_size,
                len == base + n_nodes * ns,
                i <= n_nodes,
                nodes@.len() == i,
                contents@.len() == i,
                forall|j: int| 0 <= j < i ==> #[trigger] nodes@[j] == image_link(b@, hd, j as u32),
                forall|j: int| 0 <= j < i ==> #[trigger] contents@[j]@ == b@.subrange(
                    slot_offset(hd, j as u32) + 8,
                    slot_offset(hd, j as u32) + 8 + ds,
                ),
            decreases n_nodes - i,
        {
            proof {
                lemma_stride(ns as int, i as int, n_nodes as int);
            }
            let off = (base + i as u64 * ns) as usize;
            nodes.push(Link { previous: get_u32(b, off), next: get_u32(b, off + 4) });
            contents.push(copy_range(b, off + 8, ds));
            i = i + 1;
        }
        proof {
            assert forall|j: int| 0 <= j < hd.nodes implies #[trigger] contents@[j]@.len() == hd.data_size by {
                lemma_stride(ns as int, j, n_nodes as int);
                assert(slot_offset(hd, j as u32) == base + j * ns);
            }
            assert forall|j: int, k: int| 0 <= j < hd.nodes && 0 <= k < hd.data_size implies b@[slot_offset(hd, j as u32) + 8 + k]
                == #[trigger] contents@[j]@[k] by {
                lemma_stride(ns as int, j, n_nodes as int);
                assert(slot_offset(hd, j as u32) == base + j * ns);
                assert(contents@[j]@ == b@.subrange(
                    slot_offset(hd, j as u32) + 8,
                    slot_offset(hd, j as u32) + 8 + ds,
                ));
            }
        }
        (nodes, contents)
    }

    /// A list whose links are those that an image records keeps the
    /// invariant exactly when the image's links are valid and symmetric.
    proof fn lemma_image_links(l: &AcidList, b: Seq<u8>)
        requires
            l.shaped(),
            forall|w: u32| #[trigger] l.valid_word(w) ==> l.slot(w) == image_link(b, l.spec_header(), w),
        ensures
            (l.links_valid() && l.symmetric()) == image_links_ok(b, l.spec_header()),
    {
        let hd = l.spec_header();
        l.lemma_slot_ok_all(0);
        if image_links_ok(b, hd) {
            assert forall|u: u32| l.valid_word(u) implies #[trigger] l.slot_ok(u) by {
                assert(word_in(hd, u));
            }
        }
        if forall|u: u32| l.valid_word(u) ==> #[trigger] l.slot_ok(u) {
            assert forall|u: u32| #[trigger] word_in(hd, u) implies {
                let k = image_link(b, hd, u);
                &&& word_in(hd, k.previous)
                &&& word_in(hd, k.next)
                &&& image_link(b, hd, k.next).previous == u
                &&& image_link(b, hd, k.previous).next == u
            } by {
                assert(l.valid_word(u));
                assert(l.slot_ok(u));
            }
        }
    }

    /// Opens the byte image `b` of a list whose payloads are `data_size`
    /// bytes long. The length and header are checked first, in this order:
    /// the length covers a header, the magic word, the payload size, the
    /// shape and the length that it implies. The links are taken as they
    /// stand: `check_links` tells whether they keep the invariant.
    pub fn open(b: &[u8], data_size: u32) -> (r: Result<AcidList, Error>)
        ensures
            header_error(b@, data_size) matches Some(e) ==> r == Err::<AcidList, Error>(e),
            header_error(b@, data_size) is None ==> r is Ok,
            r matches Ok(l) ==> l.shaped() && l.is_image(b@) && (l.wf() <==> image_links_ok(
                b@,
                header_of(b@),
            )),
    {
        let len = b.len();
        if len < 16 {
            return Err(Error::NotInitialized);
        }
        let hd = Header {
            magic: get_u32(b, 0),
            data_size: get_u32(b, 4),
            heads: get_u32(b, 8),
            nodes: get_u32(b, 12),
        };
        if hd.magic != HEADER_MAGIC {
            return Err(Error::WrongArchitecture);
        }
        if hd.data_size != data_size {
            return Err(Error::WrongDataType);
        }
        if hd.heads < 1 || hd.heads > MAX_INDEX_COUNT || hd.nodes > MAX_INDEX_COUNT {
            return Err(Error::NotInitialized);
        }
        let size = hd.file_size();
        if len as u64 != size {
            return Err(Error::NotInitialized);
        }
        let heads = AcidList::parse_heads(b, hd);
        let (nodes, contents) = AcidList::parse_nodes(b, hd);
        let l = AcidList { header: hd, heads, nodes, contents };
        proof {
            assert(l.shaped());
            assert forall|w: u32| #[trigger] l.valid_word(w) implies l.slot(w) == image_link(
                b@,
                hd,
                w,
            ) by {
                crate::index::lemma_encode_decode(w);
            }
            assert forall|j: int, k: int| 0 <= j < hd.nodes && 0 <= k < hd.data_size implies b@[slot_offset(hd, j as u32) + 8 + k]
                == #[trigger] l.payload(j)[k] by {}
            AcidList::lemma_image_links(&l, b@);
        }
        Ok(l)
    }

    /// The byte image of a list, such as one that `create` builds, passes
    /// every check of `open`, which then presents the same header and so the
    /// same counts of heads and nodes; the links of a list that keeps the
    /// invariant keep it in the image.
    pub proof fn lemma_image_opens(l: &AcidList, b: Seq<u8>)
        requires
            l.shaped(),
            l.is_image(b),
        ensures
            header_error(b, l.spec_header().data_size) is None,
            header_of(b) == l.spec_header(),
            l.wf() ==> image_links_ok(b, l.spec_header()),
    {
        let hd = l.spec_header();
        assert(nodes_offset_of(hd.heads as int) >= HEADER_SIZE);
        assert(hd.nodes * node_size_of(hd.data_size as int) >= 0) by (nonlinear_arith)
            requires
                hd.nodes >= 0,
                node_size_of(hd.data_size as int) >= 0,
        ;
        AcidList::lemma_image_links(l, b);
    }

    /// Where the link of slot `w` stands in the byte image, and its eight
    /// bytes there: writing them at that offset brings an image up to date
    /// with this slot alone.
    pub fn link_bytes(&self, w: u32) -> (r: (usize, Vec<u8>))
        requires
            self.shaped(),
            self.valid_word(w),
            file_size_of(
                self.spec_header().data_size as int,
                self.spec_header().heads as int,
                self.spec_header().nodes as int,
            ) <= usize::MAX,
        ensures
            r.0 == slot_offset(self.spec_header(), w),
            r.0 + 8 <= file_size_of(
                self.spec_header().data_size as int,
                self.spec_header().heads as int,
                self.spec_header().nodes as int,
            ),
            r.1@.len() == 8,
            read_u32(r.1@, 0) == self.slot(w).previous,
            read_u32(r.1@, 4) == self.slot(w).next,
    {
        let hd = self.header;
        let base = hd.nodes_offset();
        let ns = node_size(hd.data_size);
        let off = match LinkIndex::from_node(w) {
            LinkIndex::Head(h) => 16 + 8 * h as usize,
            LinkIndex::Node(i) => {
                proof {
                    lemma_stride(ns as int, i as int, hd.nodes as int);
                }
                (base + i as u64 * ns) as usize
            },
        };
        let link = self.link_at(w);
        let mut v = AcidList::zeroed(8);
        put_u32(&mut v, 0, link.previous);
        put_u32(&mut v, 4, link.next);
        (off, v)
    }

    /// Where the payload of node `i` starts in the byte image.
    pub fn payload_offset(&self, i: NodeIndex) -> (r: usize)
        requires
            self.shaped(),
            i < self.spec_header().nodes,
            file_size_of(
                self.spec_header().data_size as int,
                self.spec_header().heads as int,
                self.spec_header().nodes as int,
            ) <= usize::MAX,
        ensures
            r == slot_offset(self.spec_header(), i) + 8,
            r + self.spec_header().data_size <= file_size_of(
                self.spec_header().data_size as int,
                self.spec_header().heads as int,
                self.spec_header().nodes as int,
            ),
    {
        let hd = self.header;
        let base = hd.nodes_offset();
        let ns = node_size(hd.data_size);
        proof {
            lemma_stride(ns as int, i as int, hd.nodes as int);
        }
        (base + i as u64 * ns + 8) as usize
    }
}

} // verus!
