use vstd::prelude::*;

use crate::index::{decode, encodable, encode, LinkIndex, NodeIndex, MAX_INDEX_COUNT};
use crate::layout::{Header, HEADER_MAGIC};

pub mod image;

verus! {

/// A pair of encoded link indices: the slot before and the slot after.
#[derive(Clone, Copy, PartialEq, Eq, Structural, Debug)]
pub struct Link {
    pub previous: NodeIndex,
    pub next: NodeIndex,
}

/// The decoded neighbours of a slot.
#[derive(Clone, Copy, PartialEq, Eq, Structural, Debug)]
pub struct NodeNeighbors {
    pub previous: LinkIndex,
    pub next: LinkIndex,
}

/// Why an image cannot be opened or created.
#[derive(Clone, Copy, PartialEq, Eq, Structural, Debug)]
pub enum Error {
    /// The image is too short, malformed, or its length does not match its header.
    NotInitialized,
    /// The magic word is absent, or the image is larger than can be addressed.
    WrongArchitecture,
    /// The recorded payload size differs from the caller's.
    WrongDataType,
}

/// A set of doubly-linked lists over a fixed pool of nodes.
///
/// Heads and nodes share one index space through the encoding of `LinkIndex`.
/// Every slot links to valid slots, and the links are symmetric.
pub struct AcidList {
    header: Header,
    heads: Vec<Link>,
    nodes: Vec<Link>,
    contents: Vec<Vec<u8>>,
}

/// The link that results from the five writes of a relink of the slot `x`
/// from between `from.previous` and `from.next` to between `to.previous` and
/// `to.next`, as seen at the slot `w` that held `old` before.
pub open spec fn relinked(x: u32, from: Link, to: Link, w: u32, old: Link) -> Link {
    let s1 = if w == from.next { Link { previous: from.previous, ..old } } else { old };
    let s2 = if w == from.previous { Link { next: from.next, ..s1 } } else { s1 };
    let s3 = if w == x { to } else { s2 };
    let s4 = if w == to.next { Link { previous: x, ..s3 } } else { s3 };
    if w == to.previous { Link { next: x, ..s4 } } else { s4 }
}

/// Whether an encoded word addresses a slot of an image with header `hd`.
pub open spec fn word_in(hd: Header, w: u32) -> bool {
    match decode(w) {
        LinkIndex::Node(i) => i < hd.nodes,
        LinkIndex::Head(h) => h < hd.heads,
    }
}

/// The encoded word of the first head.
pub open spec fn head0_word() -> u32 {
    encode(LinkIndex::Head(0))
}

/// The link of head `h` in a freshly created image: empty, but for head 0,
/// which holds every node when there are any.
pub open spec fn initial_head(header: Header, h: int) -> Link {
    if h == 0 && header.nodes > 0 {
        Link { previous: (header.nodes - 1) as u32, next: 0 }
    } else {
        let w = encode(LinkIndex::Head(h as u32));
        Link { previous: w, next: w }
    }
}

/// The link of node `i` in a freshly created image: the nodes follow head 0
/// in index order.
pub open spec fn initial_node(header: Header, i: int) -> Link {
    Link {
        previous: if i == 0 {
            head0_word()
        } else {
            (i - 1) as u32
        },
        next: if i + 1 == header.nodes {
            head0_word()
        } else {
            (i + 1) as u32
        },
    }
}

/// The link of the slot that `w` addresses, in a freshly created image.
pub open spec fn initial_slot(header: Header, w: u32) -> Link {
    match decode(w) {
        LinkIndex::Node(i) => initial_node(header, i as int),
        LinkIndex::Head(h) => initial_head(header, h as int),
    }
}

/// Whether a header describes an image that can be created and opened.
pub open spec fn shape_ok(header: Header) -> bool {
    1 <= header.heads <= MAX_INDEX_COUNT && header.nodes <= MAX_INDEX_COUNT
}

impl AcidList {
    /// The header of the image.
    pub closed spec fn spec_header(&self) -> Header {
        self.header
    }

    /// Whether an encoded word addresses a slot of this image.
    pub open spec fn valid_word(&self, w: u32) -> bool {
        word_in(self.spec_header(), w)
    }

    /// Whether a link index addresses a slot of this image.
    pub open spec fn valid_index(&self, l: LinkIndex) -> bool {
        match l {
            LinkIndex::Node(i) => i < self.spec_header().nodes,
            LinkIndex::Head(h) => h < self.spec_header().heads,
        }
    }

    /// The link stored in the slot that an encoded word addresses.
    pub closed spec fn slot(&self, w: u32) -> Link {
        match decode(w) {
            LinkIndex::Node(i) => self.nodes@[i as int],
            LinkIndex::Head(h) => self.heads@[h as int],
        }
    }

    /// The payload of node `i`.
    pub closed spec fn payload(&self, i: int) -> Seq<u8> {
        self.contents@[i]@
    }

    /// The arrays have the sizes that the header gives.
    pub closed spec fn shaped(&self) -> bool {
        &&& self.header.magic == HEADER_MAGIC
        &&& 1 <= self.header.heads <= MAX_INDEX_COUNT
        &&& self.header.nodes <= MAX_INDEX_COUNT
        &&& self.heads@.len() == self.header.heads
        &&& self.nodes@.len() == self.header.nodes
        &&& self.contents@.len() == self.header.nodes
        &&& forall|i: int| 0 <= i < self.contents@.len() ==> #[trigger] self.contents@[i]@.len()
            == self.header.data_size
    }

    /// Every slot links to slots of this image.
    #[verifier::opaque]
    pub open spec fn links_valid(&self) -> bool {
        forall|w: u32| #[trigger] self.valid_word(w) ==> self.valid_word(self.slot(w).previous)
            && self.valid_word(self.slot(w).next)
    }

    /// For every slot `x`, the slot after `x` has `x` before it, and the
    /// slot before `x` has `x` after it.
    #[verifier::opaque]
    pub open spec fn symmetric(&self) -> bool {
        forall|w: u32| #[trigger] self.valid_word(w) ==> self.slot(self.slot(w).next).previous
            == w && self.slot(self.slot(w).previous).next == w
    }

    /// The invariant that every operation keeps.
    pub open spec fn wf(&self) -> bool {
        &&& self.shaped()
        &&& self.links_valid()
        &&& self.symmetric()
    }

    /// The invariant, at one slot: its neighbours are slots of the image,
    /// and they point back at it.
    pub proof fn lemma_slot(&self, w: u32)
        requires
            self.wf(),
            self.valid_word(w),
        ensures
            self.valid_word(self.slot(w).previous),
            self.valid_word(self.slot(w).next),
            self.slot(self.slot(w).next).previous == w,
            self.slot(self.slot(w).previous).next == w,
    {
        reveal(AcidList::links_valid);
        reveal(AcidList::symmetric);
    }

    /// What the shape of a list holds: a valid header, counts below the
    /// encoding's limit, and payloads of the recorded size.
    pub proof fn lemma_shape(&self)
        requires
            self.shaped(),
        ensures
            self.spec_header().magic == HEADER_MAGIC,
            shape_ok(self.spec_header()),
            forall|i: int| 0 <= i < self.spec_header().nodes ==> (#[trigger] self.payload(i)).len()
                == self.spec_header().data_size,
    {
    }

    /// The header of the image.
    pub fn header(&self) -> (r: Header)
        ensures
            r == self.spec_header(),
    {
        self.header
    }

    /// The payload of node `idx`.
    pub fn get(&self, idx: NodeIndex) -> (r: &[u8])
        requires
            self.shaped(),
            idx < self.spec_header().nodes,
        ensures
            r@ == self.payload(idx as int),
            r@.len() == self.spec_header().data_size,
    {
        self.contents[idx as usize].as_slice()
    }

    /// Overwrites the payload of node `idx`; links are left as they are.
    pub fn set(&mut self, idx: NodeIndex, value: Vec<u8>)
        requires
            old(self).shaped(),
            idx < old(self).spec_header().nodes,
            value@.len() == old(self).spec_header().data_size,
        ensures
            final(self).shaped(),
            old(self).wf() ==> final(self).wf(),
            final(self).spec_header() == old(self).spec_header(),
            final(self).payload(idx as int) == value@,
            forall|i: int| 0 <= i < old(self).spec_header().nodes && i != idx ==>
                #[trigger] final(self).payload(i) == old(self).payload(i),
            forall|w: u32| #[trigger] final(self).slot(w) == old(self).slot(w),
    {
        self.contents.set(idx as usize, value);
        assert(forall|w: u32| #[trigger] self.slot(w) == old(self).slot(w));
        assert(forall|w: u32| #[trigger] self.valid_word(w) == old(self).valid_word(w));
        reveal(AcidList::links_valid);
        reveal(AcidList::symmetric);
    }

    /// The link of the slot that the word `w` addresses.
    fn link_at(&self, w: u32) -> (r: Link)
        requires
            self.shaped(),
            self.valid_word(w),
        ensures
            r == self.slot(w),
    {
        match LinkIndex::from_node(w) {
            LinkIndex::Node(i) => self.nodes[i as usize],
            LinkIndex::Head(h) => self.heads[h as usize],
        }
    }

    /// Overwrites the link of the slot that the word `w` addresses.
    fn put_link(&mut self, w: u32, l: Link)
        requires
            old(self).shaped(),
            old(self).valid_word(w),
        ensures
            final(self).shaped(),
            final(self).spec_header() == old(self).spec_header(),
            final(self).contents == old(self).contents,
            forall|u: u32| #[trigger] final(self).valid_word(u) ==> final(self).slot(u) == (if u
                == w {
                l
            } else {
                old(self).slot(u)
            }),
    {
        proof {
            crate::index::lemma_encode_decode(w);
        }
        match LinkIndex::from_node(w) {
            LinkIndex::Node(i) => self.nodes.set(i as usize, l),
            LinkIndex::Head(h) => self.heads.set(h as usize, l),
        }
        assert forall|u: u32| #[trigger] self.valid_word(u) implies self.slot(u) == (if u == w {
            l
        } else {
            old(self).slot(u)
        }) by {
            crate::index::lemma_encode_decode(u);
        }
    }

    /// The slot `x`, which sat between `from.previous` and `from.next`, is
    /// unlinked from there and spliced in between `to.previous` and `to.next`.
    fn move_to(&mut self, x: u32, from: Link, to: Link)
        requires
            old(self).shaped(),
            old(self).valid_word(x),
            old(self).valid_word(from.previous),
            old(self).valid_word(from.next),
            old(self).valid_word(to.previous),
            old(self).valid_word(to.next),
        ensures
            final(self).shaped(),
            final(self).spec_header() == old(self).spec_header(),
            final(self).contents == old(self).contents,
            forall|u: u32| #[trigger] final(self).valid_word(u) ==> final(self).slot(u)
                == relinked(x, from, to, u, old(self).slot(u)),
    {
        let ghost s0 = *self;
        let mut l = self.link_at(from.next);
        l.previous = from.previous;
        self.put_link(from.next, l);
        let ghost s1 = *self;
        let mut l = self.link_at(from.previous);
        l.next = from.next;
        self.put_link(from.previous, l);
        let ghost s2 = *self;
        self.put_link(x, to);
        let ghost s3 = *self;
        let mut l = self.link_at(to.next);
        l.previous = x;
        self.put_link(to.next, l);
        let ghost s4 = *self;
        let mut l = self.link_at(to.previous);
        l.next = x;
        self.put_link(to.previous, l);
        assert forall|u: u32| #[trigger] self.valid_word(u) implies self.slot(u) == relinked(
            x,
            from,
            to,
            u,
            s0.slot(u),
        ) by {
            assert(s0.valid_word(u) && s1.valid_word(u) && s2.valid_word(u) && s3.valid_word(u)
                && s4.valid_word(u));
        }
    }

    /// A relink between two adjacent slots, neither of which is the moved
    /// one, keeps every link valid and symmetric.
    #[verifier::rlimit(50)]
    proof fn lemma_relink_wf(pre: &AcidList, post: &AcidList, x: u32, to: Link)
        requires
            pre.wf(),
            post.shaped(),
            post.spec_header() == pre.spec_header(),
            pre.valid_word(x),
            pre.valid_word(to.previous),
            pre.valid_word(to.next),
            pre.slot(to.previous).next == to.next,
            pre.slot(to.next).previous == to.previous,
            to.previous != x,
            to.next != x,
            forall|u: u32| #[trigger] post.valid_word(u) ==> post.slot(u) == relinked(
                x,
                pre.slot(x),
                to,
                u,
                pre.slot(u),
            ),
        ensures
            post.wf(),
    {
        let from = pre.slot(x);
        pre.lemma_slot(x);
        pre.lemma_slot(to.previous);
        pre.lemma_slot(to.next);
        pre.lemma_slot(from.previous);
        pre.lemma_slot(from.next);
        assert forall|w: u32| #[trigger] post.valid_word(w) implies post.valid_word(
            post.slot(w).previous,
        ) && post.valid_word(post.slot(w).next) && post.slot(post.slot(w).next).previous == w
            && post.slot(post.slot(w).previous).next == w by {
            pre.lemma_slot(w);
            let o = pre.slot(w);
            pre.lemma_slot(o.next);
            pre.lemma_slot(o.previous);
            assert(post.slot(w) == relinked(x, from, to, w, o));
            let a = post.slot(w).next;
            let b = post.slot(w).previous;
            assert(post.valid_word(a) && post.valid_word(b));
            assert(post.slot(a) == relinked(x, from, to, a, pre.slot(a)));
            assert(post.slot(b) == relinked(x, from, to, b, pre.slot(b)));
        }
        assert(post.links_valid()) by {
            reveal(AcidList::links_valid);
        }
        assert(post.symmetric()) by {
            reveal(AcidList::symmetric);
        }
    }

    /// The link of the slot that `idx` addresses.
    fn link(&self, idx: LinkIndex) -> (r: Link)
        requires
            self.shaped(),
            self.valid_index(idx),
        ensures
            r == self.slot(encode(idx)),
            self.valid_word(encode(idx)),
            encodable(idx),
    {
        proof {
            crate::index::lemma_decode_encode(idx);
        }
        match idx {
            LinkIndex::Node(i) => self.nodes[i as usize],
            LinkIndex::Head(h) => self.heads[h as usize],
        }
    }

    /// The decoded neighbours of the slot that `idx` addresses.
    pub fn neighbors(&self, idx: LinkIndex) -> (r: NodeNeighbors)
        requires
            self.shaped(),
            self.valid_index(idx),
        ensures
            r.previous == decode(self.slot(encode(idx)).previous),
            r.next == decode(self.slot(encode(idx)).next),
            self.wf() ==> self.valid_index(r.previous) && self.valid_index(r.next),
    {
        let link = self.link(idx);
        proof {
            if self.wf() {
                self.lemma_slot(encode(idx));
            }
        }
        NodeNeighbors {
            previous: LinkIndex::from_node(link.previous),
            next: LinkIndex::from_node(link.next),
        }
    }

    /// Relinks node `from_idx` so that it sits immediately before `to_next`,
    /// in whichever list `to_next` belongs to. Nothing is written when it
    /// already sits there.
    pub fn move_before(&mut self, from_idx: NodeIndex, to_next_idx: LinkIndex)
        requires
            old(self).wf(),
            from_idx < old(self).spec_header().nodes,
            old(self).valid_index(to_next_idx),
            LinkIndex::Node(from_idx) != to_next_idx,
        ensures
            final(self).wf(),
            final(self).spec_header() == old(self).spec_header(),
            forall|i: int| #[trigger] final(self).payload(i) == old(self).payload(i),
            final(self).slot(from_idx).next == encode(to_next_idx),
            final(self).slot(encode(to_next_idx)).previous == from_idx,
            old(self).slot(from_idx).next == encode(to_next_idx) ==> *final(self) == *old(self),
            old(self).slot(from_idx).next != encode(to_next_idx) ==> forall|u: u32| #[trigger]
                final(self).valid_word(u) ==> final(self).slot(u) == relinked(
                    from_idx,
                    old(self).slot(from_idx),
                    Link {
                        previous: old(self).slot(encode(to_next_idx)).previous,
                        next: encode(to_next_idx),
                    },
                    u,
                    old(self).slot(u),
                ),
    {
        let from = self.link(LinkIndex::Node(from_idx));
        let to_next = to_next_idx.to_node();
        proof {
            crate::index::lemma_encode_injective(LinkIndex::Node(from_idx), to_next_idx);
            self.lemma_slot(from_idx);
            self.lemma_slot(to_next);
        }
        if from.next == to_next {
            return;
        }
        let to = Link { previous: self.link(to_next_idx).previous, next: to_next };
        let ghost pre = *self;
        proof {
            self.lemma_slot(to.previous);
        }
        self.move_to(from_idx, from, to);
        proof {
            AcidList::lemma_relink_wf(&pre, self, from_idx, to);
            assert(self.valid_word(from_idx));
            assert(self.valid_word(to.previous));
            assert(self.valid_word(to.next));
        }
    }

    /// Relinks node `from_idx` so that it sits immediately after
    /// `to_previous`, in whichever list `to_previous` belongs to. Nothing is
    /// written when it already sits there.
    pub fn move_after(&mut self, from_idx: NodeIndex, to_previous_idx: LinkIndex)
        requires
            old(self).wf(),
            from_idx < old(self).spec_header().nodes,
            old(self).valid_index(to_previous_idx),
            LinkIndex::Node(from_idx) != to_previous_idx,
        ensures
            final(self).wf(),
            final(self).spec_header() == old(self).spec_header(),
            forall|i: int| #[trigger] final(self).payload(i) == old(self).payload(i),
            final(self).slot(from_idx).previous == encode(to_previous_idx),
            final(self).slot(encode(to_previous_idx)).next == from_idx,
            old(self).slot(from_idx).previous == encode(to_previous_idx) ==> *final(self)
                == *old(self),
            old(self).slot(from_idx).previous != encode(to_previous_idx) ==> forall|u: u32|
                #[trigger] final(self).valid_word(u) ==> final(self).slot(u) == relinked(
                    from_idx,
                    old(self).slot(from_idx),
                    Link {
                        previous: encode(to_previous_idx),
                        next: old(self).slot(encode(to_previous_idx)).next,
                    },
                    u,
                    old(self).slot(u),
                ),
    {
        let from = self.link(LinkIndex::Node(from_idx));
        let to_previous = to_previous_idx.to_node();
        proof {
            crate::index::lemma_encode_injective(LinkIndex::Node(from_idx), to_previous_idx);
            self.lemma_slot(from_idx);
            self.lemma_slot(to_previous);
        }
        if from.previous == to_previous {
            return;
        }
        let to = Link { previous: to_previous, next: self.link(to_previous_idx).next };
        let ghost pre = *self;
        proof {
            self.lemma_slot(to.next);
        }
        self.move_to(from_idx, from, to);
        proof {
            AcidList::lemma_relink_wf(&pre, self, from_idx, to);
            assert(self.valid_word(from_idx));
            assert(self.valid_word(to.previous));
            assert(self.valid_word(to.next));
        }
    }

    /// A run of `n` zero bytes.
    fn zeroed(n: usize) -> (r: Vec<u8>)
        ensures
            r@ == Seq::new(n as nat, |k: int| 0u8),
    {
        let mut r: Vec<u8> = Vec::new();
        let mut k: usize = 0;
        while k < n
            invariant
                k <= n,
                r@ == Seq::new(k as nat, |j: int| 0u8),
            decreases n - k,
        {
            r.push(0u8);
            k = k + 1;
            assert(r@ =~= Seq::new(k as nat, |j: int| 0u8));
        }
        r
    }

    /// Builds an image with the shape of `header`: every head empty but
    /// head 0, which holds all nodes in index order, and every payload zero.
    pub fn create(header: Header) -> (r: Result<AcidList, Error>)
        ensures
            header.magic != HEADER_MAGIC ==> r == Err::<AcidList, Error>(Error::WrongArchitecture),
            header.magic == HEADER_MAGIC && !shape_ok(header) ==> r == Err::<AcidList, Error>(
                Error::NotInitialized,
            ),
            header.magic == HEADER_MAGIC && shape_ok(header) ==> r is Ok,
            r matches Ok(l) ==> {
                &&& l.wf()
                &&& l.spec_header() == header
                &&& forall|w: u32| #[trigger]
                    l.valid_word(w) ==> l.slot(w) == initial_slot(header, w)
                &&& forall|i: int|
                    0 <= i < header.nodes ==> #[trigger] l.payload(i) == Seq::new(
                        header.data_size as nat,
                        |k: int| 0u8,
                    )
            },
    {
        if header.magic != HEADER_MAGIC {
            return Err(Error::WrongArchitecture);
        }
        if header.heads < 1 || header.heads > MAX_INDEX_COUNT || header.nodes > MAX_INDEX_COUNT {
            return Err(Error::NotInitialized);
        }
        let mut heads: Vec<Link> = Vec::new();
        let mut h: u32 = 0;
        while h < header.heads
            invariant
                h <= header.heads <= MAX_INDEX_COUNT,
                header.nodes <= MAX_INDEX_COUNT,
                heads@.len() == h,
                forall|j: int| 0 <= j < h ==> #[trigger] heads@[j] == initial_head(header, j),
            decreases header.heads - h,
        {
            if h == 0 && header.nodes > 0 {
                heads.push(Link { previous: header.nodes - 1, next: 0 });
            } else {
                let w = LinkIndex::Head(h).to_node();
                heads.push(Link { previous: w, next: w });
            }
            h = h + 1;
        }
        let head0 = LinkIndex::Head(0).to_node();
        let mut nodes: Vec<Link> = Vec::new();
        let mut contents: Vec<Vec<u8>> = Vec::new();
        let mut i: u32 = 0;
        while i < header.nodes
            invariant
                i <= header.nodes <= MAX_INDEX_COUNT,
                head0 == head0_word(),
                nodes@.len() == i,
                contents@.len() == i,
                forall|j: int| 0 <= j < i ==> #[trigger] nodes@[j] == initial_node(header, j),
                forall|j: int|
                    0 <= j < i ==> #[trigger] contents@[j]@ == Seq::new(
                        header.data_size as nat,
                        |k: int| 0u8,
                    ),
            decreases header.nodes - i,
        {
            let previous = if i == 0 {
                head0
            } else {
                i - 1
            };
            let next = if i + 1 == header.nodes {
                head0
            } else {
                i + 1
            };
            nodes.push(Link { previous, next });
            contents.push(AcidList::zeroed(header.data_size as usize));
            i = i + 1;
        }
        let l = AcidList { header, heads, nodes, contents };
        proof {
            assert forall|w: u32| #[trigger] l.valid_word(w) implies l.slot(w) == initial_slot(
                header,
                w,
            ) by {}
            AcidList::lemma_initial_wf(&l);
        }
        Ok(l)
    }

    /// A freshly created image keeps the invariant.
    proof fn lemma_initial_wf(l: &AcidList)
        requires
            l.shaped(),
            forall|w: u32| #[trigger] l.valid_word(w) ==> l.slot(w) == initial_slot(l.spec_header(), w),
        ensures
            l.wf(),
    {
        let hd = l.spec_header();
        assert forall|w: u32| #[trigger] l.valid_word(w) implies l.valid_word(l.slot(w).previous)
            && l.valid_word(l.slot(w).next) && l.slot(l.slot(w).next).previous == w && l.slot(
            l.slot(w).previous,
        ).next == w by {
            crate::index::lemma_encode_decode(w);
            let a = l.slot(w).next;
            let b = l.slot(w).previous;
            crate::index::lemma_encode_decode(a);
            crate::index::lemma_encode_decode(b);
            assert(l.valid_word(a) && l.valid_word(b));
            assert(l.slot(a) == initial_slot(hd, a));
            assert(l.slot(b) == initial_slot(hd, b));
        }
        assert(l.links_valid()) by {
            reveal(AcidList::links_valid);
        }
        assert(l.symmetric()) by {
            reveal(AcidList::symmetric);
        }
    }

    /// The invariant at one slot: its neighbours are slots of this image and
    /// point back at it.
    pub open spec fn slot_ok(&self, w: u32) -> bool {
        let l = self.slot(w);
        &&& self.valid_word(l.previous)
        &&& self.valid_word(l.next)
        &&& self.slot(l.next).previous == w
        &&& self.slot(l.previous).next == w
    }

    /// Whether `w` addresses a slot of this image.
    fn word_valid(&self, w: u32) -> (r: bool)
        requires
            self.shaped(),
        ensures
            r == self.valid_word(w),
    {
        match LinkIndex::from_node(w) {
            LinkIndex::Node(i) => i < self.header.nodes,
            LinkIndex::Head(h) => h < self.header.heads,
        }
    }

    /// Whether the invariant holds at slot `w`.
    fn check_slot(&self, w: u32) -> (r: bool)
        requires
            self.shaped(),
            self.valid_word(w),
        ensures
            r == self.slot_ok(w),
    {
        let l = self.link_at(w);
        if !self.word_valid(l.previous) || !self.word_valid(l.next) {
            return false;
        }
        self.link_at(l.next).previous == w && self.link_at(l.previous).next == w
    }

    /// Whether every link is valid and symmetric, that is, whether the list
    /// keeps the invariant that `move_before` and `move_after` need.
    pub fn check_links(&self) -> (r: bool)
        requires
            self.shaped(),
        ensures
            r == self.wf(),
    {
        let mut h: u32 = 0;
        while h < self.header.heads
            invariant
                self.shaped(),
                h <= self.header.heads,
                forall|j: u32| j < h ==> #[trigger] self.slot_ok(encode(LinkIndex::Head(j))),
            decreases self.header.heads - h,
        {
            let w = LinkIndex::Head(h).to_node();
            proof {
                crate::index::lemma_decode_encode(LinkIndex::Head(h));
            }
            if !self.check_slot(w) {
                proof {
                    self.lemma_slot_ok_all(w);
                }
                return false;
            }
            h = h + 1;
        }
        let mut i: u32 = 0;
        while i < self.header.nodes
            invariant
                self.shaped(),
                i <= self.header.nodes,
                forall|j: u32| j < self.header.heads ==> #[trigger] self.slot_ok(encode(LinkIndex::Head(j))),
                forall|j: u32| j < i ==> #[trigger] self.slot_ok(j),
            decreases self.header.nodes - i,
        {
            if !self.check_slot(i) {
                proof {
                    self.lemma_slot_ok_all(i);
                }
                return false;
            }
            i = i + 1;
        }
        proof {
            assert forall|w: u32| self.valid_word(w) implies #[trigger] self.slot_ok(w) by {
                crate::index::lemma_encode_decode(w);
                if let LinkIndex::Head(j) = decode(w) {
                    assert(self.slot_ok(encode(LinkIndex::Head(j))));
                }
            }
            self.lemma_slot_ok_all(0);
        }
        true
    }

    /// The invariant holds exactly when it holds at every slot.
    proof fn lemma_slot_ok_all(&self, w: u32)
        requires
            self.shaped(),
        ensures
            (self.links_valid() && self.symmetric()) == (forall|u: u32| self.valid_word(u) ==> #[trigger] self.slot_ok(u)),
            self.links_valid() && self.symmetric() && self.valid_word(w) ==> self.slot_ok(w),
    {
        if self.links_valid() && self.symmetric() {
            assert forall|u: u32| self.valid_word(u) implies #[trigger] self.slot_ok(u) by {
                self.lemma_slot(u);
            }
        }
        if forall|u: u32| self.valid_word(u) ==> #[trigger] self.slot_ok(u) {
            assert forall|u: u32| #[trigger] self.valid_word(u) implies self.valid_word(
                self.slot(u).previous,
            ) && self.valid_word(self.slot(u).next) && self.slot(self.slot(u).next).previous
                == u && self.slot(self.slot(u).previous).next == u by {
                assert(self.slot_ok(u));
            }
            assert(self.links_valid()) by {
                reveal(AcidList::links_valid);
            }
            assert(self.symmetric()) by {
                reveal(AcidList::symmetric);
            }
        }
    }

    /// A head's next neighbour is the head itself exactly when its previous
    /// neighbour is; and then no slot but the head has it as a neighbour.
    pub proof fn lemma_head_self_loop(&self, h: NodeIndex)
        requires
            self.wf(),
            h < self.spec_header().heads,
        ensures
            ({
                let w = encode(LinkIndex::Head(h));
                &&& (self.slot(w).next == w <==> self.slot(w).previous == w)
                &&& self.slot(w).next == w ==> forall|u: u32| #[trigger]
                    self.valid_word(u) && u != w ==> self.slot(u).previous != w
                        && self.slot(u).next != w
            }),
    {
        let w = encode(LinkIndex::Head(h));
        crate::index::lemma_decode_encode(LinkIndex::Head(h));
        self.lemma_slot(w);
        if self.slot(w).next == w {
            assert forall|u: u32| #[trigger] self.valid_word(u) && u != w implies self.slot(
                u,
            ).previous != w && self.slot(u).next != w by {
                self.lemma_slot(u);
            }
        }
    }
}

} // verus!
