//! A persistent doubly-linked-list engine over a fixed-size byte image.
//!
//! The image holds a header, an array of list heads (sentinels) and an
//! array of payload-carrying nodes. Every node belongs to exactly one list,
//! and nodes are only ever moved between positions, never allocated or freed.
//! The image is what a file holds; its 32-bit words are stored little-endian.
//! Reading, locking and writing the file is left to the caller.

mod index;
mod layout;
mod list;

pub use index::{LinkIndex, NodeIndex, HEAD_FLAG, MAX_INDEX_COUNT};
pub use layout::{align_to, node_size, Header, HEADER_MAGIC, HEADER_SIZE, LINK_ALIGN, LINK_SIZE};
pub use list::image::{
    header_error, header_of, image_link, image_links_ok, lemma_read_u32, read_u32, slot_offset,
};
pub use list::{AcidList, Error, Link, NodeNeighbors};
