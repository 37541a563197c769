use acid_list::{AcidList, Error, Header, LinkIndex, HEADER_MAGIC};

fn traverse(list: &AcidList, head: u32) -> Vec<LinkIndex> {
    let mut out = Vec::new();
    let mut cur = list.neighbors(LinkIndex::Head(head)).next;
    while cur != LinkIndex::Head(head) {
        out.push(cur);
        cur = list.neighbors(cur).next;
        assert!(out.len() <= list.header().nodes as usize);
    }
    out
}

fn traverse_back(list: &AcidList, head: u32) -> Vec<LinkIndex> {
    let mut out = Vec::new();
    let mut cur = list.neighbors(LinkIndex::Head(head)).previous;
    while cur != LinkIndex::Head(head) {
        out.push(cur);
        cur = list.neighbors(cur).previous;
        assert!(out.len() <= list.header().nodes as usize);
    }
    out
}

fn assert_symmetric(list: &AcidList) {
    let hd = list.header();
    let mut all = Vec::new();
    for h in 0..hd.heads {
        all.push(LinkIndex::Head(h));
    }
    for i in 0..hd.nodes {
        all.push(LinkIndex::Node(i));
    }
    for x in all {
        let n = list.neighbors(x);
        assert!(list.neighbors(n.next).previous == x);
        assert!(list.neighbors(n.previous).next == x);
    }
}

fn reopen(list: &AcidList, data_size: u32) -> AcidList {
    AcidList::open(&list.to_bytes(), data_size).unwrap()
}

fn populated() -> AcidList {
    let list = AcidList::create(Header::new(2, 4, 8)).unwrap();
    reopen(&list, 8)
}

fn nodes(ids: &[u32]) -> Vec<LinkIndex> {
    ids.iter().map(|&i| LinkIndex::Node(i)).collect()
}

#[test]
fn create_empty() {
    let list = AcidList::create(Header::new(3, 0, 8)).unwrap();
    let list = reopen(&list, 8);
    assert_eq!(list.header().heads, 3);
    assert_eq!(list.header().nodes, 0);
    for h in 0..3 {
        let n = list.neighbors(LinkIndex::Head(h));
        assert_eq!(n.previous, LinkIndex::Head(h));
        assert_eq!(n.next, LinkIndex::Head(h));
    }
}

#[test]
fn initial_population() {
    let list = populated();
    assert_eq!(traverse(&list, 0), nodes(&[0, 1, 2, 3]));
    assert_eq!(traverse(&list, 1), nodes(&[]));
    assert_symmetric(&list);
}

#[test]
fn single_move() {
    let mut list = populated();
    list.move_after(2, LinkIndex::Head(1));
    assert_eq!(traverse(&list, 0), nodes(&[0, 1, 3]));
    assert_eq!(traverse(&list, 1), nodes(&[2]));
    assert_symmetric(&list);
}

#[test]
fn lru_touch() {
    let mut list = AcidList::create(Header::new(2, 10, 4)).unwrap();
    for i in 0..10 {
        list.move_before(i, LinkIndex::Head(1));
    }
    assert_eq!(traverse(&list, 0), nodes(&[]));
    assert_eq!(traverse(&list, 1), nodes(&[0, 1, 2, 3, 4, 5, 6, 7, 8, 9]));
    for x in [5, 3, 5] {
        list.move_before(x, LinkIndex::Head(0));
    }
    // each access lands just before the head, so walking backwards from the
    // head gives the most recently accessed first
    assert_eq!(traverse_back(&list, 0), nodes(&[5, 3]));
    assert_eq!(traverse(&list, 0), nodes(&[3, 5]));
    assert_eq!(traverse(&list, 1), nodes(&[0, 1, 2, 4, 6, 7, 8, 9]));
    assert_symmetric(&list);
}

#[test]
fn lru_touch_to_front() {
    let mut list = AcidList::create(Header::new(2, 10, 4)).unwrap();
    for i in 0..10 {
        list.move_before(i, LinkIndex::Head(1));
    }
    for x in [5, 3, 5] {
        list.move_after(x, LinkIndex::Head(0));
    }
    assert_eq!(traverse(&list, 0), nodes(&[5, 3]));
    assert_eq!(traverse(&list, 1), nodes(&[0, 1, 2, 4, 6, 7, 8, 9]));
}

#[test]
fn no_op_short_circuit() {
    let mut list = populated();
    let before = list.to_bytes();
    list.move_before(1, LinkIndex::Node(2));
    assert_eq!(list.to_bytes(), before);
    list.move_after(2, LinkIndex::Node(1));
    assert_eq!(list.to_bytes(), before);
}

#[test]
fn rejecting_foreign_files() {
    let list = AcidList::create(Header::new(1, 1, 32)).unwrap();
    let bytes = list.to_bytes();
    assert!(matches!(AcidList::open(&bytes, 16), Err(Error::WrongDataType)));
    assert!(AcidList::open(&bytes, 32).is_ok());
}

#[test]
fn open_rejects_short_image() {
    let bytes = vec![0u8; 15];
    assert!(matches!(AcidList::open(&bytes, 8), Err(Error::NotInitialized)));
    assert!(matches!(AcidList::open(&[], 8), Err(Error::NotInitialized)));
}

#[test]
fn open_rejects_missing_magic() {
    let list = AcidList::create(Header::new(1, 2, 8)).unwrap();
    let mut bytes = list.to_bytes();
    bytes[0] = 0;
    assert!(matches!(AcidList::open(&bytes, 8), Err(Error::WrongArchitecture)));
    let swapped: Vec<u8> = HEADER_MAGIC.to_be_bytes().to_vec();
    bytes[0..4].copy_from_slice(&swapped);
    assert!(matches!(AcidList::open(&bytes, 8), Err(Error::WrongArchitecture)));
}

#[test]
fn open_rejects_wrong_length() {
    let list = AcidList::create(Header::new(1, 2, 8)).unwrap();
    let mut bytes = list.to_bytes();
    bytes.push(0);
    assert!(matches!(AcidList::open(&bytes, 8), Err(Error::NotInitialized)));
    bytes.truncate(bytes.len() - 2);
    assert!(matches!(AcidList::open(&bytes, 8), Err(Error::NotInitialized)));
}

#[test]
fn open_rejects_zero_heads() {
    let list = AcidList::create(Header::new(1, 0, 8)).unwrap();
    let mut bytes = list.to_bytes();
    bytes[8..12].copy_from_slice(&[0, 0, 0, 0]);
    assert!(matches!(AcidList::open(&bytes, 8), Err(Error::NotInitialized)));
}

#[test]
fn open_takes_broken_links_as_they_stand() {
    let list = AcidList::create(Header::new(1, 2, 8)).unwrap();
    assert!(list.check_links());
    let mut bytes = list.to_bytes();
    // head 0 at offset 16: point its next word at a node that does not exist
    bytes[20..24].copy_from_slice(&7u32.to_le_bytes());
    let opened = AcidList::open(&bytes, 8).unwrap();
    assert!(!opened.check_links());
    assert_eq!(opened.neighbors(LinkIndex::Head(0)).next, LinkIndex::Node(7));
    assert_eq!(opened.header().nodes, 2);
    // a half-done relink: symmetric no more, but every link is in range
    let mut bytes = list.to_bytes();
    bytes[20..24].copy_from_slice(&1u32.to_le_bytes());
    let opened = AcidList::open(&bytes, 8).unwrap();
    assert!(!opened.check_links());
}

#[test]
fn link_bytes_update_an_image_in_place() {
    let mut list = populated();
    let mut image = list.to_bytes();
    let touched = [
        LinkIndex::Node(2),
        LinkIndex::Node(1),
        LinkIndex::Node(3),
        LinkIndex::Head(1),
        LinkIndex::Head(1),
    ];
    list.move_after(2, LinkIndex::Head(1));
    for idx in touched {
        let (off, bytes) = list.link_bytes(idx.to_node());
        assert_eq!(bytes.len(), 8);
        image[off..off + 8].copy_from_slice(&bytes);
    }
    assert_eq!(image, list.to_bytes());
    let (off, bytes) = list.link_bytes(LinkIndex::Head(1).to_node());
    assert_eq!(off, 24);
    assert_eq!(bytes, vec![2, 0, 0, 0, 2, 0, 0, 0]);
}

#[test]
fn payload_offset_points_at_the_payload() {
    let mut list = AcidList::create(Header::new(2, 3, 5)).unwrap();
    list.set(2, vec![9, 8, 7, 6, 5]);
    let off = list.payload_offset(2);
    assert_eq!(off, 32 + 2 * 16 + 8);
    let image = list.to_bytes();
    assert_eq!(&image[off..off + 5], &[9, 8, 7, 6, 5]);
    assert_eq!(list.get(2).len(), 5);
}

#[test]
fn create_then_open_keeps_shape() {
    for (heads, nodes, ds) in [(1, 0, 0), (1, 1, 1), (4, 7, 13), (2, 3, 32)] {
        let list = AcidList::create(Header::new(heads, nodes, ds)).unwrap();
        let bytes = list.to_bytes();
        assert_eq!(bytes.len() as u64, list.header().file_size());
        let opened = AcidList::open(&bytes, ds).unwrap();
        assert_eq!(opened.header(), list.header());
        assert_eq!(opened.to_bytes(), bytes);
    }
}

#[test]
fn create_rejects_bad_headers() {
    assert!(matches!(AcidList::create(Header::new(0, 1, 8)), Err(Error::NotInitialized)));
    assert!(matches!(AcidList::create(Header::new(1 << 31, 1, 8)), Err(Error::NotInitialized)));
    assert!(matches!(AcidList::create(Header::new(1, 1 << 31, 8)), Err(Error::NotInitialized)));
    let mut hd = Header::new(1, 1, 8);
    hd.magic = 1;
    assert!(matches!(AcidList::create(hd), Err(Error::WrongArchitecture)));
}

#[test]
fn set_then_get() {
    let mut list = AcidList::create(Header::new(1, 3, 4)).unwrap();
    assert_eq!(list.get(1), &[0, 0, 0, 0]);
    list.set(1, vec![1, 2, 3, 4]);
    assert_eq!(list.get(1), &[1, 2, 3, 4]);
    assert_eq!(list.get(0), &[0, 0, 0, 0]);
    let reopened = reopen(&list, 4);
    assert_eq!(reopened.get(1), &[1, 2, 3, 4]);
}

#[test]
fn encode_decode_round_trip() {
    for x in [0u32, 1, 5, 0x7fff_fffe, 0x7fff_ffff] {
        assert_eq!(LinkIndex::from_node(LinkIndex::Node(x).to_node()), LinkIndex::Node(x));
        assert_eq!(LinkIndex::from_node(LinkIndex::Head(x).to_node()), LinkIndex::Head(x));
    }
    assert_eq!(LinkIndex::Head(3).to_node(), 0x8000_0003);
    assert_eq!(LinkIndex::Node(3).to_node(), 3);
    assert_eq!(LinkIndex::from_node(0x8000_0000), LinkIndex::Head(0));
}

#[test]
fn layout_offsets() {
    let hd = Header::new(3, 5, 5);
    assert_eq!(hd.heads_offset(), 16);
    assert_eq!(hd.nodes_offset(), 40);
    assert_eq!(acid_list::node_size(5), 16);
    assert_eq!(hd.file_size(), 40 + 5 * 16);
    assert_eq!(acid_list::align_to(17, 4), 20);
    assert_eq!(acid_list::align_to(16, 4), 16);
    assert_eq!(acid_list::align_to(0, 8), 0);
}

#[test]
fn move_between_lists_and_back() {
    let mut list = populated();
    list.move_before(0, LinkIndex::Head(1));
    list.move_after(3, LinkIndex::Node(0));
    assert_eq!(traverse(&list, 0), nodes(&[1, 2]));
    assert_eq!(traverse(&list, 1), nodes(&[0, 3]));
    list.move_before(1, LinkIndex::Head(0));
    list.move_before(2, LinkIndex::Head(0));
    assert_eq!(traverse(&list, 0), nodes(&[1, 2]));
    list.move_after(2, LinkIndex::Head(0));
    assert_eq!(traverse(&list, 0), nodes(&[2, 1]));
    assert_symmetric(&list);
    let reopened = reopen(&list, 8);
    assert_eq!(traverse(&reopened, 1), nodes(&[0, 3]));
}

#[test]
fn neighbors_of_a_head() {
    let list = populated();
    let n = list.neighbors(LinkIndex::Head(0));
    assert_eq!(n.previous, LinkIndex::Node(3));
    assert_eq!(n.next, LinkIndex::Node(0));
    let n = list.neighbors(LinkIndex::Node(0));
    assert_eq!(n.previous, LinkIndex::Head(0));
    assert_eq!(n.next, LinkIndex::Node(1));
}
