use fvm_amt::amt::AmtImpl;
use fvm_amt::codec::{bit_set, bitmap, bmap_bytes, slots, CollapsedNode};
use fvm_amt::error::Error;
use fvm_amt::limits::{max_height, nodes_for_height};
use fvm_amt::node::{init_sized_vec, Link, Node};
use fvm_amt::store::{bytes_equal, get_block, put_block, ContentId};
use fvm_ipld_blockstore::{Block, Blockstore, MemoryBlockstore};
use fvm_ipld_encoding::{to_vec, BytesSer};
use multihash_codetable::Code;

fn some_id(seed: u8) -> ContentId {
    let mut store = MemoryBlockstore::default();
    put_block(&mut store, &vec![seed]).unwrap()
}

fn put_raw(store: &MemoryBlockstore, block: &[u8]) -> ContentId {
    let cid = store.put(Code::Blake2b256, &Block::new(0x71, block)).unwrap();
    ContentId::from_bytes(&cid.to_bytes()).unwrap()
}

#[test]
fn nodes_for_height_is_a_power_or_saturates() {
    assert_eq!(nodes_for_height(3, 0), 1);
    assert_eq!(nodes_for_height(3, 1), 8);
    assert_eq!(nodes_for_height(3, 2), 64);
    assert_eq!(nodes_for_height(3, 21), 1 << 63);
    assert_eq!(nodes_for_height(3, 22), u64::MAX);
    assert_eq!(nodes_for_height(8, 8), u64::MAX);
    assert_eq!(nodes_for_height(1, 63), 1 << 63);
    assert_eq!(nodes_for_height(u32::MAX, u32::MAX), u64::MAX);
}

#[test]
fn max_height_by_bit_width() {
    assert_eq!(max_height(1), 63);
    assert_eq!(max_height(3), 21);
    assert_eq!(max_height(5), 12);
    assert_eq!(max_height(8), 7);
    assert_eq!(max_height(31), 2);
}

#[test]
fn bitmap_lengths_and_slots() {
    assert_eq!(slots(1), 2);
    assert_eq!(slots(3), 8);
    assert_eq!(slots(5), 32);
    assert_eq!(bmap_bytes(1), 1);
    assert_eq!(bmap_bytes(3), 1);
    assert_eq!(bmap_bytes(4), 2);
    assert_eq!(bmap_bytes(8), 32);
    let empty: Vec<Option<u8>> = init_sized_vec(3);
    assert_eq!(empty, vec![None; 8]);
}

#[test]
fn bitmap_sets_the_bit_of_each_slot_in_use() {
    let used = vec![true, false, true, false, false, false, false, false, false, true];
    let bmap = bitmap(&used, 2);
    assert_eq!(bmap, vec![0b0000_0101, 0b0000_0010]);
    for (k, u) in used.iter().enumerate() {
        assert_eq!(bit_set(&bmap, k), *u);
    }
    assert!(!bit_set(&bmap, 15));
    assert_eq!(bitmap(&Vec::new(), 1), vec![0]);
}

#[test]
fn collapse_then_expand_gives_the_leaf_back() {
    let mut vals: Vec<Option<Vec<u8>>> = init_sized_vec(3);
    vals[1] = Some(vec![1]);
    vals[6] = Some(vec![6, 6]);
    let leaf = Node::Leaf { vals };
    let wire = leaf.collapse(3).unwrap();
    assert_eq!(wire.bmap, vec![0b0100_0010]);
    assert!(wire.links.is_empty());
    assert_eq!(wire.values, vec![vec![1], vec![6, 6]]);
    let back = wire.expand(3).unwrap();
    assert!(back.same_as(&leaf));
    assert!(back.is_leaf());
    assert!(!back.is_empty());
}

#[test]
fn collapse_then_expand_gives_the_branch_back() {
    let mut links: Vec<Option<Link>> = init_sized_vec(3);
    links[0] = Some(Link::Cid { cid: some_id(1), cache: None });
    links[5] = Some(Link::Cid { cid: some_id(2), cache: Some(Box::new(Node::vacant(3, 0))) });
    let branch = Node::Link { links };
    assert!(!branch.can_collapse());
    let wire = branch.collapse(3).unwrap();
    assert_eq!(wire.bmap, vec![0b0010_0001]);
    assert_eq!(wire.links.len(), 2);
    assert!(wire.links[0].same(&some_id(1)));
    assert!(wire.links[1].same(&some_id(2)));
    assert!(wire.values.is_empty());
    let back = wire.expand(3).unwrap();
    assert!(back.same_as(&branch));
    assert!(!back.is_leaf());
}

#[test]
fn a_pending_reference_has_no_wire_form() {
    let mut links: Vec<Option<Link>> = init_sized_vec(3);
    links[0] = Some(Link::Dirty(Box::new(Node::vacant(3, 0))));
    let branch = Node::Link { links };
    assert!(branch.can_collapse());
    assert!(matches!(branch.collapse(3), Err(Error::Codec(_))));
}

#[test]
fn expand_refuses_what_is_no_node() {
    let both = CollapsedNode { bmap: vec![3], links: vec![some_id(1)], values: vec![vec![1]] };
    assert!(matches!(both.expand(3), Err(Error::Codec(_))));
    let long = CollapsedNode { bmap: vec![1, 0], links: Vec::new(), values: vec![vec![1]] };
    assert!(matches!(long.expand(3), Err(Error::Codec(_))));
    let few = CollapsedNode { bmap: vec![3], links: Vec::new(), values: vec![vec![1]] };
    assert!(matches!(few.expand(3), Err(Error::Codec(_))));
    let many = CollapsedNode { bmap: vec![1], links: Vec::new(), values: vec![vec![1], vec![2]] };
    assert!(matches!(many.expand(3), Err(Error::Codec(_))));
    let few_links = CollapsedNode { bmap: vec![3], links: vec![some_id(1)], values: Vec::new() };
    assert!(matches!(few_links.expand(3), Err(Error::Codec(_))));
    let empty = CollapsedNode { bmap: vec![0], links: Vec::new(), values: Vec::new() };
    assert!(empty.expand(3).unwrap().is_empty());
    let past = CollapsedNode { bmap: vec![0b0000_0101], links: Vec::new(), values: vec![vec![7]] };
    let narrow = past.expand(1).unwrap();
    assert!(narrow.same_as(&Node::Leaf { vals: vec![Some(vec![7]), None] }));
}

#[test]
fn nodes_are_alike_by_what_stands_in_memory() {
    let stored = Link::Cid { cid: some_id(1), cache: None };
    let cached = Link::Cid { cid: some_id(1), cache: Some(Box::new(Node::vacant(3, 0))) };
    let other = Link::Cid { cid: some_id(2), cache: None };
    let pending = Link::Dirty(Box::new(Node::vacant(3, 0)));
    assert!(stored.same_as(&cached));
    assert!(!stored.same_as(&other));
    assert!(!stored.same_as(&pending));
    assert!(pending.same_as(&Link::Dirty(Box::new(Node::vacant(3, 0)))));
    assert!(!Node::vacant(3, 0).same_as(&Node::vacant(3, 1)));
    assert!(!Node::vacant(3, 0).same_as(&Node::vacant(2, 0)));
}

#[test]
fn tries_are_alike_by_what_stands_in_memory() {
    let mut a = AmtImpl::new(MemoryBlockstore::default());
    let mut b = AmtImpl::new(MemoryBlockstore::default());
    assert!(a == b);
    a.set(9, vec![1]).unwrap();
    assert!(a != b);
    b.set(9, vec![1]).unwrap();
    assert!(a == b);
    a.flush().unwrap();
    assert!(a != b);
    b.flush().unwrap();
    assert!(a == b);
    assert!(AmtImpl::new(MemoryBlockstore::default()) != AmtImpl::new_legacy(MemoryBlockstore::default()));
    assert!(
        AmtImpl::new(MemoryBlockstore::default())
            != AmtImpl::new_with_bit_width(MemoryBlockstore::default(), 4)
    );
}

#[test]
fn put_block_stores_under_the_content_hash_once() {
    let mut store = MemoryBlockstore::default();
    let block = vec![1u8, 2, 3];
    let id = put_block(&mut store, &block).unwrap();
    let cid = store.put(Code::Blake2b256, &Block::new(0x71, &block)).unwrap();
    assert_eq!(id.to_bytes(), cid.to_bytes());
    assert_eq!(id.to_string(), cid.to_string());
    assert_eq!(get_block(&store, &id).unwrap(), Some(block.clone()));
    assert_eq!(get_block(&store, &some_id(9)).unwrap(), None);
    store.put_keyed(&cid, &[9, 9]).unwrap();
    let again = put_block(&mut store, &block).unwrap();
    assert!(again.same(&id));
    assert_eq!(get_block(&store, &id).unwrap(), Some(vec![9, 9]));
    assert!(bytes_equal(&vec![1, 2], &vec![1, 2]));
    assert!(!bytes_equal(&vec![1, 2], &vec![1, 3]));
    assert!(!bytes_equal(&vec![1, 2], &vec![1]));
}

#[test]
fn a_count_that_cannot_go_up_is_a_mismatch() {
    let store = MemoryBlockstore::default();
    let none: Vec<cid::Cid> = Vec::new();
    let no_values: Vec<BytesSer> = Vec::new();
    let block = to_vec(&(3u32, 0u32, u64::MAX, (BytesSer(&[0u8]), none, no_values))).unwrap();
    let id = put_raw(&store, &block);
    let mut amt = AmtImpl::load(&id, store).unwrap();
    assert_eq!(amt.count(), u64::MAX);
    assert!(matches!(amt.set(1, vec![1]), Err(Error::CountMismatch)));
    assert_eq!(amt.get(1).unwrap(), Some(vec![1]));
    assert_eq!(amt.count(), u64::MAX);
    amt.set(1, vec![2]).unwrap();
}

#[test]
fn a_count_that_cannot_go_down_is_a_mismatch() {
    let store = MemoryBlockstore::default();
    let none: Vec<cid::Cid> = Vec::new();
    let values: Vec<BytesSer> = vec![BytesSer(&[7u8])];
    let block = to_vec(&(3u32, 0u32, 0u64, (BytesSer(&[1u8]), none, values))).unwrap();
    let id = put_raw(&store, &block);
    let mut amt = AmtImpl::load(&id, store).unwrap();
    assert_eq!(amt.get(0).unwrap(), Some(vec![0x41, 7]));
    assert!(matches!(amt.delete(0), Err(Error::CountMismatch)));
    assert_eq!(amt.get(0).unwrap(), None);
    assert_eq!(amt.count(), 0);
}

#[test]
fn load_refuses_roots_that_are_not_of_a_trie() {
    let none: Vec<cid::Cid> = Vec::new();
    let cases: Vec<Vec<u8>> = vec![
        to_vec(&(0u32, 0u32, 0u64, (BytesSer(&[0u8]), none.clone(), Vec::<BytesSer>::new())))
            .unwrap(),
        to_vec(&(32u32, 0u32, 0u64, (BytesSer(&[0u8]), none.clone(), Vec::<BytesSer>::new())))
            .unwrap(),
        to_vec(&(3u32, 1u32, 0u64, (BytesSer(&[0u8]), none.clone(), Vec::<BytesSer>::new())))
            .unwrap(),
        to_vec(&(3u32, 0u32, 0u64, (BytesSer(&[0u8, 0u8]), none.clone(), Vec::<BytesSer>::new())))
            .unwrap(),
        to_vec(&(0u32, 0u64, (BytesSer(&[0u8]), none.clone(), Vec::<BytesSer>::new()))).unwrap(),
    ];
    for block in cases {
        let store = MemoryBlockstore::default();
        let id = put_raw(&store, &block);
        assert!(matches!(AmtImpl::load(&id, store), Err(Error::Codec(_))));
    }
    let store = MemoryBlockstore::default();
    let legacy = to_vec(&(0u32, 0u64, (BytesSer(&[0u8]), none, Vec::<BytesSer>::new()))).unwrap();
    let id = put_raw(&store, &legacy);
    let amt = AmtImpl::load_legacy(&id, store).unwrap();
    assert_eq!(amt.bit_width(), 3);
    assert_eq!(amt.count(), 0);
}
