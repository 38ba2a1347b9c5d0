use fvm_amt::amt::AmtImpl;
use fvm_amt::error::Error;
use fvm_amt::limits::MAX_INDEX;
use fvm_amt::store::ContentId;
use fvm_ipld_blockstore::{Blockstore, MemoryBlockstore};

fn bytes(s: &str) -> Vec<u8> {
    fvm_ipld_encoding::to_vec(s).unwrap()
}

fn item(bytes: &Vec<u8>) -> Vec<u8> {
    fvm_ipld_encoding::to_vec(&fvm_ipld_encoding::BytesSer(bytes)).unwrap()
}

#[test]
fn empty_trie_holds_nothing() {
    let amt = AmtImpl::new(MemoryBlockstore::default());
    assert_eq!(amt.height(), 0);
    assert_eq!(amt.count(), 0);
    assert_eq!(amt.bit_width(), 3);
    assert_eq!(amt.get(0).unwrap(), None);
    assert_eq!(amt.get(7).unwrap(), None);
    assert_eq!(amt.get(8).unwrap(), None);
    assert_eq!(amt.get(MAX_INDEX).unwrap(), None);
}

#[test]
fn operations_past_the_greatest_index_are_out_of_range() {
    let mut amt = AmtImpl::new(MemoryBlockstore::default());
    assert!(matches!(amt.get(u64::MAX), Err(Error::OutOfRange(i)) if i == u64::MAX));
    assert!(matches!(amt.set(u64::MAX, bytes("x")), Err(Error::OutOfRange(i)) if i == u64::MAX));
    assert!(matches!(amt.delete(u64::MAX), Err(Error::OutOfRange(i)) if i == u64::MAX));
    assert_eq!(amt.count(), 0);
    assert_eq!(amt.height(), 0);
}

#[test]
fn set_then_get_returns_the_last_value() {
    let mut amt = AmtImpl::new(MemoryBlockstore::default());
    amt.set(5, bytes("a")).unwrap();
    amt.set(5, bytes("b")).unwrap();
    amt.set(6, bytes("c")).unwrap();
    assert_eq!(amt.get(5).unwrap(), Some(bytes("b")));
    assert_eq!(amt.get(6).unwrap(), Some(bytes("c")));
    assert_eq!(amt.get(4).unwrap(), None);
    assert_eq!(amt.count(), 2);
}

#[test]
fn set_delete_scenario_with_fan_out_eight() {
    let mut amt = AmtImpl::new(MemoryBlockstore::default());
    amt.set(2, bytes("foo")).unwrap();
    amt.set(1, bytes("bar")).unwrap();
    assert_eq!(amt.delete(2).unwrap(), Some(bytes("foo")));
    assert_eq!(amt.count(), 1);
    assert_eq!(amt.get(1).unwrap(), Some(bytes("bar")));
    assert_eq!(amt.get(2).unwrap(), None);
    assert_eq!(amt.height(), 0);
}

#[test]
fn delete_collapses_the_root_back() {
    let mut amt = AmtImpl::new(MemoryBlockstore::default());
    amt.set(0, bytes("x")).unwrap();
    amt.set(100, bytes("y")).unwrap();
    assert!(amt.height() > 0);
    assert_eq!(amt.height(), 2);
    assert_eq!(amt.delete(100).unwrap(), Some(bytes("y")));
    assert_eq!(amt.height(), 0);
    assert_eq!(amt.get(0).unwrap(), Some(bytes("x")));
    assert_eq!(amt.get(100).unwrap(), None);
    assert_eq!(amt.count(), 1);
}

#[test]
fn delete_collapses_through_several_levels_of_stored_nodes() {
    let mut amt = AmtImpl::new(MemoryBlockstore::default());
    amt.set(3, bytes("low")).unwrap();
    amt.set(70_000, bytes("high")).unwrap();
    assert_eq!(amt.height(), 5);
    let id = amt.flush().unwrap();
    let mut loaded = AmtImpl::load(&id, amt.into_store()).unwrap();
    assert_eq!(loaded.height(), 5);
    assert_eq!(loaded.delete(70_000).unwrap(), Some(bytes("high")));
    assert_eq!(loaded.height(), 0);
    assert_eq!(loaded.count(), 1);
    assert_eq!(loaded.get(3).unwrap(), Some(bytes("low")));
}

#[test]
fn deleting_the_last_value_resets_the_trie() {
    let mut amt = AmtImpl::new(MemoryBlockstore::default());
    amt.set(1000, bytes("v")).unwrap();
    assert_eq!(amt.height(), 3);
    assert_eq!(amt.delete(1000).unwrap(), Some(bytes("v")));
    assert_eq!(amt.height(), 0);
    assert_eq!(amt.count(), 0);
    assert_eq!(amt.delete(1000).unwrap(), None);
    assert_eq!(amt.delete(5).unwrap(), None);
}

#[test]
fn height_is_the_least_that_addresses_the_index() {
    let cases: [(u64, u32); 7] =
        [(0, 0), (7, 0), (8, 1), (63, 1), (64, 2), (511, 2), (512, 3)];
    for (index, height) in cases {
        let mut amt = AmtImpl::new(MemoryBlockstore::default());
        amt.set(index, bytes("v")).unwrap();
        assert_eq!(amt.height(), height);
        assert_eq!(amt.get(index).unwrap(), Some(bytes("v")));
    }
    let mut amt = AmtImpl::new(MemoryBlockstore::default());
    amt.set(MAX_INDEX, bytes("top")).unwrap();
    assert_eq!(amt.height(), 21);
    assert_eq!(amt.get(MAX_INDEX).unwrap(), Some(bytes("top")));
    assert_eq!(amt.get(MAX_INDEX - 1).unwrap(), None);
}

#[test]
fn other_bit_widths() {
    for width in [1u32, 2, 4, 5, 8] {
        let mut amt = AmtImpl::new_with_bit_width(MemoryBlockstore::default(), width);
        for i in 0..200u64 {
            amt.set(i * 3, item(&vec![i as u8])).unwrap();
        }
        assert_eq!(amt.count(), 200);
        let id = amt.flush().unwrap();
        let loaded = AmtImpl::load(&id, amt.into_store()).unwrap();
        assert_eq!(loaded.bit_width(), width);
        assert_eq!(loaded.count(), 200);
        for i in 0..200u64 {
            assert_eq!(loaded.get(i * 3).unwrap(), Some(item(&vec![i as u8])));
            assert_eq!(loaded.get(i * 3 + 1).unwrap(), None);
        }
    }
}

struct Tally(std::cell::RefCell<Vec<(cid::Cid, Vec<u8>)>>);

impl Blockstore for Tally {
    fn get(&self, k: &cid::Cid) -> anyhow::Result<Option<Vec<u8>>> {
        Ok(self.0.borrow().iter().find(|(c, _)| c == k).map(|(_, b)| b.clone()))
    }

    fn put_keyed(&self, k: &cid::Cid, block: &[u8]) -> anyhow::Result<()> {
        self.0.borrow_mut().push((*k, block.to_vec()));
        Ok(())
    }
}

fn blocks_of(store: &MemoryBlockstore) -> Vec<(cid::Cid, Vec<u8>)> {
    let tally = Tally(std::cell::RefCell::new(Vec::new()));
    store.copy_to(&tally).unwrap();
    let mut blocks = tally.0.into_inner();
    blocks.sort();
    blocks
}

#[test]
fn flush_twice_gives_the_same_hash_and_writes_nothing() {
    let mut amt = AmtImpl::new(MemoryBlockstore::default());
    for i in 0..100u64 {
        amt.set(i * 7, item(&vec![i as u8, 1])).unwrap();
    }
    let first = amt.flush().unwrap();
    let after_first = blocks_of(&amt.store_copy());
    let second = amt.flush().unwrap();
    let after_second = blocks_of(&amt.store_copy());
    assert!(first.same(&second));
    assert_eq!(first.to_string(), second.to_string());
    assert!(!after_first.is_empty());
    assert_eq!(after_first, after_second);
    for i in 0..100u64 {
        assert_eq!(amt.get(i * 7).unwrap(), Some(item(&vec![i as u8, 1])));
    }
}

#[test]
fn flush_writes_one_block_for_each_node() {
    let mut amt = AmtImpl::new(MemoryBlockstore::default());
    amt.set(0, bytes("a")).unwrap();
    assert_eq!(blocks_of(&amt.store_copy()).len(), 0);
    amt.flush().unwrap();
    assert_eq!(blocks_of(&amt.store_copy()).len(), 1);
    amt.set(8, bytes("b")).unwrap();
    amt.flush().unwrap();
    assert_eq!(blocks_of(&amt.store_copy()).len(), 4);
}

#[test]
fn a_write_after_a_flush_changes_the_hash() {
    let mut amt = AmtImpl::new(MemoryBlockstore::default());
    amt.set(3, bytes("a")).unwrap();
    amt.set(300, bytes("b")).unwrap();
    let first = amt.flush().unwrap();
    amt.set(300, bytes("c")).unwrap();
    let second = amt.flush().unwrap();
    assert!(!first.same(&second));
    amt.set(300, bytes("b")).unwrap();
    let third = amt.flush().unwrap();
    assert!(first.same(&third));
}

#[test]
fn load_after_flush_is_the_same_trie() {
    let mut amt = AmtImpl::new(MemoryBlockstore::default());
    let indices: [u64; 6] = [0, 1, 9, 77, 4096, 1_000_000];
    for (n, i) in indices.iter().enumerate() {
        amt.set(*i, item(&vec![n as u8; n + 1])).unwrap();
    }
    let id = amt.flush().unwrap();
    let height = amt.height();
    let count = amt.count();
    let loaded = AmtImpl::load(&id, amt.into_store()).unwrap();
    assert_eq!(loaded.height(), height);
    assert_eq!(loaded.count(), count);
    for (n, i) in indices.iter().enumerate() {
        assert_eq!(loaded.get(*i).unwrap(), Some(item(&vec![n as u8; n + 1])));
    }
    assert_eq!(loaded.get(2).unwrap(), None);
    assert_eq!(loaded.get(4097).unwrap(), None);
}

#[test]
fn the_hash_depends_on_what_the_trie_holds() {
    let mut a = AmtImpl::new(MemoryBlockstore::default());
    let mut b = AmtImpl::new(MemoryBlockstore::default());
    let mut c = AmtImpl::new(MemoryBlockstore::default());
    a.set(1, bytes("one")).unwrap();
    b.set(1, bytes("one")).unwrap();
    c.set(1, bytes("two")).unwrap();
    let ida = a.flush().unwrap();
    let idb = b.flush().unwrap();
    let idc = c.flush().unwrap();
    assert!(ida.same(&idb));
    assert!(!ida.same(&idc));
}

#[test]
fn the_root_block_is_the_encoding_of_the_root() {
    let mut amt = AmtImpl::new(MemoryBlockstore::default());
    amt.set(0, item(&vec![0xaa])).unwrap();
    amt.set(2, item(&vec![0xbb, 0xcc])).unwrap();
    let id = amt.flush().unwrap();
    let cid = cid::Cid::try_from(id.to_bytes().as_slice()).unwrap();
    assert_eq!(cid.to_string(), id.to_string());
    let block = amt.store_copy().get(&cid).unwrap().unwrap();
    let expected: Vec<u8> = vec![
        0x84, 0x03, 0x00, 0x02, 0x83, 0x41, 0x05, 0x80, 0x82, 0x41, 0xaa, 0x42, 0xbb, 0xcc,
    ];
    assert_eq!(block, expected);
}

#[test]
fn the_legacy_root_block_leaves_out_the_bit_width() {
    let mut amt = AmtImpl::new_legacy(MemoryBlockstore::default());
    amt.set(0, item(&vec![0xaa])).unwrap();
    amt.set(2, item(&vec![0xbb, 0xcc])).unwrap();
    let id = amt.flush().unwrap();
    let cid = cid::Cid::try_from(id.to_bytes().as_slice()).unwrap();
    let block = amt.store_copy().get(&cid).unwrap().unwrap();
    let expected: Vec<u8> =
        vec![0x83, 0x00, 0x02, 0x83, 0x41, 0x05, 0x80, 0x82, 0x41, 0xaa, 0x42, 0xbb, 0xcc];
    assert_eq!(block, expected);
    let loaded = AmtImpl::load_legacy(&id, amt.into_store()).unwrap();
    assert_eq!(loaded.count(), 2);
    assert_eq!(loaded.bit_width(), 3);
    assert_eq!(loaded.get(2).unwrap(), Some(item(&vec![0xbb, 0xcc])));
}

#[test]
fn load_of_an_unknown_hash_fails() {
    let mut amt = AmtImpl::new(MemoryBlockstore::default());
    amt.set(1, bytes("v")).unwrap();
    let id = amt.flush().unwrap();
    let res = AmtImpl::load(&id, MemoryBlockstore::default());
    assert!(matches!(res, Err(Error::CidNotFound(missing)) if missing.same(&id)));
}

#[test]
fn load_rejects_a_root_that_is_too_high() {
    let store = MemoryBlockstore::default();
    let block: Vec<u8> = vec![0x84, 0x03, 0x16, 0x00, 0x83, 0x41, 0x00, 0x80, 0x80];
    let cid = store
        .put(multihash_codetable::Code::Blake2b256, &fvm_ipld_blockstore::Block::new(0x71, &block))
        .unwrap();
    let id = ContentId::from_bytes(&cid.to_bytes()).unwrap();
    let res = AmtImpl::load(&id, store);
    assert!(matches!(res, Err(Error::MaxHeight(22, 21))));
}

#[test]
fn load_rejects_a_block_that_is_no_root() {
    let store = MemoryBlockstore::default();
    let block: Vec<u8> = vec![0x01, 0x02, 0x03];
    let cid = store
        .put(multihash_codetable::Code::Blake2b256, &fvm_ipld_blockstore::Block::new(0x71, &block))
        .unwrap();
    let id = ContentId::from_bytes(&cid.to_bytes()).unwrap();
    assert!(matches!(AmtImpl::load(&id, store), Err(Error::Codec(_))));
}

#[test]
fn a_missing_subtree_is_reported_by_its_hash() {
    let mut amt = AmtImpl::new(MemoryBlockstore::default());
    amt.set(0, bytes("a")).unwrap();
    amt.set(9, bytes("b")).unwrap();
    let id = amt.flush().unwrap();
    let full = amt.into_store();
    let root_cid = cid::Cid::try_from(id.to_bytes().as_slice()).unwrap();
    let partial = MemoryBlockstore::default();
    partial.put_keyed(&root_cid, &full.get(&root_cid).unwrap().unwrap()).unwrap();
    let mut loaded = AmtImpl::load(&id, partial).unwrap();
    assert!(matches!(loaded.get(0), Err(Error::CidNotFound(_))));
    assert!(matches!(loaded.set(0, bytes("c")), Err(Error::CidNotFound(_))));
    assert!(matches!(loaded.delete(9), Err(Error::CidNotFound(_))));
    assert_eq!(loaded.get(20).unwrap(), None);
    assert_eq!(loaded.count(), 2);
}

#[test]
fn content_id_from_bytes_takes_only_the_binary_form() {
    assert!(ContentId::from_bytes(&vec![1, 2, 3]).is_none());
    assert!(ContentId::from_bytes(&Vec::new()).is_none());
    let mut amt = AmtImpl::new(MemoryBlockstore::default());
    let id = amt.flush().unwrap();
    let again = ContentId::from_bytes(&id.to_bytes()).unwrap();
    assert!(again.same(&id));
    assert!(again.clone().same(&id));
    assert!(id.to_string().starts_with("bafy2bza"));
}

#[test]
fn batch_set_puts_the_values_at_the_first_indices() {
    let mut amt = AmtImpl::new(MemoryBlockstore::default());
    let vals: Vec<Vec<u8>> = (0..20u8).map(|n| item(&vec![n, n])).collect();
    amt.batch_set(vals.clone()).unwrap();
    assert_eq!(amt.count(), 20);
    assert_eq!(amt.height(), 1);
    for (i, v) in vals.iter().enumerate() {
        assert_eq!(amt.get(i as u64).unwrap(), Some(v.clone()));
    }
    assert_eq!(amt.get(20).unwrap(), None);
    let mut one_by_one = AmtImpl::new(MemoryBlockstore::default());
    for (i, v) in vals.iter().enumerate() {
        one_by_one.set(i as u64, v.clone()).unwrap();
    }
    assert!(amt.flush().unwrap().same(&one_by_one.flush().unwrap()));
}

#[test]
fn new_from_iter_is_batch_set_and_flush() {
    let vals: Vec<Vec<u8>> = (0..9u8).map(|n| item(&vec![n])).collect();
    let (store, id) = AmtImpl::new_from_iter(MemoryBlockstore::default(), vals.clone());
    let id = id.unwrap();
    let mut amt = AmtImpl::new(MemoryBlockstore::default());
    amt.batch_set(vals).unwrap();
    assert!(amt.flush().unwrap().same(&id));
    let loaded = AmtImpl::load(&id, store).unwrap();
    assert_eq!(loaded.count(), 9);
    assert_eq!(loaded.get(8).unwrap(), Some(item(&vec![8])));
}

#[test]
fn strict_batch_delete_stops_at_the_first_missing_index() {
    let mut amt = AmtImpl::new(MemoryBlockstore::default());
    amt.set(5, bytes("five")).unwrap();
    amt.set(9, bytes("nine")).unwrap();
    let res = amt.batch_delete(vec![5, 7, 9], true);
    assert!(matches!(res, Err(Error::NoSuchIndex(7))));
    assert_eq!(amt.get(5).unwrap(), None);
    assert_eq!(amt.get(9).unwrap(), Some(bytes("nine")));
    assert_eq!(amt.count(), 1);
}

#[test]
fn batch_delete_goes_by_ascending_index() {
    let mut amt = AmtImpl::new(MemoryBlockstore::default());
    amt.set(5, bytes("five")).unwrap();
    amt.set(9, bytes("nine")).unwrap();
    let res = amt.batch_delete(vec![9, 7, 5], true);
    assert!(matches!(res, Err(Error::NoSuchIndex(7))));
    assert_eq!(amt.get(5).unwrap(), None);
    assert_eq!(amt.get(9).unwrap(), Some(bytes("nine")));
}

#[test]
fn lenient_batch_delete_skips_missing_indices() {
    let mut amt = AmtImpl::new(MemoryBlockstore::default());
    amt.set(5, bytes("five")).unwrap();
    amt.set(9, bytes("nine")).unwrap();
    amt.set(100, bytes("hundred")).unwrap();
    assert_eq!(amt.batch_delete(vec![9, 7, 5, 5], false).unwrap(), true);
    assert_eq!(amt.count(), 1);
    assert_eq!(amt.get(100).unwrap(), Some(bytes("hundred")));
    assert_eq!(amt.batch_delete(vec![1, 2, 3], false).unwrap(), false);
    assert_eq!(amt.batch_delete(Vec::new(), true).unwrap(), false);
    assert_eq!(amt.batch_delete(vec![100], true).unwrap(), true);
    assert_eq!(amt.count(), 0);
    assert_eq!(amt.height(), 0);
}

#[test]
fn strict_batch_delete_of_a_repeated_index_fails_at_the_repeat() {
    let mut amt = AmtImpl::new(MemoryBlockstore::default());
    amt.set(4, bytes("four")).unwrap();
    let res = amt.batch_delete(vec![4, 4], true);
    assert!(matches!(res, Err(Error::NoSuchIndex(4))));
    assert_eq!(amt.count(), 0);
}

#[test]
fn batch_delete_past_the_greatest_index_is_out_of_range() {
    let mut amt = AmtImpl::new(MemoryBlockstore::default());
    amt.set(4, bytes("four")).unwrap();
    let res = amt.batch_delete(vec![u64::MAX, 4], false);
    assert!(matches!(res, Err(Error::OutOfRange(i)) if i == u64::MAX));
    assert_eq!(amt.get(4).unwrap(), None);
}

#[test]
fn for_each_visits_in_ascending_order() {
    let mut amt = AmtImpl::new(MemoryBlockstore::default());
    let indices: [u64; 7] = [4096, 1, 4, 70, 9, 0, 300_000];
    for i in indices {
        amt.set(i, i.to_be_bytes().to_vec()).unwrap();
    }
    let mut seen: Vec<(u64, Vec<u8>)> = Vec::new();
    amt.for_each(|i, v| {
        seen.push((i, v.clone()));
        Ok(())
    })
    .unwrap();
    let mut sorted = indices.to_vec();
    sorted.sort();
    assert_eq!(seen.iter().map(|(i, _)| *i).collect::<Vec<u64>>(), sorted);
    for (i, v) in seen {
        assert_eq!(v, i.to_be_bytes().to_vec());
    }
}

#[test]
fn for_each_example() {
    let mut map = AmtImpl::new(MemoryBlockstore::default());
    map.set(1, bytes("One")).unwrap();
    map.set(4, bytes("Four")).unwrap();
    let mut values: Vec<(u64, Vec<u8>)> = Vec::new();
    map.for_each(|i, v| {
        values.push((i, v.clone()));
        Ok(())
    })
    .unwrap();
    assert_eq!(&values, &[(1, bytes("One")), (4, bytes("Four"))]);
}

#[test]
fn for_each_while_halts_at_the_first_stop() {
    let mut amt = AmtImpl::new(MemoryBlockstore::default());
    for i in 0..50u64 {
        amt.set(i * 10, item(&vec![i as u8])).unwrap();
    }
    let mut seen: Vec<u64> = Vec::new();
    amt.for_each_while(|i, _| {
        seen.push(i);
        Ok(i < 200)
    })
    .unwrap();
    let expected: Vec<u64> = (0..=20u64).map(|i| i * 10).collect();
    assert_eq!(seen, expected);
}

#[test]
fn for_each_while_hands_on_the_failure_of_the_callback() {
    let mut amt = AmtImpl::new(MemoryBlockstore::default());
    for i in 0..10u64 {
        amt.set(i, item(&vec![i as u8])).unwrap();
    }
    let mut calls = 0;
    let res = amt.for_each_while(|i, _| {
        calls += 1;
        if i == 3 {
            Err("three".to_owned())
        } else {
            Ok(true)
        }
    });
    assert!(matches!(res, Err(Error::Callback(text)) if text == "three"));
    assert_eq!(calls, 4);
    let mut calls = 0;
    let res = amt.for_each(|_, _| {
        calls += 1;
        Err("at once".to_owned())
    });
    assert!(matches!(res, Err(Error::Callback(text)) if text == "at once"));
    assert_eq!(calls, 1);
}

#[test]
fn for_each_reads_stored_subtrees() {
    let mut amt = AmtImpl::new(MemoryBlockstore::default());
    for i in 0..300u64 {
        amt.set(i * 5, item(&vec![(i % 256) as u8])).unwrap();
    }
    let id = amt.flush().unwrap();
    let loaded = AmtImpl::load(&id, amt.into_store()).unwrap();
    let mut seen: Vec<u64> = Vec::new();
    loaded
        .for_each(|i, v| {
            assert_eq!(v, &item(&vec![((i / 5) % 256) as u8]));
            seen.push(i);
            Ok(())
        })
        .unwrap();
    assert_eq!(seen, (0..300u64).map(|i| i * 5).collect::<Vec<u64>>());
    assert_eq!(loaded.first_from(0).unwrap(), Some((0, item(&vec![0]))));
    assert_eq!(loaded.first_from(1).unwrap(), Some((5, item(&vec![1]))));
    assert_eq!(loaded.first_from(1495).unwrap(), Some((1495, item(&vec![43]))));
    assert_eq!(loaded.first_from(1496).unwrap(), None);
    assert_eq!(loaded.first_from(u64::MAX).unwrap(), None);
}

#[test]
fn for_each_mut_changes_values_in_place() {
    let mut amt = AmtImpl::new(MemoryBlockstore::default());
    for i in 0..40u64 {
        amt.set(i * 3, item(&vec![i as u8])).unwrap();
    }
    amt.for_each_mut(|i, v| {
        if i % 2 == 0 {
            assert_eq!(v.get(), &item(&vec![(i / 3) as u8]));
            v.set(item(&vec![(i / 3) as u8, 0xff]));
        }
        Ok(())
    })
    .unwrap();
    assert_eq!(amt.count(), 40);
    for i in 0..40u64 {
        let expected = if (i * 3) % 2 == 0 { item(&vec![i as u8, 0xff]) } else { item(&vec![i as u8]) };
        assert_eq!(amt.get(i * 3).unwrap(), Some(expected));
    }
}

#[test]
fn for_each_while_mut_stops_and_keeps_the_changes_made() {
    let mut amt = AmtImpl::new(MemoryBlockstore::default());
    for i in 0..10u64 {
        amt.set(i, item(&vec![i as u8])).unwrap();
    }
    amt.for_each_while_mut(|i, v| {
        v.set(item(&vec![0xee]));
        Ok(i < 4)
    })
    .unwrap();
    for i in 0..10u64 {
        let expected = if i <= 4 { item(&vec![0xee]) } else { item(&vec![i as u8]) };
        assert_eq!(amt.get(i).unwrap(), Some(expected));
    }
    let res = amt.for_each_while_mut(|i, v| {
        v.set(item(&vec![0xdd]));
        if i == 2 {
            Err("no".to_owned())
        } else {
            Ok(true)
        }
    });
    assert!(matches!(res, Err(Error::Callback(_))));
    assert_eq!(amt.get(1).unwrap(), Some(item(&vec![0xdd])));
    assert_eq!(amt.get(2).unwrap(), Some(item(&vec![0xee])));
    assert_eq!(amt.get(3).unwrap(), Some(item(&vec![0xee])));
}

#[test]
fn the_deferred_walk_puts_the_changes_in_at_the_end() {
    let mut amt = AmtImpl::new(MemoryBlockstore::default());
    for i in 0..10u64 {
        amt.set(i, item(&vec![i as u8])).unwrap();
    }
    amt.for_each_while_mut_deferred(|i, v| {
        v.set(item(&vec![0xee]));
        Ok(i < 4)
    })
    .unwrap();
    for i in 0..10u64 {
        let expected = if i <= 4 { item(&vec![0xee]) } else { item(&vec![i as u8]) };
        assert_eq!(amt.get(i).unwrap(), Some(expected));
    }
    let res = amt.for_each_while_mut_deferred(|i, v| {
        v.set(item(&vec![0xdd]));
        if i == 2 {
            Err("no".to_owned())
        } else {
            Ok(true)
        }
    });
    assert!(matches!(res, Err(Error::Callback(_))));
    assert_eq!(amt.get(1).unwrap(), Some(item(&vec![0xee])));
}

#[test]
fn a_walk_that_changes_nothing_leaves_stored_subtrees_stored() {
    let mut amt = AmtImpl::new(MemoryBlockstore::default());
    for i in 0..100u64 {
        amt.set(i, item(&vec![i as u8])).unwrap();
    }
    let id = amt.flush().unwrap();
    let before = blocks_of(&amt.store_copy());
    let mut loaded = AmtImpl::load(&id, amt.into_store()).unwrap();
    loaded.for_each_mut(|_, v| {
        let _ = v.get();
        Ok(())
    })
    .unwrap();
    let again = loaded.flush().unwrap();
    assert!(again.same(&id));
    assert_eq!(blocks_of(&loaded.store_copy()), before);
    loaded
        .for_each_mut(|i, v| {
            if i == 17 {
                v.set(item(&vec![1, 2, 3]));
            }
            Ok(())
        })
        .unwrap();
    let changed = loaded.flush().unwrap();
    assert!(!changed.same(&id));
    assert_eq!(blocks_of(&loaded.store_copy()).len(), before.len() + 3);
}

#[test]
fn value_mut_tracks_changes() {
    let mut v = fvm_amt::amt::ValueMut::new(vec![1]);
    assert!(!v.value_changed());
    assert_eq!(v.get(), &vec![1]);
    v.set(vec![2]);
    assert!(v.value_changed());
    v.mark_unchanged();
    assert!(!v.value_changed());
    assert_eq!(v.into_inner(), vec![2]);
}

#[test]
fn count_follows_the_populated_indices() {
    let mut amt = AmtImpl::new(MemoryBlockstore::default());
    let mut populated = std::collections::BTreeSet::new();
    let mut x: u64 = 12345;
    for step in 0..2000u64 {
        x = x.wrapping_mul(6364136223846793005).wrapping_add(1442695040888963407);
        let i = (x >> 33) % 700;
        if step % 3 == 2 {
            let had = populated.remove(&i);
            assert_eq!(amt.delete(i).unwrap().is_some(), had);
        } else {
            populated.insert(i);
            amt.set(i, item(&vec![step as u8])).unwrap();
        }
        assert_eq!(amt.count(), populated.len() as u64);
        let needed = match populated.iter().next_back() {
            None => 0,
            Some(&max) => {
                let mut h = 0u32;
                while max >= 8u64.pow(h + 1) {
                    h += 1;
                }
                h
            },
        };
        assert_eq!(amt.height(), needed);
    }
}

#[test]
fn values_are_written_as_the_items_they_encode() {
    let mut amt = AmtImpl::new(MemoryBlockstore::default());
    amt.set(0, fvm_ipld_encoding::to_vec("foo").unwrap()).unwrap();
    amt.set(1, fvm_ipld_encoding::to_vec(&(7u64, true)).unwrap()).unwrap();
    let id = amt.flush().unwrap();
    let cid = cid::Cid::try_from(id.to_bytes().as_slice()).unwrap();
    let block = amt.store_copy().get(&cid).unwrap().unwrap();
    let expected: Vec<u8> = vec![
        0x84, 0x03, 0x00, 0x02, 0x83, 0x41, 0x03, 0x80, 0x82, 0x63, 0x66, 0x6f, 0x6f, 0x82, 0x07,
        0xf5,
    ];
    assert_eq!(block, expected);
    let typed: (u32, u32, u64, (fvm_ipld_encoding::BytesDe, Vec<cid::Cid>, (String, (u64, bool)))) =
        fvm_ipld_encoding::from_slice(&block).unwrap();
    assert_eq!(typed.3 .2, ("foo".to_owned(), (7, true)));
    let loaded = AmtImpl::load(&id, amt.into_store()).unwrap();
    let foo: String = fvm_ipld_encoding::from_slice(&loaded.get(0).unwrap().unwrap()).unwrap();
    assert_eq!(foo, "foo");
}

#[test]
fn a_block_with_values_of_any_kind_loads() {
    let store = MemoryBlockstore::default();
    let none: Vec<cid::Cid> = Vec::new();
    let node = (fvm_ipld_encoding::BytesSer(&[0b0000_0110u8]), none, (1000u64, "x"));
    let block = fvm_ipld_encoding::to_vec(&(3u32, 0u32, 2u64, node)).unwrap();
    let cid = store
        .put(multihash_codetable::Code::Blake2b256, &fvm_ipld_blockstore::Block::new(0x71, &block))
        .unwrap();
    let id = ContentId::from_bytes(&cid.to_bytes()).unwrap();
    let mut amt = AmtImpl::load(&id, store).unwrap();
    assert_eq!(amt.get(1).unwrap(), Some(fvm_ipld_encoding::to_vec(&1000u64).unwrap()));
    assert_eq!(amt.get(2).unwrap(), Some(fvm_ipld_encoding::to_vec("x").unwrap()));
    assert_eq!(amt.get(0).unwrap(), None);
    assert!(amt.flush().unwrap().same(&id));
}

#[test]
fn a_value_that_is_no_item_cannot_be_stored() {
    let mut amt = AmtImpl::new(MemoryBlockstore::default());
    amt.set(0, vec![0x66, 0x6f]).unwrap();
    assert_eq!(amt.get(0).unwrap(), Some(vec![0x66, 0x6f]));
    assert!(matches!(amt.flush(), Err(Error::Codec(_))));
    assert_eq!(amt.get(0).unwrap(), Some(vec![0x66, 0x6f]));
    amt.set(0, vec![0x01, 0x02]).unwrap();
    assert!(matches!(amt.flush(), Err(Error::Codec(_))));
    amt.set(0, vec![0x01]).unwrap();
    amt.flush().unwrap();
}

#[test]
fn for_each_reaches_the_greatest_index() {
    let mut amt = AmtImpl::new(MemoryBlockstore::default());
    amt.set(0, bytes("first")).unwrap();
    amt.set(MAX_INDEX, bytes("last")).unwrap();
    let id = amt.flush().unwrap();
    let loaded = AmtImpl::load(&id, amt.into_store()).unwrap();
    let mut seen: Vec<(u64, Vec<u8>)> = Vec::new();
    loaded
        .for_each(|i, v| {
            seen.push((i, v.clone()));
            Ok(())
        })
        .unwrap();
    assert_eq!(seen, vec![(0, bytes("first")), (MAX_INDEX, bytes("last"))]);
    let mut halted: Vec<u64> = Vec::new();
    loaded
        .for_each_while(|i, _| {
            halted.push(i);
            Ok(false)
        })
        .unwrap();
    assert_eq!(halted, vec![0]);
}

#[test]
fn a_walk_fails_at_the_first_subtree_that_is_missing() {
    let mut amt = AmtImpl::new(MemoryBlockstore::default());
    for i in 0..24u64 {
        amt.set(i, item(&vec![i as u8])).unwrap();
    }
    let id = amt.flush().unwrap();
    let full = amt.into_store();
    let root_cid = cid::Cid::try_from(id.to_bytes().as_slice()).unwrap();
    let root_block = full.get(&root_cid).unwrap().unwrap();
    let (_, _, _, (_, links, _)): (
        u32,
        u32,
        u64,
        (fvm_ipld_encoding::BytesDe, Vec<cid::Cid>, Vec<u64>),
    ) = fvm_ipld_encoding::from_slice(&root_block).unwrap();
    assert_eq!(links.len(), 3);
    let partial = MemoryBlockstore::default();
    partial.put_keyed(&root_cid, &root_block).unwrap();
    partial.put_keyed(&links[0], &full.get(&links[0]).unwrap().unwrap()).unwrap();
    partial.put_keyed(&links[2], &full.get(&links[2]).unwrap().unwrap()).unwrap();
    let loaded = AmtImpl::load(&id, partial).unwrap();
    let mut seen: Vec<u64> = Vec::new();
    let res = loaded.for_each(|i, _| {
        seen.push(i);
        Ok(())
    });
    assert!(matches!(res, Err(Error::CidNotFound(missing)) if missing.to_string() == links[1].to_string()));
    assert_eq!(seen, (0..8u64).collect::<Vec<u64>>());
}
