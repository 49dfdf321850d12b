use stable_store::btree::BTree;
use stable_store::codec::Storable;
use stable_store::codec::decode_entries;
use stable_store::codec::encode_entries;
use stable_store::region::MemoryRegion;
use stable_store::region::PAGE_SIZE;
use stable_store::store::Principal;
use stable_store::store::SimpleStorage;
use stable_store::store::Store;
use stable_store::StoreError;

fn p(bytes: &[u8]) -> Principal {
    Principal::from_bytes(bytes.to_vec())
}

#[test]
fn scenario_set_then_get() {
    let mut st = Store::init().unwrap();
    st.set_data_for_principal(&p(b"p1"), "hello".to_string()).unwrap();
    assert_eq!(st.get_data_for_principal(&p(b"p1")), "hello");
}

#[test]
fn scenario_get_absent_is_sentinel() {
    let st = Store::init().unwrap();
    assert_eq!(st.get_data_for_principal(&p(b"p2")), "No data found");
}

#[test]
fn scenario_overwrite() {
    let mut st = Store::init().unwrap();
    st.set_data_for_principal(&p(b"p1"), "hello".to_string()).unwrap();
    st.set_data_for_principal(&p(b"p1"), "world".to_string()).unwrap();
    assert_eq!(st.get_data_for_principal(&p(b"p1")), "world");
}

#[test]
fn overwrite_leaves_other_keys_alone() {
    let mut st = Store::init().unwrap();
    st.set_data_for_principal(&p(b"alpha"), "one".to_string()).unwrap();
    st.set_data_for_principal(&p(b"beta"), "two".to_string()).unwrap();
    st.set_data_for_principal(&p(b"alpha"), "three".to_string()).unwrap();
    assert_eq!(st.get_data_for_principal(&p(b"alpha")), "three");
    assert_eq!(st.get_data_for_principal(&p(b"beta")), "two");
}

#[test]
fn storable_round_trip() {
    let v = SimpleStorage::new("hello, wörld ✓".to_string());
    let bytes = v.to_bytes();
    let w = SimpleStorage::from_bytes(bytes).unwrap();
    assert_eq!(w.data(), v.data());
}

#[test]
fn storable_rejects_malformed_bytes() {
    let r = SimpleStorage::from_bytes(vec![0xff, 0xfe]);
    assert!(matches!(r, Err(StoreError::DecodeError)));
}

#[test]
fn snapshot_codec_round_trip() {
    let mut t = BTree::new();
    t.insert(b"b".to_vec(), b"2".to_vec());
    t.insert(b"a".to_vec(), b"1".to_vec());
    let list = t.entries();
    let bytes = encode_entries(&list);
    let back = decode_entries(&bytes).unwrap();
    assert_eq!(back.len(), 2);
    assert_eq!(back[0].key, b"a".to_vec());
    assert_eq!(back[0].val, b"1".to_vec());
    assert_eq!(back[1].key, b"b".to_vec());
    assert_eq!(back[1].val, b"2".to_vec());
}

#[test]
fn snapshot_decode_rejects_garbage() {
    assert!(matches!(decode_entries(&vec![1, 2, 3]), Err(StoreError::DecodeError)));
    // a count that promises more entries than the bytes hold
    let mut bad = vec![0u8; 8];
    bad[0] = 9;
    assert!(matches!(decode_entries(&bad), Err(StoreError::DecodeError)));
}

#[test]
fn restart_preserves_all_pairs() {
    let mut st = Store::init().unwrap();
    st.set_data_for_principal(&p(b"k1"), "v1".to_string()).unwrap();
    st.set_data_for_principal(&p(b"k3"), "v3".to_string()).unwrap();
    st.set_data_for_principal(&p(b"k2"), "v2".to_string()).unwrap();
    let region = st.mgr.region;
    let st2 = Store::attach(region).unwrap();
    assert_eq!(st2.get_data_for_principal(&p(b"k1")), "v1");
    assert_eq!(st2.get_data_for_principal(&p(b"k2")), "v2");
    assert_eq!(st2.get_data_for_principal(&p(b"k3")), "v3");
    assert_eq!(st2.get_data_for_principal(&p(b"k4")), "No data found");
}

#[test]
fn attach_refuses_blank_region() {
    let region = MemoryRegion::new();
    assert!(matches!(Store::attach(region), Err(StoreError::CorruptDirectory)));
}

#[test]
fn attach_refuses_wrong_magic() {
    let mut region = MemoryRegion::new();
    region.grow(1).unwrap();
    region.write_byte(0, 0x7f);
    assert!(matches!(Store::attach(region), Err(StoreError::CorruptDirectory)));
}

#[test]
fn region_read_write_and_bounds() {
    let mut region = MemoryRegion::new();
    region.grow(1).unwrap();
    assert_eq!(region.size(), PAGE_SIZE);
    region.write(10, &vec![1, 2, 3]).unwrap();
    assert_eq!(region.read(10, 3).unwrap(), vec![1, 2, 3]);
    assert!(matches!(region.read(PAGE_SIZE - 1, 2), Err(StoreError::OutOfBounds)));
    assert!(matches!(region.write(PAGE_SIZE, &vec![1]), Err(StoreError::OutOfBounds)));
}

#[test]
fn region_refuses_oversized_growth() {
    let mut region = MemoryRegion::new();
    assert!(matches!(region.grow(256), Err(StoreError::AllocationFailed)));
}

#[test]
fn growth_keeps_earlier_entries() {
    // enough data to force node splits and at least one bucket growth past
    // the first page
    let mut st = Store::init().unwrap();
    let big = "x".repeat(700);
    for i in 0..120u32 {
        let key = format!("key-{:04}", i);
        let val = format!("{}-{}", big, i);
        st.set_data_for_principal(&p(key.as_bytes()), val).unwrap();
    }
    assert!(st.mgr.bucket_len(0) > PAGE_SIZE);
    for i in 0..120u32 {
        let key = format!("key-{:04}", i);
        let expect = format!("{}-{}", big, i);
        assert_eq!(st.get_data_for_principal(&p(key.as_bytes())), expect);
    }
}

#[test]
fn refused_growth_changes_nothing() {
    // a value too large for the bucket's page budget is refused, and the
    // failed write leaves both the map and the durable bytes as they were
    let mut st = Store::init().unwrap();
    st.set_data_for_principal(&p(b"small"), "kept".to_string()).unwrap();
    let huge = "y".repeat(5 * 1024 * 1024);
    let r = st.set_data_for_principal(&p(b"big"), huge);
    assert!(matches!(r, Err(StoreError::AllocationFailed)));
    assert_eq!(st.get_data_for_principal(&p(b"small")), "kept");
    assert_eq!(st.get_data_for_principal(&p(b"big")), "No data found");
    // the durable bytes still reattach to the pre-failure map
    let st2 = Store::attach(st.mgr.region).unwrap();
    assert_eq!(st2.get_data_for_principal(&p(b"small")), "kept");
    assert_eq!(st2.get_data_for_principal(&p(b"big")), "No data found");
}
