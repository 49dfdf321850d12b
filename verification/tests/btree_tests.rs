use stable_store::btree::BTree;
use stable_store::store::Principal;
use stable_store::store::Store;

fn lcg(state: &mut u64) -> u64 {
    *state = state.wrapping_mul(6364136223846793005).wrapping_add(1442695040888963407);
    *state >> 33
}

#[test]
fn insert_then_get() {
    let mut t = BTree::new();
    t.insert(b"k".to_vec(), b"v".to_vec());
    assert_eq!(t.get(&b"k".to_vec()), Some(&b"v".to_vec()));
}

#[test]
fn absent_key_is_none() {
    let mut t = BTree::new();
    t.insert(b"k".to_vec(), b"v".to_vec());
    assert_eq!(t.get(&b"zzz".to_vec()), None);
    assert_eq!(BTree::new().get(&b"k".to_vec()), None);
}

#[test]
fn overwrite_replaces_only_its_key() {
    let mut t = BTree::new();
    for i in 0..50u8 {
        t.insert(vec![i], vec![i, 0]);
    }
    t.insert(vec![25], vec![9, 9]);
    for i in 0..50u8 {
        if i == 25 {
            assert_eq!(t.get(&vec![i]), Some(&vec![9, 9]));
        } else {
            assert_eq!(t.get(&vec![i]), Some(&vec![i, 0]));
        }
    }
}

#[test]
fn entries_sorted_no_duplicates_no_omissions() {
    let mut t = BTree::new();
    let mut state = 7u64;
    let mut keys: Vec<Vec<u8>> = Vec::new();
    for _ in 0..500 {
        let k = lcg(&mut state).to_string().into_bytes();
        t.insert(k.clone(), b"v".to_vec());
        if !keys.contains(&k) {
            keys.push(k);
        }
    }
    let entries = t.entries();
    assert_eq!(entries.len(), keys.len());
    for w in entries.windows(2) {
        assert!(w[0].key < w[1].key);
    }
    for k in &keys {
        assert!(entries.iter().any(|e| &e.key == k));
    }
}

#[test]
fn iterate_from_lower_bound() {
    let mut t = BTree::new();
    for i in [5u8, 1, 9, 3, 7] {
        t.insert(vec![i], vec![i]);
    }
    let tail = t.iterate_from(&vec![4u8]);
    let keys: Vec<Vec<u8>> = tail.iter().map(|e| e.key.clone()).collect();
    assert_eq!(keys, vec![vec![5u8], vec![7], vec![9]]);
    // restartable: a fresh traversal starts over from the given bound
    let again = t.iterate_from(&vec![0u8]);
    assert_eq!(again.len(), 5);
}

#[test]
fn ten_thousand_keys_survive_restart_in_order() {
    let mut st = Store::init().unwrap();
    let mut state = 42u64;
    let mut pairs: Vec<(String, String)> = Vec::new();
    for i in 0..10000u32 {
        let key = format!("id-{:06}", i);
        let val = format!("val-{}", lcg(&mut state));
        pairs.push((key, val));
    }
    // load the map, then one mutating call persists the whole of it
    for (k, v) in pairs.iter().take(9999) {
        st.tree.insert(k.clone().into_bytes(), v.clone().into_bytes());
    }
    let (lk, lv) = pairs[9999].clone();
    st.set_data_for_principal(&Principal::from_bytes(lk.into_bytes()), lv).unwrap();

    let region = st.mgr.region;
    let st2 = Store::attach(region).unwrap();
    for (k, v) in &pairs {
        let got = st2.get_data_for_principal(&Principal::from_bytes(k.clone().into_bytes()));
        assert_eq!(&got, v);
    }
    let entries = st2.tree.entries();
    assert_eq!(entries.len(), 10000);
    for w in entries.windows(2) {
        assert!(w[0].key < w[1].key);
    }
}
