use cid_registry::pubkey::Pubkey;
use cid_registry::store::CidStorage;
use cid_registry::store::Error;

fn key(fill: u8) -> Pubkey {
    Pubkey::new([fill; 32])
}

fn sample_store() -> CidStorage {
    let mut s = CidStorage::new();
    let k1 = key(1);
    let k2 = key(200);
    let o1 = key(21);
    let o2 = key(22);
    s.initialize(k1.clone(), o1.clone()).unwrap();
    s.initialize(k2.clone(), o2.clone()).unwrap();
    s.store_cid(&k1.to_string(), &o1, "QmFirst".to_string()).unwrap();
    s.store_cid(&k1.to_string(), &o1, "QmSecond".to_string()).unwrap();
    s.store_cid(&k2.to_string(), &o2, "bafyOther".to_string()).unwrap();
    s
}

#[test]
fn save_load_round_trip() {
    let s = sample_store();
    let bytes = s.save();
    let r = CidStorage::load(Some(&bytes));
    for k in [key(1), key(200)] {
        let before = s.get(&k.to_string()).unwrap();
        let after = r.get(&k.to_string()).unwrap();
        assert_eq!(before.owner, after.owner);
        assert_eq!(before.cid_count, after.cid_count);
        assert_eq!(before.latest_cid, after.latest_cid);
    }
    // and no account appears from nowhere
    assert_eq!(r.get(&key(3).to_string()).err(), Some(Error::NotFound));
}

#[test]
fn round_trip_keeps_multibyte_cids() {
    let mut s = CidStorage::new();
    let k = key(5);
    let o = key(6);
    s.initialize(k.clone(), o.clone()).unwrap();
    s.store_cid(&k.to_string(), &o, "Qm\u{03c0}\u{2713}\u{1f600}".to_string()).unwrap();
    let bytes = s.save();
    let r = CidStorage::load(Some(&bytes));
    let a = r.get(&k.to_string()).unwrap();
    assert_eq!(a.latest_cid, "Qm\u{03c0}\u{2713}\u{1f600}".to_string());
}

#[test]
fn empty_store_round_trip() {
    let s = CidStorage::new();
    let bytes = s.save();
    let r = CidStorage::load(Some(&bytes));
    assert_eq!(r.get(&key(1).to_string()).err(), Some(Error::NotFound));
}

#[test]
fn load_missing_snapshot() {
    let r = CidStorage::load(None);
    assert_eq!(r.get(&key(1).to_string()).err(), Some(Error::NotFound));
}

#[test]
fn load_garbage_snapshot() {
    let r = CidStorage::load(Some(b"this is not a snapshot"));
    assert_eq!(r.get(&key(1).to_string()).err(), Some(Error::NotFound));
}

#[test]
fn load_empty_bytes() {
    let r = CidStorage::load(Some(&[]));
    assert_eq!(r.get(&key(1).to_string()).err(), Some(Error::NotFound));
}

#[test]
fn load_truncated_snapshot() {
    let s = sample_store();
    let mut bytes = s.save();
    bytes.pop();
    let r = CidStorage::load(Some(&bytes));
    // unparsable: the whole snapshot is discarded, never an error
    assert_eq!(r.get(&key(1).to_string()).err(), Some(Error::NotFound));
    assert_eq!(r.get(&key(200).to_string()).err(), Some(Error::NotFound));
}

#[test]
fn load_trailing_garbage() {
    let s = sample_store();
    let mut bytes = s.save();
    bytes.push(0);
    let r = CidStorage::load(Some(&bytes));
    assert_eq!(r.get(&key(1).to_string()).err(), Some(Error::NotFound));
}

#[test]
fn load_wrong_count() {
    let s = sample_store();
    let mut bytes = s.save();
    // claim one entry more than the snapshot holds
    bytes[0] = bytes[0].wrapping_add(1);
    let r = CidStorage::load(Some(&bytes));
    assert_eq!(r.get(&key(1).to_string()).err(), Some(Error::NotFound));
}

#[test]
fn load_repeated_key() {
    let mut s = CidStorage::new();
    let k = key(1);
    let o = key(2);
    s.initialize(k.clone(), o.clone()).unwrap();
    let one = s.save();
    // craft a snapshot that lists the same entry twice
    let entry = &one[8..];
    let mut twice: Vec<u8> = vec![2, 0, 0, 0, 0, 0, 0, 0];
    twice.extend_from_slice(entry);
    twice.extend_from_slice(entry);
    let r = CidStorage::load(Some(&twice));
    // a repeated key cannot come from `save`; the snapshot is discarded
    assert_eq!(r.get(&k.to_string()).err(), Some(Error::NotFound));
}

#[test]
fn mutations_after_load_work() {
    let s = sample_store();
    let bytes = s.save();
    let mut r = CidStorage::load(Some(&bytes));
    let k1 = key(1);
    let o1 = key(21);
    assert_eq!(r.initialize(k1.clone(), o1.clone()), Err(Error::AlreadyInitialized));
    assert_eq!(r.store_cid(&k1.to_string(), &o1, "QmThird".to_string()), Ok(()));
    let a = r.get(&k1.to_string()).unwrap();
    assert_eq!(a.cid_count, 3);
    assert_eq!(a.latest_cid, "QmThird".to_string());
}
