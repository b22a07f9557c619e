use cid_registry::pubkey::Pubkey;
use cid_registry::store::CidStorage;
use cid_registry::store::Error;

fn key(fill: u8) -> Pubkey {
    Pubkey::new([fill; 32])
}

#[test]
fn fresh_account_fields() {
    let mut s = CidStorage::new();
    let k = key(1);
    let owner = key(2);
    assert_eq!(s.initialize(k.clone(), owner.clone()), Ok(()));
    let a = s.get(&k.to_string()).unwrap();
    assert_eq!(a.owner, owner);
    assert_eq!(a.cid_count, 0);
    assert_eq!(a.latest_cid, String::new());
}

#[test]
fn create_once() {
    let mut s = CidStorage::new();
    let k = key(1);
    let owner = key(2);
    let other = key(3);
    assert_eq!(s.initialize(k.clone(), owner.clone()), Ok(()));
    // the second creation of the same key is rejected, whoever asks
    assert_eq!(s.initialize(k.clone(), other), Err(Error::AlreadyInitialized));
    // and the account still holds what the first call set
    let a = s.get(&k.to_string()).unwrap();
    assert_eq!(a.owner, owner);
    assert_eq!(a.cid_count, 0);
    assert_eq!(a.latest_cid, String::new());
}

#[test]
fn ownership_gate() {
    let mut s = CidStorage::new();
    let k = key(1);
    let owner = key(2);
    let intruder = key(3);
    s.initialize(k.clone(), owner.clone()).unwrap();
    let key_str = k.to_string();
    s.store_cid(&key_str, &owner, "cidA".to_string()).unwrap();
    // a signer other than the owner is rejected and nothing changes
    let r = s.store_cid(&key_str, &intruder, "cidB".to_string());
    assert_eq!(r, Err(Error::Unauthorized));
    let a = s.get(&key_str).unwrap();
    assert_eq!(a.cid_count, 1);
    assert_eq!(a.latest_cid, "cidA".to_string());
}

#[test]
fn monotonic_counter() {
    let mut s = CidStorage::new();
    let k = key(1);
    let owner = key(2);
    s.initialize(k.clone(), owner.clone()).unwrap();
    let key_str = k.to_string();
    for i in 0..5u64 {
        let cid = format!("cid-{}", i);
        assert_eq!(s.store_cid(&key_str, &owner, cid), Ok(()));
        let a = s.get(&key_str).unwrap();
        assert_eq!(a.cid_count, i + 1);
        assert_eq!(a.latest_cid, format!("cid-{}", i));
    }
    // publishing the same CID again still counts: publish is an event
    assert_eq!(s.store_cid(&key_str, &owner, "cid-4".to_string()), Ok(()));
    assert_eq!(s.get(&key_str).unwrap().cid_count, 6);
}

#[test]
fn store_on_missing_account() {
    let mut s = CidStorage::new();
    let owner = key(2);
    let r = s.store_cid(&key(9).to_string(), &owner, "cid".to_string());
    assert_eq!(r, Err(Error::NotFound));
}

#[test]
fn get_on_missing_account() {
    let s = CidStorage::new();
    assert_eq!(s.get(&key(9).to_string()).err(), Some(Error::NotFound));
}

#[test]
fn example_scenario() {
    let mut s = CidStorage::new();
    let acct1 = key(1);
    let a = key(10);
    let b = key(11);
    let acct1_str = acct1.to_string();

    assert_eq!(s.initialize(acct1.clone(), a.clone()), Ok(()));

    assert_eq!(s.store_cid(&acct1_str, &a, "cidHash1".to_string()), Ok(()));
    let acc = s.get(&acct1_str).unwrap();
    assert_eq!(acc.cid_count, 1);
    assert_eq!(acc.latest_cid, "cidHash1".to_string());

    assert_eq!(s.store_cid(&acct1_str, &b, "cidHash2".to_string()), Err(Error::Unauthorized));
    let acc = s.get(&acct1_str).unwrap();
    assert_eq!(acc.cid_count, 1);
    assert_eq!(acc.latest_cid, "cidHash1".to_string());

    assert_eq!(s.store_cid(&acct1_str, &a, "cidHash3".to_string()), Ok(()));
    let acc = s.get(&acct1_str).unwrap();
    assert_eq!(acc.cid_count, 2);
    assert_eq!(acc.latest_cid, "cidHash3".to_string());

    let acct2 = key(4);
    assert_eq!(s.get(&acct2.to_string()).err(), Some(Error::NotFound));
}

#[test]
fn accounts_are_independent() {
    let mut s = CidStorage::new();
    let k1 = key(1);
    let k2 = key(2);
    let o1 = key(21);
    let o2 = key(22);
    s.initialize(k1.clone(), o1.clone()).unwrap();
    s.initialize(k2.clone(), o2.clone()).unwrap();
    s.store_cid(&k1.to_string(), &o1, "one".to_string()).unwrap();
    let a1 = s.get(&k1.to_string()).unwrap();
    let a2 = s.get(&k2.to_string()).unwrap();
    assert_eq!(a1.cid_count, 1);
    assert_eq!(a1.latest_cid, "one".to_string());
    assert_eq!(a2.cid_count, 0);
    assert_eq!(a2.latest_cid, String::new());
}
