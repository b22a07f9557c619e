//! The account store: creation-once and ownership-gated writes over a
//! mapping from string-rendered account identifiers to CID accounts.
//!
//! The store's abstract state is a `Map` from key (a sequence of characters)
//! to account data, and every operation is specified as a transition on that
//! map: `spec_initialize` and `spec_store_cid` say exactly which inputs
//! succeed, which error each rejected input yields, and what the map looks
//! like afterwards.

use vstd::prelude::*;

use crate::pubkey::Pubkey;
use crate::pubkey::spec_render_pubkey;

verus! {

/// The error taxonomy of the registry. Every rejected request yields a
/// specific, stable kind, so a caller can branch on the cause.
#[derive(Clone, Copy, Debug, PartialEq, Eq, Structural)]
pub enum Error {
    /// Attempted to create an account that exists.
    AlreadyInitialized,
    /// The operation referenced a non-existent account.
    NotFound,
    /// Credential mismatch on a write.
    Unauthorized,
    /// A snapshot write failed; in-memory state may be ahead of durable
    /// state.
    PersistenceError,
}

/// The abstract content of one account: what `CidAccount` looks like to a
/// specification.
pub struct AccountData {
    pub owner: Seq<u8>,
    pub cid_count: u64,
    pub latest_cid: Seq<char>,
}

/// One registered account: its owner credential, the number of successful
/// publications, and the most recently published content identifier.
#[derive(Debug)]
pub struct CidAccount {
    /// Set once at creation, never changed thereafter.
    pub owner: Pubkey,
    /// Starts at 0, increments by exactly 1 on every successful publish.
    pub cid_count: u64,
    /// The most recently published content identifier; empty at creation.
    pub latest_cid: String,
}

impl View for CidAccount {
    type V = AccountData;

    open spec fn view(&self) -> AccountData {
        AccountData { owner: self.owner@, cid_count: self.cid_count, latest_cid: self.latest_cid@ }
    }
}

/// One slot of the store: a string key and the account filed under it.
#[derive(Debug)]
pub struct Entry {
    pub key: String,
    pub account: CidAccount,
}

/// The account store. Keys are unique; the abstract view is the map from
/// key to account data.
#[derive(Debug)]
pub struct CidStorage {
    pub accounts: Vec<Entry>,
}

/// The map described by a sequence of entries; later entries would win, but
/// a well-formed store has no repeated keys.
pub open spec fn map_of(entries: Seq<Entry>) -> Map<Seq<char>, AccountData>
    decreases entries.len(),
{
    if entries.len() == 0 {
        Map::empty()
    } else {
        map_of(entries.drop_last()).insert(entries.last().key@, entries.last().account@)
    }
}

/// A key is in the map exactly when some entry carries it.
proof fn lemma_map_of_contains(entries: Seq<Entry>, key: Seq<char>)
    ensures
        map_of(entries).contains_key(key) <==> exists|i: int|
            0 <= i < entries.len() && entries[i].key@ == key,
    decreases entries.len(),
{
    if entries.len() > 0 {
        lemma_map_of_contains(entries.drop_last(), key);
        if entries.last().key@ == key {
            assert(entries[entries.len() - 1].key@ == key);
        } else if map_of(entries).contains_key(key) {
            let i = choose|i: int| 0 <= i < entries.len() - 1 && entries.drop_last()[i].key@
                == key;
            assert(entries[i].key@ == key);
        } else if exists|i: int| 0 <= i < entries.len() && entries[i].key@ == key {
            let i = choose|i: int| 0 <= i < entries.len() && entries[i].key@ == key;
            assert(entries.drop_last()[i].key@ == key);
        }
    }
}

/// With unique keys, the map's value at an entry's key is that entry's
/// account.
proof fn lemma_map_of_index(entries: Seq<Entry>, i: int)
    requires
        0 <= i < entries.len(),
        forall|p: int, q: int|
            0 <= p < q < entries.len() ==> entries[p].key@ != entries[q].key@,
    ensures
        map_of(entries).contains_key(entries[i].key@),
        map_of(entries)[entries[i].key@] == entries[i].account@,
    decreases entries.len(),
{
    lemma_map_of_contains(entries, entries[i].key@);
    if i < entries.len() - 1 {
        assert(entries[i].key@ != entries.last().key@);
        lemma_map_of_index(entries.drop_last(), i);
        assert(entries.drop_last()[i] == entries[i]);
    }
}

impl CidStorage {
    /// Keys are pairwise distinct.
    pub open spec fn wf(self) -> bool {
        forall|i: int, j: int|
            0 <= i < j < self.accounts@.len() ==> self.accounts@[i].key@
                != self.accounts@[j].key@
    }
}

impl View for CidStorage {
    type V = Map<Seq<char>, AccountData>;

    open spec fn view(&self) -> Map<Seq<char>, AccountData> {
        map_of(self.accounts@)
    }
}

/// The transition `initialize` makes on the abstract map: it inserts a fresh
/// account, or fails without effect when the key is taken.
pub open spec fn spec_initialize(
    m: Map<Seq<char>, AccountData>,
    key: Seq<char>,
    owner: Seq<u8>,
) -> Result<Map<Seq<char>, AccountData>, Error> {
    if m.contains_key(key) {
        Err(Error::AlreadyInitialized)
    } else {
        Ok(m.insert(key, AccountData { owner, cid_count: 0, latest_cid: Seq::empty() }))
    }
}

/// The transition `store_cid` makes on the abstract map: with the right
/// signer it records the new CID and counts it; otherwise it fails without
/// effect, naming the cause.
pub open spec fn spec_store_cid(
    m: Map<Seq<char>, AccountData>,
    key: Seq<char>,
    signer: Seq<u8>,
    cid: Seq<char>,
) -> Result<Map<Seq<char>, AccountData>, Error> {
    if !m.contains_key(key) {
        Err(Error::NotFound)
    } else if m[key].owner != signer {
        Err(Error::Unauthorized)
    } else {
        Ok(
            m.insert(
                key,
                AccountData {
                    owner: m[key].owner,
                    cid_count: (m[key].cid_count + 1) as u64,
                    latest_cid: cid,
                },
            ),
        )
    }
}

impl CidStorage {
    /// An empty store.
    pub fn new() -> (r: Self)
        ensures
            r.wf(),
            r@ == Map::<Seq<char>, AccountData>::empty(),
    {
        Self { accounts: Vec::new() }
    }

    /// The index of the entry carrying `key`, if any.
    fn find_index(&self, key: &str) -> (r: Option<usize>)
        ensures
            match r {
                Some(i) => i < self.accounts@.len() && self.accounts@[i as int].key@ == key@,
                None => forall|i: int|
                    0 <= i < self.accounts@.len() ==> self.accounts@[i].key@ != key@,
            },
    {
        let k: String = key.to_owned();
        let n = self.accounts.len();
        let mut i: usize = 0;
        while i < n
            invariant
                n == self.accounts@.len(),
                i <= n,
                k@ == key@,
                forall|j: int| 0 <= j < i ==> self.accounts@[j].key@ != key@,
            decreases n - i,
        {
            if self.accounts[i].key == k {
                return Some(i);
            }
            i += 1;
        }
        None
    }

    /// Creates the account exactly once: inserts a fresh record with the
    /// given owner, a zero counter and an empty CID, or fails with
    /// `AlreadyInitialized` and no effect when the key is taken.
    pub fn initialize(&mut self, account_key: Pubkey, owner: Pubkey) -> (r: Result<(), Error>)
        requires
            old(self).wf(),
        ensures
            final(self).wf(),
            match spec_initialize(old(self)@, spec_render_pubkey(account_key@), owner@) {
                Ok(m) => r == Ok::<(), Error>(()) && final(self)@ == m,
                Err(e) => r == Err::<(), Error>(e) && final(self)@ == old(self)@,
            },
    {
        let key_str = account_key.to_string();
        proof {
            lemma_map_of_contains(self.accounts@, key_str@);
        }
        if self.find_index(key_str.as_str()).is_some() {
            return Err(Error::AlreadyInitialized);
        }
        let account = CidAccount { owner, cid_count: 0, latest_cid: String::new() };
        let ghost entries0 = self.accounts@;
        self.accounts.push(Entry { key: key_str, account });
        proof {
            assert(self.accounts@.drop_last() =~= entries0);
            assert(final(self)@ =~= old(self)@.insert(
                spec_render_pubkey(account_key@),
                AccountData { owner: owner@, cid_count: 0, latest_cid: Seq::empty() },
            ));
        }
        Ok(())
    }

    /// Records a publication: with the owner as signer it sets the latest
    /// CID and counts the publication; a wrong signer is `Unauthorized` and
    /// an unknown key is `NotFound`, both without effect.
    pub fn store_cid(&mut self, account_key: &str, signer: &Pubkey, cid: String) -> (r: Result<
        (),
        Error,
    >)
        requires
            old(self).wf(),
            cid@.len() > 0,
            old(self)@.contains_key(account_key@) ==> old(self)@[account_key@].cid_count
                < u64::MAX,
        ensures
            final(self).wf(),
            match spec_store_cid(old(self)@, account_key@, signer@, cid@) {
                Ok(m) => r == Ok::<(), Error>(()) && final(self)@ == m,
                Err(e) => r == Err::<(), Error>(e) && final(self)@ == old(self)@,
            },
    {
        proof {
            lemma_map_of_contains(self.accounts@, account_key@);
        }
        let i = match self.find_index(account_key) {
            Some(i) => i,
            None => {
                return Err(Error::NotFound);
            },
        };
        proof {
            lemma_map_of_index(self.accounts@, i as int);
        }
        let entry = self.accounts.remove(i);
        if !(entry.account.owner == *signer) {
            self.accounts.insert(i, entry);
            proof {
                assert(self.accounts@ =~= old(self).accounts@);
            }
            return Err(Error::Unauthorized);
        }
        let updated = Entry {
            key: entry.key,
            account: CidAccount {
                owner: Pubkey(entry.account.owner.0),
                cid_count: entry.account.cid_count + 1,
                latest_cid: cid,
            },
        };
        self.accounts.insert(i, updated);
        proof {
            assert(self.accounts@ =~= old(self).accounts@.update(
                i as int,
                self.accounts@[i as int],
            ));
            lemma_map_of_update(old(self).accounts@, i as int, self.accounts@[i as int]);
        }
        Ok(())
    }

    /// Reads the current snapshot of one account, or fails with `NotFound`.
    pub fn get(&self, account_key: &str) -> (r: Result<CidAccount, Error>)
        requires
            self.wf(),
        ensures
            match r {
                Ok(a) => self@.contains_key(account_key@) && a@ == self@[account_key@],
                Err(e) => e == Error::NotFound && !self@.contains_key(account_key@),
            },
    {
        proof {
            lemma_map_of_contains(self.accounts@, account_key@);
        }
        let i = match self.find_index(account_key) {
            Some(i) => i,
            None => {
                return Err(Error::NotFound);
            },
        };
        proof {
            lemma_map_of_index(self.accounts@, i as int);
        }
        let entry = &self.accounts[i];
        Ok(
            CidAccount {
                owner: Pubkey(entry.account.owner.0),
                cid_count: entry.account.cid_count,
                latest_cid: entry.account.latest_cid.clone(),
            },
        )
    }
}

/// Replacing the entry at `i` by one with the same key updates the map at
/// that key and nothing else.
proof fn lemma_map_of_update(entries: Seq<Entry>, i: int, e: Entry)
    requires
        0 <= i < entries.len(),
        e.key@ == entries[i].key@,
        forall|p: int, q: int|
            0 <= p < q < entries.len() ==> entries[p].key@ != entries[q].key@,
    ensures
        map_of(entries.update(i, e)) == map_of(entries).insert(e.key@, e.account@),
    decreases entries.len(),
{
    let u = entries.update(i, e);
    if i == entries.len() - 1 {
        assert(u.drop_last() =~= entries.drop_last());
        assert(u.last() == e);
        assert(map_of(u) =~= map_of(entries).insert(e.key@, e.account@));
    } else {
        assert(u.drop_last() =~= entries.drop_last().update(i, e));
        assert(u.last() == entries.last());
        lemma_map_of_update(entries.drop_last(), i, e);
        assert(e.key@ != entries.last().key@);
        assert(map_of(u) =~= map_of(entries).insert(e.key@, e.account@));
    }
}

/// The effect of a whole sequence of publications, all signed by the same
/// credential: each is applied in turn, and the first failure stops the run.
pub open spec fn spec_store_all(
    m: Map<Seq<char>, AccountData>,
    key: Seq<char>,
    signer: Seq<u8>,
    cids: Seq<Seq<char>>,
) -> Result<Map<Seq<char>, AccountData>, Error>
    decreases cids.len(),
{
    if cids.len() == 0 {
        Ok(m)
    } else {
        match spec_store_cid(m, key, signer, cids[0]) {
            Ok(m1) => spec_store_all(m1, key, signer, cids.drop_first()),
            Err(e) => Err(e),
        }
    }
}

/// Create-once: after a successful `initialize` of a key, a second
/// `initialize` of the same key fails with `AlreadyInitialized`, and the
/// account still holds exactly the fields the first call set: the first
/// owner, a zero counter and an empty CID.
pub proof fn lemma_create_once(
    m: Map<Seq<char>, AccountData>,
    key: Seq<char>,
    owner1: Seq<u8>,
    owner2: Seq<u8>,
)
    requires
        spec_initialize(m, key, owner1) is Ok,
    ensures
        ({
            let m1 = spec_initialize(m, key, owner1)->Ok_0;
            &&& spec_initialize(m1, key, owner2) == Err::<
                Map<Seq<char>, AccountData>,
                Error,
            >(Error::AlreadyInitialized)
            &&& m1[key] == AccountData { owner: owner1, cid_count: 0, latest_cid: Seq::empty() }
        }),
{
}

/// Ownership gate: a publication whose signer differs from the account's
/// owner fails with `Unauthorized`, so the counter and the latest CID are
/// untouched.
pub proof fn lemma_ownership_gate(
    m: Map<Seq<char>, AccountData>,
    key: Seq<char>,
    signer: Seq<u8>,
    cid: Seq<char>,
)
    requires
        m.contains_key(key),
        m[key].owner != signer,
    ensures
        spec_store_cid(m, key, signer, cid) == Err::<
            Map<Seq<char>, AccountData>,
            Error,
        >(Error::Unauthorized),
{
}

/// A run of owner-signed publications on an existing account always
/// succeeds (while the counter fits), adds its length to the counter, and
/// leaves the last CID of the run as the latest.
proof fn lemma_store_all_general(
    m: Map<Seq<char>, AccountData>,
    key: Seq<char>,
    owner: Seq<u8>,
    cids: Seq<Seq<char>>,
)
    requires
        m.contains_key(key),
        m[key].owner == owner,
        m[key].cid_count + cids.len() <= u64::MAX,
    ensures
        spec_store_all(m, key, owner, cids) is Ok,
        ({
            let r = spec_store_all(m, key, owner, cids)->Ok_0;
            &&& r.contains_key(key)
            &&& r[key].owner == owner
            &&& r[key].cid_count == m[key].cid_count + cids.len()
            &&& (cids.len() > 0 ==> r[key].latest_cid == cids.last())
            &&& (cids.len() == 0 ==> r[key] == m[key])
        }),
    decreases cids.len(),
{
    if cids.len() > 0 {
        let m1 = spec_store_cid(m, key, owner, cids[0])->Ok_0;
        lemma_store_all_general(m1, key, owner, cids.drop_first());
        if cids.len() > 1 {
            assert(cids.drop_first().last() == cids.last());
        }
    }
}

/// Monotonic counter: starting from a freshly created account, `n`
/// owner-signed publications all succeed; afterwards the counter equals `n`
/// exactly and the latest CID is the `n`-th one published.
pub proof fn lemma_monotonic_counter(
    m: Map<Seq<char>, AccountData>,
    key: Seq<char>,
    owner: Seq<u8>,
    cids: Seq<Seq<char>>,
)
    requires
        m.contains_key(key),
        m[key].owner == owner,
        m[key].cid_count == 0,
        cids.len() <= u64::MAX,
    ensures
        spec_store_all(m, key, owner, cids) is Ok,
        ({
            let r = spec_store_all(m, key, owner, cids)->Ok_0;
            &&& r.contains_key(key)
            &&& r[key].cid_count == cids.len()
            &&& (cids.len() > 0 ==> r[key].latest_cid == cids.last())
        }),
{
    lemma_store_all_general(m, key, owner, cids);
}

} // verus!
