//! The durable snapshot: a total, round-trip-exact byte encoding of the
//! account store.
//!
//! A snapshot is the entry count, then each entry in store order: the key (a
//! length-prefixed UTF-8 string), the 32 owner bytes, the publication
//! counter, and the latest CID (another length-prefixed string). All counts
//! and lengths are 64-bit little-endian. `save` produces exactly this
//! encoding; `load` accepts exactly it and falls back to the empty store on
//! anything else, never an error.

use vstd::prelude::*;

use crate::pubkey::Pubkey;
use crate::store::AccountData;
use crate::store::CidAccount;
use crate::store::CidStorage;
use crate::store::Entry;
use crate::store::map_of;

verus! {

use vstd::bytes::*;
use vstd::slice::*;
use vstd::string::*;
use vstd::utf8::*;

/// The abstract content of the store, entry by entry: each key with its
/// account data.
pub open spec fn pairs_of(entries: Seq<Entry>) -> Seq<(Seq<char>, AccountData)> {
    entries.map(|i: int, e: Entry| (e.key@, e.account@))
}

/// Keys pairwise distinct.
pub open spec fn unique_keys(ps: Seq<(Seq<char>, AccountData)>) -> bool {
    forall|i: int, j: int| 0 <= i < j < ps.len() ==> ps[i].0 != ps[j].0
}

/// The map described by a sequence of abstract entries.
pub open spec fn map_of_pairs(ps: Seq<(Seq<char>, AccountData)>) -> Map<Seq<char>, AccountData>
    decreases ps.len(),
{
    if ps.len() == 0 {
        Map::empty()
    } else {
        map_of_pairs(ps.drop_last()).insert(ps.last().0, ps.last().1)
    }
}

/// The abstract entries describe the same map as the entries they came from.
pub proof fn lemma_map_of_pairs(entries: Seq<Entry>)
    ensures
        map_of_pairs(pairs_of(entries)) == map_of(entries),
    decreases entries.len(),
{
    if entries.len() > 0 {
        lemma_map_of_pairs(entries.drop_last());
        assert(pairs_of(entries).drop_last() =~= pairs_of(entries.drop_last()));
        assert(map_of_pairs(pairs_of(entries)) =~= map_of(entries));
    } else {
        assert(map_of_pairs(pairs_of(entries)) =~= map_of(entries));
    }
}

/// A 64-bit count or length, little-endian.
pub open spec fn spec_enc_u64(x: u64) -> Seq<u8> {
    spec_u64_to_le_bytes(x)
}

/// A string: the byte length of its UTF-8 form, then that form.
pub open spec fn spec_enc_str(s: Seq<char>) -> Seq<u8> {
    spec_enc_u64(encode_utf8(s).len() as u64) + encode_utf8(s)
}

/// One account record: owner bytes, counter, latest CID.
pub open spec fn spec_enc_account(a: AccountData) -> Seq<u8> {
    a.owner + spec_enc_u64(a.cid_count) + spec_enc_str(a.latest_cid)
}

/// One entry: the key, then the record under it.
pub open spec fn spec_enc_pair(p: (Seq<char>, AccountData)) -> Seq<u8> {
    spec_enc_str(p.0) + spec_enc_account(p.1)
}

/// All entries, in store order.
pub open spec fn spec_enc_pairs(ps: Seq<(Seq<char>, AccountData)>) -> Seq<u8>
    decreases ps.len(),
{
    if ps.len() == 0 {
        Seq::empty()
    } else {
        spec_enc_pair(ps[0]) + spec_enc_pairs(ps.drop_first())
    }
}

/// The whole snapshot: the entry count, then the entries.
pub open spec fn spec_encode(ps: Seq<(Seq<char>, AccountData)>) -> Seq<u8> {
    spec_enc_u64(ps.len() as u64) + spec_enc_pairs(ps)
}

/// What any store that exists in memory satisfies: owners are 32 bytes and
/// all counts fit in 64 bits.
pub open spec fn encodable(ps: Seq<(Seq<char>, AccountData)>) -> bool {
    &&& ps.len() <= u64::MAX
    &&& forall|i: int|
        0 <= i < ps.len() ==> {
            &&& (#[trigger] ps[i]).1.owner.len() == 32
            &&& encode_utf8(ps[i].0).len() <= u64::MAX
            &&& encode_utf8(ps[i].1.latest_cid).len() <= u64::MAX
        }
}

/// Reads a 64-bit value at `p`; fails when fewer than 8 bytes remain.
pub open spec fn spec_dec_u64(b: Seq<u8>, p: int) -> Option<(u64, int)> {
    if p < 0 || p + 8 > b.len() {
        None
    } else {
        Some((spec_u64_from_le_bytes(b.subrange(p, p + 8)), p + 8))
    }
}

/// Reads the 32 owner bytes at `p`.
pub open spec fn spec_dec_owner(b: Seq<u8>, p: int) -> Option<(Seq<u8>, int)> {
    if p < 0 || p + 32 > b.len() {
        None
    } else {
        Some((b.subrange(p, p + 32), p + 32))
    }
}

/// Reads a length-prefixed string at `p`; fails when the bytes run out or
/// are not valid UTF-8.
pub open spec fn spec_dec_str(b: Seq<u8>, p: int) -> Option<(Seq<char>, int)> {
    match spec_dec_u64(b, p) {
        Some((n, p1)) => if p1 + n > b.len() {
            None
        } else {
            let chunk = b.subrange(p1, p1 + n);
            if valid_utf8(chunk) {
                Some((decode_utf8(chunk), p1 + n))
            } else {
                None
            }
        },
        None => None,
    }
}

/// Reads one entry at `p`: key, owner, counter, latest CID.
pub open spec fn spec_dec_pair(b: Seq<u8>, p: int) -> Option<((Seq<char>, AccountData), int)> {
    match spec_dec_str(b, p) {
        Some((key, p1)) => match spec_dec_owner(b, p1) {
            Some((owner, p2)) => match spec_dec_u64(b, p2) {
                Some((count, p3)) => match spec_dec_str(b, p3) {
                    Some((cid, p4)) => Some(
                        ((key, AccountData { owner, cid_count: count, latest_cid: cid }), p4),
                    ),
                    None => None,
                },
                None => None,
            },
            None => None,
        },
        None => None,
    }
}

/// Reads `n` entries in a row starting at `p`.
pub open spec fn spec_dec_pairs(b: Seq<u8>, p: int, n: nat) -> Option<
    (Seq<(Seq<char>, AccountData)>, int),
>
    decreases n,
{
    if n == 0 {
        Some((Seq::empty(), p))
    } else {
        match spec_dec_pair(b, p) {
            Some((e, p1)) => match spec_dec_pairs(b, p1, (n - 1) as nat) {
                Some((rest, p2)) => Some((seq![e] + rest, p2)),
                None => None,
            },
            None => None,
        }
    }
}

/// What a snapshot byte sequence denotes: the abstract entries, or nothing
/// when the bytes are not exactly one whole encoding.
pub open spec fn spec_decode(b: Seq<u8>) -> Option<Seq<(Seq<char>, AccountData)>> {
    match spec_dec_u64(b, 0) {
        Some((n, p)) => match spec_dec_pairs(b, p, n as nat) {
            Some((ps, p2)) => if p2 == b.len() {
                Some(ps)
            } else {
                None
            },
            None => None,
        },
        None => None,
    }
}

/// The store map a snapshot stands for: a missing snapshot, one that does
/// not parse, or one with a repeated key all fall back to the empty store.
pub open spec fn spec_load(snapshot: Option<Seq<u8>>) -> Map<Seq<char>, AccountData> {
    match snapshot {
        Some(b) => match spec_decode(b) {
            Some(ps) => if unique_keys(ps) {
                map_of_pairs(ps)
            } else {
                Map::empty()
            },
            None => Map::empty(),
        },
        None => Map::empty(),
    }
}

/// A window of `b` known to hold `w` agrees with `w` on every sub-window.
proof fn lemma_sub_window(b: Seq<u8>, p: int, w: Seq<u8>, lo: int, hi: int)
    requires
        0 <= p,
        p + w.len() <= b.len(),
        b.subrange(p, p + w.len()) == w,
        0 <= lo <= hi <= w.len(),
    ensures
        b.subrange(p + lo, p + hi) == w.subrange(lo, hi),
{
    assert(b.subrange(p + lo, p + hi) =~= b.subrange(p, p + w.len()).subrange(lo, hi));
}

/// Decoding a 64-bit value from where one was encoded yields it back.
proof fn lemma_dec_u64_at(b: Seq<u8>, p: int, x: u64)
    requires
        0 <= p,
        p + 8 <= b.len(),
        b.subrange(p, p + 8) == spec_enc_u64(x),
    ensures
        spec_dec_u64(b, p) == Some((x, p + 8)),
{
    lemma_auto_spec_u64_to_from_le_bytes();
}

/// Decoding a string from where one was encoded yields it back.
proof fn lemma_dec_str_at(b: Seq<u8>, p: int, s: Seq<char>)
    requires
        0 <= p,
        encode_utf8(s).len() <= u64::MAX,
        p + spec_enc_str(s).len() <= b.len(),
        b.subrange(p, p + spec_enc_str(s).len()) == spec_enc_str(s),
    ensures
        spec_dec_str(b, p) == Some((s, p + spec_enc_str(s).len())),
{
    broadcast use encode_utf8_valid_utf8, encode_utf8_decode_utf8;

    lemma_auto_spec_u64_to_from_le_bytes();
    let u = encode_utf8(s);
    let n = u.len() as u64;
    let w = spec_enc_str(s);
    lemma_sub_window(b, p, w, 0, 8);
    assert(w.subrange(0, 8) =~= spec_enc_u64(n));
    lemma_dec_u64_at(b, p, n);
    lemma_sub_window(b, p, w, 8, w.len() as int);
    assert(w.subrange(8, w.len() as int) =~= u);
}

/// Decoding an entry from where one was encoded yields it back.
proof fn lemma_dec_pair_at(b: Seq<u8>, p: int, e: (Seq<char>, AccountData))
    requires
        0 <= p,
        e.1.owner.len() == 32,
        encode_utf8(e.0).len() <= u64::MAX,
        encode_utf8(e.1.latest_cid).len() <= u64::MAX,
        p + spec_enc_pair(e).len() <= b.len(),
        b.subrange(p, p + spec_enc_pair(e).len()) == spec_enc_pair(e),
    ensures
        spec_dec_pair(b, p) == Some((e, p + spec_enc_pair(e).len())),
{
    lemma_auto_spec_u64_to_from_le_bytes();
    let w = spec_enc_pair(e);
    let k = spec_enc_str(e.0);
    let c = spec_enc_str(e.1.latest_cid);
    let l1 = k.len() as int;
    let l2 = l1 + 32;
    let l3 = l2 + 8;
    let l4 = l3 + c.len();
    lemma_sub_window(b, p, w, 0, l1);
    assert(w.subrange(0, l1) =~= k);
    lemma_dec_str_at(b, p, e.0);
    lemma_sub_window(b, p, w, l1, l2);
    assert(w.subrange(l1, l2) =~= e.1.owner);
    lemma_sub_window(b, p, w, l2, l3);
    assert(w.subrange(l2, l3) =~= spec_enc_u64(e.1.cid_count));
    lemma_dec_u64_at(b, p + l2, e.1.cid_count);
    lemma_sub_window(b, p, w, l3, l4);
    assert(w.subrange(l3, l4) =~= c);
    lemma_dec_str_at(b, p + l3, e.1.latest_cid);
    assert(spec_dec_pair(b, p) == Some((e, p + l4)));
}

/// Decoding `n` entries from where `n` were encoded yields them back.
proof fn lemma_dec_pairs_at(b: Seq<u8>, p: int, ps: Seq<(Seq<char>, AccountData)>)
    requires
        0 <= p,
        encodable(ps),
        p + spec_enc_pairs(ps).len() <= b.len(),
        b.subrange(p, p + spec_enc_pairs(ps).len()) == spec_enc_pairs(ps),
    ensures
        spec_dec_pairs(b, p, ps.len()) == Some((ps, p + spec_enc_pairs(ps).len())),
    decreases ps.len(),
{
    if ps.len() > 0 {
        let e = ps[0];
        let g = spec_enc_pair(e);
        let rest = spec_enc_pairs(ps.drop_first());
        let w = spec_enc_pairs(ps);
        lemma_sub_window(b, p, w, 0, g.len() as int);
        assert(w.subrange(0, g.len() as int) =~= g);
        lemma_dec_pair_at(b, p, e);
        lemma_sub_window(b, p, w, g.len() as int, w.len() as int);
        assert(w.subrange(g.len() as int, w.len() as int) =~= rest);
        assert forall|i: int| 0 <= i < ps.drop_first().len() implies {
            &&& (#[trigger] ps.drop_first()[i]).1.owner.len() == 32
            &&& encode_utf8(ps.drop_first()[i].0).len() <= u64::MAX
            &&& encode_utf8(ps.drop_first()[i].1.latest_cid).len() <= u64::MAX
        } by {
            assert(ps.drop_first()[i] == ps[i + 1]);
        }
        lemma_dec_pairs_at(b, p + g.len(), ps.drop_first());
        assert(seq![e] + ps.drop_first() =~= ps);
    }
}

/// Round trip: a snapshot written by the encoder decodes to exactly the
/// entries it was written from.
pub proof fn lemma_encode_decode(ps: Seq<(Seq<char>, AccountData)>)
    requires
        encodable(ps),
    ensures
        spec_decode(spec_encode(ps)) == Some(ps),
{
    lemma_auto_spec_u64_to_from_le_bytes();
    let b = spec_encode(ps);
    let n = ps.len() as u64;
    assert(b.subrange(0, 8) =~= spec_enc_u64(n));
    lemma_dec_u64_at(b, 0, n);
    assert(b.subrange(8, b.len() as int) =~= spec_enc_pairs(ps));
    lemma_dec_pairs_at(b, 8, ps);
}

/// Relies on str::from_utf8: it succeeds exactly on valid UTF-8 and yields
/// the characters those bytes encode.
#[verifier::external_body]
fn bytes_to_str<'a>(v: &'a [u8]) -> (r: Option<&'a str>)
    ensures
        r is Some <==> valid_utf8(v@),
        r matches Some(s) ==> s@ == decode_utf8(v@),
{
    core::str::from_utf8(v).ok()
}

/// Reads a 64-bit little-endian value.
fn read_u64(b: &[u8], pos: usize) -> (r: Option<(u64, usize)>)
    ensures
        match r {
            Some(p) => spec_dec_u64(b@, pos as int) == Some((p.0, p.1 as int)) && p.1 <= b@.len(),
            None => spec_dec_u64(b@, pos as int) is None,
        },
{
    let len = b.len();
    if pos > len || len - pos < 8 {
        return None;
    }
    let chunk = slice_subrange(b, pos, pos + 8);
    let x = u64_from_le_bytes(chunk);
    Some((x, pos + 8))
}

/// Reads the 32 owner bytes.
fn read_owner(b: &[u8], pos: usize) -> (r: Option<([u8; 32], usize)>)
    ensures
        match r {
            Some(p) => spec_dec_owner(b@, pos as int) == Some((p.0@, p.1 as int)) && p.1
                <= b@.len(),
            None => spec_dec_owner(b@, pos as int) is None,
        },
{
    let len = b.len();
    if pos > len || len - pos < 32 {
        return None;
    }
    let mut arr: [u8; 32] = [0u8; 32];
    let mut j: usize = 0;
    while j < 32
        invariant
            pos + 32 <= b@.len(),
            b@.len() <= usize::MAX,
            j <= 32,
            arr@.take(j as int) == b@.subrange(pos as int, pos + j),
        decreases 32 - j,
    {
        let ghost arr0 = arr@;
        arr[j] = *slice_index_get(b, pos + j);
        proof {
            assert(arr@.take(j + 1 as int) =~= arr0.take(j as int).push(b@[pos + j]));
            assert(b@.subrange(pos as int, pos + j + 1) =~= b@.subrange(pos as int, pos + j).push(
                b@[pos + j],
            ));
        }
        j += 1;
    }
    proof {
        assert(arr@ =~= arr@.take(32));
    }
    Some((arr, pos + 32))
}

/// Reads a length-prefixed UTF-8 string.
fn read_str(b: &[u8], pos: usize) -> (r: Option<(String, usize)>)
    ensures
        match r {
            Some(p) => spec_dec_str(b@, pos as int) == Some((p.0@, p.1 as int)) && p.1
                <= b@.len(),
            None => spec_dec_str(b@, pos as int) is None,
        },
{
    let (n, p1) = match read_u64(b, pos) {
        Some(p) => p,
        None => {
            return None;
        },
    };
    let len = b.len();
    if n > (len - p1) as u64 {
        return None;
    }
    let n_us = n as usize;
    let chunk = slice_subrange(b, p1, p1 + n_us);
    let s = match bytes_to_str(chunk) {
        Some(s) => s,
        None => {
            return None;
        },
    };
    Some((s.to_owned(), p1 + n_us))
}

/// Reads one entry: key, owner, counter, latest CID.
fn read_entry(b: &[u8], pos: usize) -> (r: Option<(Entry, usize)>)
    ensures
        match r {
            Some(p) => spec_dec_pair(b@, pos as int) == Some(
                ((p.0.key@, p.0.account@), p.1 as int),
            ) && p.1 <= b@.len(),
            None => spec_dec_pair(b@, pos as int) is None,
        },
{
    let (key, p1) = match read_str(b, pos) {
        Some(p) => p,
        None => {
            return None;
        },
    };
    let (owner, p2) = match read_owner(b, p1) {
        Some(p) => p,
        None => {
            return None;
        },
    };
    let (count, p3) = match read_u64(b, p2) {
        Some(p) => p,
        None => {
            return None;
        },
    };
    let (cid, p4) = match read_str(b, p3) {
        Some(p) => p,
        None => {
            return None;
        },
    };
    let entry = Entry {
        key,
        account: CidAccount { owner: Pubkey(owner), cid_count: count, latest_cid: cid },
    };
    Some((entry, p4))
}

/// Parses a whole snapshot; yields the entries in snapshot order, or nothing
/// when the bytes are not exactly one whole encoding.
fn parse_snapshot(b: &[u8]) -> (r: Option<Vec<Entry>>)
    ensures
        match r {
            Some(v) => spec_decode(b@) == Some(pairs_of(v@)),
            None => spec_decode(b@) is None,
        },
{
    let (n, p_start) = match read_u64(b, 0) {
        Some(p) => p,
        None => {
            return None;
        },
    };
    let mut out: Vec<Entry> = Vec::new();
    let mut pos = p_start;
    let mut i: u64 = 0;
    proof {
        match spec_dec_pairs(b@, pos as int, n as nat) {
            Some(t) => {
                assert(pairs_of(out@) + t.0 =~= t.0);
            },
            None => {},
        }
    }
    while i < n
        invariant
            i <= n,
            pos <= b@.len(),
            spec_dec_u64(b@, 0) == Some((n, p_start as int)),
            match spec_dec_pairs(b@, pos as int, (n - i) as nat) {
                Some(t) => spec_dec_pairs(b@, p_start as int, n as nat) == Some(
                    (pairs_of(out@) + t.0, t.1),
                ),
                None => spec_dec_pairs(b@, p_start as int, n as nat) is None,
            },
        decreases n - i,
    {
        let (e, p2) = match read_entry(b, pos) {
            Some(p) => p,
            None => {
                return None;
            },
        };
        let ghost out0 = out@;
        out.push(e);
        proof {
            assert(pairs_of(out@) =~= pairs_of(out0).push((e.key@, e.account@)));
            match spec_dec_pairs(b@, p2 as int, (n - i - 1) as nat) {
                Some(t) => {
                    assert(pairs_of(out0) + (seq![(e.key@, e.account@)] + t.0) =~= pairs_of(out@)
                        + t.0);
                },
                None => {},
            }
        }
        pos = p2;
        i += 1;
    }
    if pos != b.len() {
        return None;
    }
    proof {
        assert(pairs_of(out@) + Seq::<(Seq<char>, AccountData)>::empty() =~= pairs_of(out@));
    }
    Some(out)
}

impl CidStorage {
    /// Serializes the whole store to its snapshot bytes. The encoding is
    /// total: serialization itself cannot fail, and what it writes, `load`
    /// reads back to a store with the same account set and field values.
    pub fn save(&self) -> (r: Vec<u8>)
        ensures
            r@ == spec_encode(pairs_of(self.accounts@)),
            self.wf() ==> spec_load(Some(r@)) == self@,
    {
        let ghost ps = pairs_of(self.accounts@);
        let n = self.accounts.len();
        let mut out: Vec<u8> = u64_to_le_bytes(n as u64);
        let mut i: usize = 0;
        proof {
            assert(ps.skip(0) =~= ps);
            assert(encodable(ps.take(0)));
        }
        while i < n
            invariant
                n == self.accounts@.len(),
                i <= n,
                ps == pairs_of(self.accounts@),
                out@ + spec_enc_pairs(ps.skip(i as int)) == spec_encode(ps),
                encodable(ps.take(i as int)),
            decreases n - i,
        {
            let ghost out0 = out@;
            let e = &self.accounts[i];
            let kb: &[u8] = e.key.as_str().as_bytes();
            let mut tmp = u64_to_le_bytes(kb.len() as u64);
            out.append(&mut tmp);
            out.extend_from_slice(kb);
            out.extend_from_slice(e.account.owner.0.as_slice());
            let mut tmp2 = u64_to_le_bytes(e.account.cid_count);
            out.append(&mut tmp2);
            let cb: &[u8] = e.account.latest_cid.as_str().as_bytes();
            let mut tmp3 = u64_to_le_bytes(cb.len() as u64);
            out.append(&mut tmp3);
            out.extend_from_slice(cb);
            proof {
                assert(kb@ == encode_utf8(e.key@));
                assert(cb@ == encode_utf8(e.account.latest_cid@));
                assert(ps[i as int] == (e.key@, e.account@));
                assert(out@ =~= out0 + spec_enc_pair(ps[i as int]));
                assert(ps.skip(i as int)[0] == ps[i as int]);
                assert(ps.skip(i as int).drop_first() =~= ps.skip(i + 1));
                assert(out@ + spec_enc_pairs(ps.skip(i + 1)) =~= (out0 + spec_enc_pairs(
                    ps.skip(i as int),
                )));
                assert(ps.take(i + 1 as int) =~= ps.take(i as int).push(ps[i as int]));
                assert forall|j: int| 0 <= j < i + 1 implies {
                    &&& (#[trigger] ps.take(i + 1 as int)[j]).1.owner.len() == 32
                    &&& encode_utf8(ps.take(i + 1 as int)[j].0).len() <= u64::MAX
                    &&& encode_utf8(ps.take(i + 1 as int)[j].1.latest_cid).len() <= u64::MAX
                } by {
                    if j < i {
                        assert(ps.take(i + 1 as int)[j] == ps.take(i as int)[j]);
                    }
                }
            }
            i += 1;
        }
        proof {
            assert(ps.take(n as int) =~= ps);
            assert(ps.skip(n as int) =~= Seq::<(Seq<char>, AccountData)>::empty());
            assert(out@ =~= out@ + spec_enc_pairs(ps.skip(n as int)));
            if self.wf() {
                lemma_save_load_round_trip(*self);
            }
        }
        out
    }

    /// Builds the store a snapshot stands for: the decoded accounts, or the
    /// empty store when there is no snapshot, it does not parse, or it
    /// repeats a key. Never an error.
    pub fn load(snapshot: Option<&[u8]>) -> (r: Self)
        ensures
            r.wf(),
            r@ == spec_load(
                match snapshot {
                    Some(b) => Some(b@),
                    None => None,
                },
            ),
    {
        let b = match snapshot {
            Some(b) => b,
            None => {
                return Self::new();
            },
        };
        let entries = match parse_snapshot(b) {
            Some(v) => v,
            None => {
                return Self::new();
            },
        };
        let ghost ps = pairs_of(entries@);
        let n = entries.len();
        let mut i: usize = 1;
        while i < n
            invariant
                n == entries@.len(),
                i >= 1,
                ps == pairs_of(entries@),
                snapshot == Some(b),
                spec_decode(b@) == Some(ps),
                forall|p: int, q: int|
                    0 <= p < q < i && q < n ==> entries@[p].key@ != entries@[q].key@,
            decreases n - i,
        {
            let mut j: usize = 0;
            while j < i
                invariant
                    n == entries@.len(),
                    j <= i < n,
                    ps == pairs_of(entries@),
                    snapshot == Some(b),
                    spec_decode(b@) == Some(ps),
                    forall|p: int, q: int|
                        0 <= p < q < i && q < n ==> entries@[p].key@ != entries@[q].key@,
                    forall|q: int| 0 <= q < j ==> entries@[q].key@ != entries@[i as int].key@,
                decreases i - j,
            {
                if entries[j].key == entries[i].key {
                    proof {
                        assert(ps[j as int].0 == ps[i as int].0);
                        assert(!unique_keys(ps));
                    }
                    return Self::new();
                }
                j += 1;
            }
            i += 1;
        }
        let s = CidStorage { accounts: entries };
        proof {
            assert(unique_keys(ps)) by {
                assert forall|p: int, q: int| 0 <= p < q < ps.len() implies ps[p].0 != ps[q].0 by {
                    assert(entries@[p].key@ != entries@[q].key@);
                }
            }
            assert(s.wf()) by {
                assert forall|p: int, q: int|
                    0 <= p < q < s.accounts@.len() implies s.accounts@[p].key@
                    != s.accounts@[q].key@ by {
                    assert(ps[p].0 != ps[q].0);
                }
            }
            lemma_map_of_pairs(s.accounts@);
        }
        s
    }
}

/// Round trip through the store: what `save` writes, `load` reads back to a
/// store with the same account set and field values.
pub proof fn lemma_save_load_round_trip(s: CidStorage)
    requires
        s.wf(),
        encodable(pairs_of(s.accounts@)),
    ensures
        spec_load(Some(spec_encode(pairs_of(s.accounts@)))) == s@,
{
    let ps = pairs_of(s.accounts@);
    lemma_encode_decode(ps);
    lemma_map_of_pairs(s.accounts@);
    assert(unique_keys(ps));
}

} // verus!
