//! The fixed-length credential / account identifier and its string rendering.
//!
//! A `Pubkey` is an opaque 32-byte identifier. It is rendered to a string key
//! (a bracketed, comma-separated list of the bytes in decimal) for lookup in
//! the account store, and can be parsed back from exactly that rendering.

use vstd::prelude::*;

verus! {

use vstd::string::StringExecFns;

/// The character for a single decimal digit.
pub open spec fn spec_digit_char(d: int) -> char {
    if d == 0 {
        '0'
    } else if d == 1 {
        '1'
    } else if d == 2 {
        '2'
    } else if d == 3 {
        '3'
    } else if d == 4 {
        '4'
    } else if d == 5 {
        '5'
    } else if d == 6 {
        '6'
    } else if d == 7 {
        '7'
    } else if d == 8 {
        '8'
    } else {
        '9'
    }
}

/// A byte written in decimal, without leading zeros.
pub open spec fn spec_render_byte(v: u8) -> Seq<char> {
    if v >= 100 {
        seq![
            spec_digit_char(v as int / 100),
            spec_digit_char((v as int / 10) % 10),
            spec_digit_char(v as int % 10),
        ]
    } else if v >= 10 {
        seq![spec_digit_char(v as int / 10), spec_digit_char(v as int % 10)]
    } else {
        seq![spec_digit_char(v as int)]
    }
}

/// A byte sequence written in decimal, the bytes separated by a comma and a
/// space.
pub open spec fn spec_render_bytes(b: Seq<u8>) -> Seq<char>
    decreases b.len(),
{
    if b.len() == 0 {
        Seq::empty()
    } else if b.len() == 1 {
        spec_render_byte(b[0])
    } else {
        spec_render_byte(b[0]) + seq![',', ' '] + spec_render_bytes(b.drop_first())
    }
}

/// The string key under which an identifier is looked up in the account
/// store: its bytes in decimal, comma-separated, inside square brackets.
pub open spec fn spec_render_pubkey(b: Seq<u8>) -> Seq<char> {
    seq!['['] + spec_render_bytes(b) + seq![']']
}

/// Extending the rendered sequence by one byte appends a separator (unless
/// the sequence was empty) and that byte's rendering.
proof fn lemma_render_bytes_push(b: Seq<u8>, v: u8)
    ensures
        spec_render_bytes(b.push(v)) == if b.len() == 0 {
            spec_render_byte(v)
        } else {
            spec_render_bytes(b) + seq![',', ' '] + spec_render_byte(v)
        },
    decreases b.len(),
{
    let p = b.push(v);
    if b.len() == 0 {
        assert(p.len() == 1 && p[0] == v);
        assert(spec_render_bytes(p) =~= spec_render_byte(v));
    } else {
        assert(p.len() >= 2);
        assert(p[0] == b[0]);
        assert(p.drop_first() =~= b.drop_first().push(v));
        lemma_render_bytes_push(b.drop_first(), v);
        if b.len() == 1 {
            assert(b.drop_first().len() == 0);
            assert(spec_render_bytes(p) =~= spec_render_byte(b[0]) + seq![',', ' ']
                + spec_render_byte(v));
            assert(spec_render_bytes(b) =~= spec_render_byte(b[0]));
            assert(spec_render_bytes(b) + seq![',', ' '] + spec_render_byte(v)
                =~= spec_render_byte(b[0]) + seq![',', ' '] + spec_render_byte(v));
        } else {
            assert(spec_render_bytes(p) =~= spec_render_byte(b[0]) + seq![',', ' ']
                + (spec_render_bytes(b.drop_first()) + seq![',', ' '] + spec_render_byte(v)));
            assert(spec_render_bytes(b) + seq![',', ' '] + spec_render_byte(v)
                =~= spec_render_byte(b[0]) + seq![',', ' ']
                + (spec_render_bytes(b.drop_first()) + seq![',', ' '] + spec_render_byte(v)));
        }
    }
}

/// Whether a character is a decimal digit.
pub open spec fn spec_is_digit(c: char) -> bool {
    c == '0' || c == '1' || c == '2' || c == '3' || c == '4' || c == '5' || c == '6' || c == '7'
        || c == '8' || c == '9'
}

/// The rendering of the byte groups from index `k` on, with the separator
/// that precedes each group but the first.
pub open spec fn spec_render_tail(b: Seq<u8>, k: int) -> Seq<char>
    decreases b.len() - k,
{
    if k < 0 || k >= b.len() {
        Seq::empty()
    } else {
        (if k > 0 {
            seq![',', ' ']
        } else {
            Seq::empty()
        }) + spec_render_byte(b[k]) + spec_render_tail(b, k + 1)
    }
}

/// The whole rendering splits, after any `k` leading groups, into the
/// rendering of those groups and the tail from `k` on.
proof fn lemma_render_split(b: Seq<u8>, k: int)
    requires
        0 <= k <= b.len(),
    ensures
        spec_render_bytes(b) == spec_render_bytes(b.take(k)) + spec_render_tail(b, k),
    decreases b.len() - k,
{
    if k == b.len() {
        assert(b.take(k) =~= b);
        assert(spec_render_bytes(b) =~= spec_render_bytes(b.take(k)) + spec_render_tail(b, k));
    } else {
        lemma_render_split(b, k + 1);
        lemma_render_bytes_push(b.take(k), b[k]);
        assert(b.take(k + 1) =~= b.take(k).push(b[k]));
        if k == 0 {
            assert(spec_render_bytes(b.take(k)) + spec_render_tail(b, k)
                =~= spec_render_bytes(b.take(k + 1)) + spec_render_tail(b, k + 1));
        } else {
            assert(spec_render_bytes(b.take(k)) + spec_render_tail(b, k)
                =~= spec_render_bytes(b.take(k + 1)) + spec_render_tail(b, k + 1));
        }
    }
}

/// A canonical byte group `w` stands in `t` at position `p`, followed by the
/// end of `t` or by something that is not a digit.
pub open spec fn spec_group_at(t: Seq<char>, p: int, w: u8) -> bool {
    let g = spec_render_byte(w);
    &&& 0 <= p
    &&& p + g.len() <= t.len()
    &&& t.subrange(p, p + g.len()) == g
    &&& (p + g.len() == t.len() || !spec_is_digit(t[p + g.len()]))
}

/// Maps a decimal digit character back to its value.
fn char_digit(c: char) -> (r: Option<u8>)
    ensures
        match r {
            Some(d) => d < 10 && spec_digit_char(d as int) == c,
            None => !spec_is_digit(c),
        },
{
    if c == '0' {
        Some(0)
    } else if c == '1' {
        Some(1)
    } else if c == '2' {
        Some(2)
    } else if c == '3' {
        Some(3)
    } else if c == '4' {
        Some(4)
    } else if c == '5' {
        Some(5)
    } else if c == '6' {
        Some(6)
    } else if c == '7' {
        Some(7)
    } else if c == '8' {
        Some(8)
    } else if c == '9' {
        Some(9)
    } else {
        None
    }
}

/// Parses one canonical decimal byte group starting at `pos`: one to three
/// digits, no leading zero, value at most 255, read greedily.
#[verifier::rlimit(50)]
fn parse_byte(s: &str, pos: usize) -> (r: Option<(u8, usize)>)
    ensures
        match r {
            Some(p) => pos < p.1 <= s@.len() && s@.subrange(pos as int, p.1 as int)
                == spec_render_byte(p.0),
            None => true,
        },
        forall|w: u8|
            spec_group_at(s@, pos as int, w) ==> r == Some(
                (w, (pos + spec_render_byte(w).len()) as usize),
            ),
{
    let len = s.unicode_len();
    if pos >= len {
        assert forall|w: u8| !spec_group_at(s@, pos as int, w) by {
            assert(spec_render_byte(w).len() >= 1);
        }
        return None;
    }
    let c0 = s.get_char(pos);
    let d0 = match char_digit(c0) {
        Some(d) => d,
        None => {
            assert forall|w: u8| !spec_group_at(s@, pos as int, w) by {
                if spec_group_at(s@, pos as int, w) {
                    assert(s@[pos as int] == spec_render_byte(w)[0]);
                }
            }
            return None;
        },
    };
    if d0 == 0 {
        assert(s@.subrange(pos as int, pos + 1) =~= spec_render_byte(0));
        assert forall|w: u8| spec_group_at(s@, pos as int, w) implies w == 0 by {
            assert(s@[pos as int] == spec_render_byte(w)[0]);
        }
        return Some((0, pos + 1));
    }
    assert(s@.subrange(pos as int, pos + 1) =~= spec_render_byte(d0));
    if pos + 1 >= len {
        assert forall|w: u8| spec_group_at(s@, pos as int, w) implies w == d0 by {
            if w >= 10 {
                assert(spec_render_byte(w).len() >= 2);
            } else {
                assert(s@[pos as int] == spec_render_byte(w)[0]);
            }
        }
        return Some((d0, pos + 1));
    }
    let d1 = match char_digit(s.get_char(pos + 1)) {
        Some(d) => d,
        None => {
            // a single digit, followed by something that is no digit
            assert forall|w: u8| spec_group_at(s@, pos as int, w) implies w == d0 by {
                if w >= 10 {
                    assert(s@[pos as int] == spec_render_byte(w)[0]);
                    assert(s@[pos + 1] == spec_render_byte(w)[1]);
                } else {
                    assert(s@[pos as int] == spec_render_byte(w)[0]);
                }
            }
            return Some((d0, pos + 1));
        },
    };
    let v2: u8 = 10 * d0 + d1;
    assert(v2 as int / 10 == d0 && v2 as int % 10 == d1) by (nonlinear_arith)
        requires
            v2 == 10 * d0 + d1,
            1 <= d0 < 10,
            0 <= d1 < 10,
    ;
    assert(s@.subrange(pos as int, pos + 2) =~= spec_render_byte(v2));
    if pos + 2 >= len {
        assert forall|w: u8| spec_group_at(s@, pos as int, w) implies w == v2 by {
            if w < 10 {
                assert(spec_is_digit(s@[pos + 1]));
            } else if w < 100 {
                assert(s@[pos as int] == spec_render_byte(w)[0]);
                assert(s@[pos + 1] == spec_render_byte(w)[1]);
                assert(w == v2) by (nonlinear_arith)
                    requires
                        w as int / 10 == d0,
                        w as int % 10 == d1,
                        v2 == 10 * d0 + d1,
                        10 <= w < 100,
                ;
            } else {
                assert(spec_render_byte(w).len() == 3);
            }
        }
        return Some((v2, pos + 2));
    }
    let d2 = match char_digit(s.get_char(pos + 2)) {
        Some(d) => d,
        None => {
            // two digits, followed by something that is no digit
            assert forall|w: u8| spec_group_at(s@, pos as int, w) implies w == v2 by {
                if w < 10 {
                    assert(spec_is_digit(s@[pos + 1]));
                } else if w < 100 {
                    assert(s@[pos as int] == spec_render_byte(w)[0]);
                    assert(s@[pos + 1] == spec_render_byte(w)[1]);
                    assert(w == v2) by (nonlinear_arith)
                        requires
                            w as int / 10 == d0,
                            w as int % 10 == d1,
                            v2 == 10 * d0 + d1,
                            10 <= w < 100,
                    ;
                } else {
                    assert(s@[pos as int] == spec_render_byte(w)[0]);
                    assert(s@[pos + 1] == spec_render_byte(w)[1]);
                    assert(spec_is_digit(s@[pos + 2]));
                }
            }
            return Some((v2, pos + 2));
        },
    };
    let big: u32 = 100 * (d0 as u32) + 10 * (d1 as u32) + (d2 as u32);
    if big > 255 {
        assert forall|w: u8| !spec_group_at(s@, pos as int, w) by {
            if spec_group_at(s@, pos as int, w) {
                if w >= 100 {
                    assert(s@[pos as int] == spec_render_byte(w)[0]);
                    assert(s@[pos + 1] == spec_render_byte(w)[1]);
                    assert(s@[pos + 2] == spec_render_byte(w)[2]);
                    assert(w as int / 100 == d0 && (w as int / 10) % 10 == d1 && w as int % 10
                        == d2);
                    assert(w == big) by (nonlinear_arith)
                        requires
                            w as int / 100 == d0,
                            (w as int / 10) % 10 == d1,
                            w as int % 10 == d2,
                            big == 100 * d0 + 10 * d1 + d2,
                            0 <= w < 256,
                    ;
                } else if w >= 10 {
                    assert(s@[pos as int] == spec_render_byte(w)[0]);
                    assert(s@[pos + 1] == spec_render_byte(w)[1]);
                    assert(spec_is_digit(s@[pos + 2]));
                } else {
                    assert(spec_is_digit(s@[pos + 1]));
                }
            }
        }
        return None;
    }
    let v3: u8 = big as u8;
    assert(v3 >= 100) by (nonlinear_arith)
        requires
            v3 == 100 * d0 + 10 * d1 + d2,
            d0 >= 1,
            0 <= d1,
            0 <= d2,
    ;
    assert(v3 as int / 100 == d0 && (v3 as int / 10) % 10 == d1 && v3 as int % 10 == d2)
        by (nonlinear_arith)
        requires
            v3 == 100 * d0 + 10 * d1 + d2,
            1 <= d0 < 10,
            0 <= d1 < 10,
            0 <= d2 < 10,
    ;
    assert(s@.subrange(pos as int, pos + 3) =~= spec_render_byte(v3));
    assert forall|w: u8| spec_group_at(s@, pos as int, w) implies w == v3 by {
        if w < 10 {
            assert(spec_is_digit(s@[pos + 1]));
        } else if w < 100 {
            assert(s@[pos as int] == spec_render_byte(w)[0]);
            assert(s@[pos + 1] == spec_render_byte(w)[1]);
            assert(spec_is_digit(s@[pos + 2]));
        } else {
            assert(s@[pos as int] == spec_render_byte(w)[0]);
            assert(s@[pos + 1] == spec_render_byte(w)[1]);
            assert(s@[pos + 2] == spec_render_byte(w)[2]);
            assert(w as int / 100 == d0 && (w as int / 10) % 10 == d1 && w as int % 10 == d2);
            assert(w == v3) by (nonlinear_arith)
                requires
                    w as int / 100 == d0,
                    (w as int / 10) % 10 == d1,
                    w as int % 10 == d2,
                    v3 as int / 100 == d0,
                    (v3 as int / 10) % 10 == d1,
                    v3 as int % 10 == d2,
            ;
        }
    }
    return Some((v3, pos + 3));
}


/// Appends one decimal digit character to a string.
fn append_digit(out: &mut String, d: u8)
    requires
        d < 10,
    ensures
        final(out)@ == old(out)@ + seq![spec_digit_char(d as int)],
{
    proof {
        reveal_strlit("0");
        reveal_strlit("1");
        reveal_strlit("2");
        reveal_strlit("3");
        reveal_strlit("4");
        reveal_strlit("5");
        reveal_strlit("6");
        reveal_strlit("7");
        reveal_strlit("8");
        reveal_strlit("9");
    }
    if d == 0 {
        out.append("0");
        assert(out@ =~= old(out)@ + seq![spec_digit_char(d as int)]);
    } else if d == 1 {
        out.append("1");
        assert(out@ =~= old(out)@ + seq![spec_digit_char(d as int)]);
    } else if d == 2 {
        out.append("2");
        assert(out@ =~= old(out)@ + seq![spec_digit_char(d as int)]);
    } else if d == 3 {
        out.append("3");
        assert(out@ =~= old(out)@ + seq![spec_digit_char(d as int)]);
    } else if d == 4 {
        out.append("4");
        assert(out@ =~= old(out)@ + seq![spec_digit_char(d as int)]);
    } else if d == 5 {
        out.append("5");
        assert(out@ =~= old(out)@ + seq![spec_digit_char(d as int)]);
    } else if d == 6 {
        out.append("6");
        assert(out@ =~= old(out)@ + seq![spec_digit_char(d as int)]);
    } else if d == 7 {
        out.append("7");
        assert(out@ =~= old(out)@ + seq![spec_digit_char(d as int)]);
    } else if d == 8 {
        out.append("8");
        assert(out@ =~= old(out)@ + seq![spec_digit_char(d as int)]);
    } else {
        out.append("9");
        assert(out@ =~= old(out)@ + seq![spec_digit_char(d as int)]);
    }
}

/// Appends a byte's decimal rendering to a string.
fn append_byte_decimal(out: &mut String, v: u8)
    ensures
        final(out)@ == old(out)@ + spec_render_byte(v),
{
    if v >= 100 {
        append_digit(out, v / 100);
        append_digit(out, (v / 10) % 10);
        append_digit(out, v % 10);
        assert(out@ =~= old(out)@ + spec_render_byte(v));
    } else if v >= 10 {
        append_digit(out, v / 10);
        append_digit(out, v % 10);
        assert(out@ =~= old(out)@ + spec_render_byte(v));
    } else {
        append_digit(out, v);
        assert(out@ =~= old(out)@ + spec_render_byte(v));
    }
}

/// An opaque fixed-length identifier: an account address or an owner
/// credential. Compared for equality only; no cryptography happens here.
#[derive(Debug, Clone)]
pub struct Pubkey(pub [u8; 32]);

impl View for Pubkey {
    type V = Seq<u8>;

    open spec fn view(&self) -> Seq<u8> {
        self.0@
    }
}

impl PartialEq for Pubkey {
    fn eq(&self, other: &Pubkey) -> (r: bool) {
        let mut i: usize = 0;
        while i < 32
            invariant
                i <= 32,
                forall|j: int| 0 <= j < i ==> self.0@[j] == other.0@[j],
            decreases 32 - i,
        {
            if self.0[i] != other.0[i] {
                assert(self@ != other@);
                return false;
            }
            i += 1;
        }
        assert(self@ =~= other@);
        true
    }
}

impl vstd::std_specs::cmp::PartialEqSpecImpl for Pubkey {
    open spec fn obeys_eq_spec() -> bool {
        true
    }

    open spec fn eq_spec(&self, other: &Pubkey) -> bool {
        self@ == other@
    }
}

impl Pubkey {
    pub fn new(bytes: [u8; 32]) -> (r: Self)
        ensures
            r@ == bytes@,
    {
        Self(bytes)
    }

    /// Renders the identifier to its string key, e.g. `[7, 0, 255, ...]`.
    pub fn to_string(&self) -> (r: String)
        ensures
            r@ == spec_render_pubkey(self@),
    {
        proof {
            reveal_strlit("[");
            reveal_strlit("]");
            reveal_strlit(", ");
        }
        let mut out = "[".to_owned();
        assert(out@ =~= seq!['[']);
        let mut i: usize = 0;
        while i < 32
            invariant
                i <= 32,
                out@ == seq!['['] + spec_render_bytes(self.0@.take(i as int)),
            decreases 32 - i,
        {
            proof {
                reveal_strlit(", ");
            }
            if i > 0 {
                out.append(", ");
            }
            append_byte_decimal(&mut out, self.0[i]);
            proof {
                lemma_render_bytes_push(self.0@.take(i as int), self.0@[i as int]);
                assert(self.0@.take(i + 1) =~= self.0@.take(i as int).push(self.0@[i as int]));
                if i > 0 {
                    assert(out@ =~= seq!['['] + (spec_render_bytes(self.0@.take(i as int))
                        + seq![',', ' '] + spec_render_byte(self.0@[i as int])));
                } else {
                    assert(out@ =~= seq!['['] + spec_render_byte(self.0@[0]));
                }
            }
            i += 1;
        }
        out.append("]");
        proof {
            assert(self.0@.take(32) =~= self.0@);
            assert(out@ =~= spec_render_pubkey(self@));
        }
        out
    }

    /// Parses an identifier back from its string key. Exactly the strings
    /// that `to_string` produces are accepted; every other string is
    /// rejected.
    #[verifier::rlimit(100)]
    pub fn from_string(s: &str) -> (r: Result<Self, &'static str>)
        ensures
            r matches Ok(pk) ==> s@ == spec_render_pubkey(pk@),
            forall|b: Seq<u8>|
                b.len() == 32 && s@ == spec_render_pubkey(b) ==> (r matches Ok(pk) && pk@ == b),
    {
        let len = s.unicode_len();
        if len == 0 || s.get_char(0) != '[' {
            assert forall|b: Seq<u8>| !(b.len() == 32 && s@ == spec_render_pubkey(b)) by {
                if b.len() == 32 && s@ == spec_render_pubkey(b) {
                    assert(s@[0] == '[');
                }
            }
            return Err("Invalid public key string");
        }
        let mut arr: [u8; 32] = [0u8; 32];
        let mut pos: usize = 1;
        let mut k: usize = 0;
        proof {
            assert(s@.subrange(1, 1) =~= spec_render_bytes(arr@.take(0)));
        }
        while k < 32
            invariant
                k <= 32,
                1 <= pos <= s@.len(),
                len == s@.len(),
                s@.subrange(1, pos as int) == spec_render_bytes(arr@.take(k as int)),
                forall|b: Seq<u8>|
                    b.len() == 32 && s@ == spec_render_pubkey(b) ==> arr@.take(k as int)
                        == b.take(k as int) && pos == 1 + spec_render_bytes(
                        b.take(k as int),
                    ).len(),
            decreases 32 - k,
        {
            let ghost pos0: int = pos as int;
            if k > 0 {
                if pos >= len || pos + 1 >= len {
                    assert forall|b: Seq<u8>| !(b.len() == 32 && s@ == spec_render_pubkey(b)) by {
                        if b.len() == 32 && s@ == spec_render_pubkey(b) {
                            lemma_render_split(b, k as int);
                            assert(spec_render_tail(b, k as int).len() >= 3);
                        }
                    }
                    return Err("Invalid public key string");
                }
                let c = s.get_char(pos);
                let c2 = s.get_char(pos + 1);
                if c != ',' || c2 != ' ' {
                    assert forall|b: Seq<u8>| !(b.len() == 32 && s@ == spec_render_pubkey(b)) by {
                        if b.len() == 32 && s@ == spec_render_pubkey(b) {
                            lemma_render_split(b, k as int);
                            assert(s@[pos0] == ',' && s@[pos0 + 1] == ' ');
                        }
                    }
                    return Err("Invalid public key string");
                }
                pos += 2;
            }
            let parsed = parse_byte(s, pos);
            proof {
                assert forall|b: Seq<u8>| b.len() == 32 && s@ == spec_render_pubkey(b) implies {
                    let g = spec_render_byte(b[k as int]);
                    &&& spec_group_at(s@, pos as int, b[k as int])
                    &&& pos + g.len() <= s@.len()
                } by {
                    lemma_render_split(b, k as int);
                    lemma_render_split(b, k as int + 1);
                    lemma_render_bytes_push(b.take(k as int), b[k as int]);
                    assert(b.take(k as int + 1) =~= b.take(k as int).push(b[k as int]));
                    let g = spec_render_byte(b[k as int]);
                    assert(s@.subrange(pos as int, pos + g.len()) =~= g);
                    if k as int + 1 < 32 {
                        assert(s@[pos + g.len()] == ',');
                    } else {
                        assert(pos + g.len() == s@.len() - 1);
                        assert(s@[pos + g.len()] == ']');
                    }
                }
            }
            let (v, npos) = match parsed {
                Some(p) => p,
                None => {
                    return Err("Invalid public key string");
                },
            };
            proof {
                if k > 0 {
                    assert(s@.subrange(1, npos as int) =~= s@.subrange(1, pos0) + seq![',', ' ']
                        + s@.subrange(pos as int, npos as int));
                    lemma_render_bytes_push(arr@.take(k as int), v);
                } else {
                    assert(s@.subrange(1, npos as int) =~= s@.subrange(1, pos0) + s@.subrange(
                        pos as int,
                        npos as int,
                    ));
                    lemma_render_bytes_push(arr@.take(k as int), v);
                }
            }
            let ghost arr0 = arr@;
            arr[k] = v;
            proof {
                assert(arr@.take(k as int) =~= arr0.take(k as int));
                assert(arr@.take(k + 1 as int) =~= arr0.take(k as int).push(v));
                assert forall|b: Seq<u8>|
                    b.len() == 32 && s@ == spec_render_pubkey(b) implies arr@.take(k + 1 as int)
                    == b.take(k + 1 as int) && npos == 1 + spec_render_bytes(
                    b.take(k + 1 as int),
                ).len() by {
                    assert(spec_group_at(s@, pos as int, b[k as int]));
                    assert(v == b[k as int]);
                    assert(b.take(k + 1 as int) =~= b.take(k as int).push(b[k as int]));
                    lemma_render_bytes_push(b.take(k as int), b[k as int]);
                }
            }
            pos = npos;
            k += 1;
        }
        if pos >= len || s.get_char(pos) != ']' || pos + 1 != len {
            assert forall|b: Seq<u8>| !(b.len() == 32 && s@ == spec_render_pubkey(b)) by {
                if b.len() == 32 && s@ == spec_render_pubkey(b) {
                    lemma_render_split(b, 32);
                    assert(b.take(32) =~= b);
                    assert(s@[pos as int] == ']');
                }
            }
            return Err("Invalid public key string");
        }
        let pk = Pubkey(arr);
        proof {
            assert(arr@.take(32) =~= arr@);
            assert(s@ =~= spec_render_pubkey(arr@));
            assert forall|b: Seq<u8>| b.len() == 32 && s@ == spec_render_pubkey(b) implies arr@
                == b by {
                assert(b.take(32) =~= b);
            }
        }
        Ok(pk)
    }
}

} // verus!
