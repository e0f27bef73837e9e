//! Hybrid logical timestamps and their canonical serialization.
//!
//! A timestamp is hashed through its canonical string — RFC 3339 UTC time,
//! a zero-padded uppercase hexadecimal counter, and the zero-padded origin
//! identifier, joined by `-` — so that replicas agree byte for byte on what
//! is hashed.

use vstd::prelude::*;
use vstd::string::StrSliceExecFns;
use vstd::string::StringExecFns;

use crate::MILLIS_LIMIT;
use crate::NODE_LIMIT;

verus! {

/// The RFC 3339 rendering of a UTC instant given in milliseconds since the
/// Unix epoch.
pub uninterp spec fn rfc3339_of(millis: u64) -> Seq<char>;

/// The 32-bit MurmurHash3 digest of a string.
pub uninterp spec fn murmur3_of(s: Seq<char>) -> u32;

/// Relies on chrono's `Utc.timestamp_millis_opt` and `DateTime::to_rfc3339`:
/// for an in-range number of milliseconds the former always returns a single
/// UTC instant, and the rendering of that instant is a function of the
/// millisecond value alone. For the admitted years the rendering is a
/// four-digit date, a time with at most nine sub-second digits, and the
/// fixed `+00:00` offset: at most 35 characters.
#[verifier::external_body]
fn rfc3339_millis(millis: u64) -> (r: String)
    requires
        millis < MILLIS_LIMIT,
    ensures
        r@ == rfc3339_of(millis),
        r@.len() <= 35,
{
    chrono::TimeZone::timestamp_millis_opt(&chrono::Utc, millis as i64).unwrap().to_rfc3339()
}

/// Relies on fasthash's `murmur3::hash32`: the digest is a function of the
/// string's bytes alone. The binding hands the byte length to C as an
/// `i32`, so the input must stay well below 2^31 bytes; a character is at
/// most four UTF-8 bytes, so the bound below keeps the cast exact. The C
/// code reads the input in native-endian 4-byte loads: replicas that
/// compare tries must share a byte order along with the hash function.
#[verifier::external_body]
fn murmur3_str(s: &str) -> (r: u32)
    requires
        s@.len() <= 0x1FFF_FFFF,
    ensures
        r == murmur3_of(s@),
{
    fasthash::murmur3::hash32(s)
}

/// The uppercase hexadecimal digit of a value below 16.
pub open spec fn hex_digit(d: nat) -> char {
    if d == 0 {
        '0'
    } else if d == 1 {
        '1'
    } else if d == 2 {
        '2'
    } else if d == 3 {
        '3'
    } else if d == 4 {
        '4'
    } else if d == 5 {
        '5'
    } else if d == 6 {
        '6'
    } else if d == 7 {
        '7'
    } else if d == 8 {
        '8'
    } else if d == 9 {
        '9'
    } else if d == 10 {
        'A'
    } else if d == 11 {
        'B'
    } else if d == 12 {
        'C'
    } else if d == 13 {
        'D'
    } else if d == 14 {
        'E'
    } else {
        'F'
    }
}

/// The shortest uppercase hexadecimal rendering of a number (a single `0`
/// for zero).
pub open spec fn hex_str(c: nat) -> Seq<char>
    decreases c,
{
    if c < 16 {
        seq![hex_digit(c)]
    } else {
        hex_str(c / 16).push(hex_digit(c % 16))
    }
}

/// 16 to the power of `n`.
pub open spec fn pow16(n: nat) -> nat
    decreases n,
{
    if n == 0 {
        1
    } else {
        16 * pow16((n - 1) as nat)
    }
}

proof fn lemma_pow16_u64()
    ensures
        pow16(16) > u64::MAX,
{
    reveal_with_fuel(pow16, 17);
}

proof fn lemma_hex_str_len(c: nat, k: nat)
    requires
        1 <= k,
        c < pow16(k),
    ensures
        hex_str(c).len() <= k,
    decreases k,
{
    if c >= 16 {
        assert(pow16(k) == 16 * pow16((k - 1) as nat));
        if k == 1 {
            assert(pow16(1) == 16);
            assert(false);
        }
        let q = c / 16;
        vstd::arithmetic::div_mod::lemma_fundamental_div_mod(c as int, 16);
        if q >= pow16((k - 1) as nat) {
            assert(c >= 16 * pow16((k - 1) as nat)) by (nonlinear_arith)
                requires
                    c == 16 * q + c % 16,
                    q >= pow16((k - 1) as nat),
                    c % 16 >= 0,
            ;
            assert(false);
        }
        lemma_hex_str_len(q, (k - 1) as nat);
    }
}

proof fn lemma_hex_str_len_u64(c: u64)
    ensures
        hex_str(c as nat).len() <= 16,
{
    lemma_pow16_u64();
    lemma_hex_str_len(c as nat, 16);
}

/// `s` left-padded with `0` characters to at least `n` characters.
pub open spec fn zero_pad(s: Seq<char>, n: nat) -> Seq<char> {
    if s.len() >= n {
        s
    } else {
        Seq::new((n - s.len()) as nat, |i: int| '0') + s
    }
}

/// The canonical string of a timestamp triple: RFC 3339 UTC time, the
/// counter in uppercase hexadecimal padded to at least four digits, and the
/// origin identifier padded to at least sixteen characters, joined by `-`.
/// The zero-padding makes origin identifiers that differ only in leading
/// `0` characters collide in the canonical string; origin names should not
/// lead with `0`.
pub open spec fn canonical_of(millis: u64, counter: u64, node: Seq<char>) -> Seq<char> {
    rfc3339_of(millis) + seq!['-'] + zero_pad(hex_str(counter as nat), 4) + seq!['-'] + zero_pad(
        node,
        16,
    )
}

fn push_hex_digit(s: &mut String, d: u64)
    requires
        d < 16,
    ensures
        final(s)@ == old(s)@.push(hex_digit(d as nat)),
{
    let digit: &str = if d == 0 {
        "0"
    } else if d == 1 {
        "1"
    } else if d == 2 {
        "2"
    } else if d == 3 {
        "3"
    } else if d == 4 {
        "4"
    } else if d == 5 {
        "5"
    } else if d == 6 {
        "6"
    } else if d == 7 {
        "7"
    } else if d == 8 {
        "8"
    } else if d == 9 {
        "9"
    } else if d == 10 {
        "A"
    } else if d == 11 {
        "B"
    } else if d == 12 {
        "C"
    } else if d == 13 {
        "D"
    } else if d == 14 {
        "E"
    } else {
        "F"
    };
    proof {
        reveal_strlit("0");
        reveal_strlit("1");
        reveal_strlit("2");
        reveal_strlit("3");
        reveal_strlit("4");
        reveal_strlit("5");
        reveal_strlit("6");
        reveal_strlit("7");
        reveal_strlit("8");
        reveal_strlit("9");
        reveal_strlit("A");
        reveal_strlit("B");
        reveal_strlit("C");
        reveal_strlit("D");
        reveal_strlit("E");
        reveal_strlit("F");
        assert(digit@ =~= seq![hex_digit(d as nat)]);
    }
    s.append(digit);
    proof {
        assert(final(s)@ =~= old(s)@.push(hex_digit(d as nat)));
    }
}

fn append_hex(s: &mut String, c: u64)
    ensures
        final(s)@ == old(s)@ + hex_str(c as nat),
    decreases c,
{
    if c < 16 {
        push_hex_digit(s, c);
        proof {
            assert(final(s)@ =~= old(s)@ + hex_str(c as nat));
        }
    } else {
        proof {
            assert(c / 16 < c) by (nonlinear_arith)
                requires
                    c >= 16,
            ;
        }
        append_hex(s, c / 16);
        push_hex_digit(s, c % 16);
        proof {
            assert((c as nat) / 16 == (c / 16) as nat);
            assert((c as nat) % 16 == (c % 16) as nat);
            assert(final(s)@ =~= old(s)@ + hex_str(c as nat));
        }
    }
}

fn append_zeros(s: &mut String, n: usize)
    ensures
        final(s)@ == old(s)@ + Seq::new(n as nat, |i: int| '0'),
{
    let mut k: usize = 0;
    while k < n
        invariant
            k <= n,
            s@ == old(s)@ + Seq::new(k as nat, |i: int| '0'),
        decreases n - k,
    {
        proof {
            reveal_strlit("0");
        }
        s.append("0");
        proof {
            assert(s@ =~= old(s)@ + Seq::new((k + 1) as nat, |i: int| '0'));
        }
        k += 1;
    }
    proof {
        assert(s@ =~= old(s)@ + Seq::new(n as nat, |i: int| '0'));
    }
}

/// A hybrid logical timestamp: wall-clock milliseconds, a counter that
/// disambiguates same-millisecond events, and the identifier of the node
/// that produced the event. Two timestamps are distinct items whenever any
/// field differs.
#[derive(Debug, PartialEq)]
pub struct Timestamp {
    /// Milliseconds since the Unix epoch.
    pub millis: u64,
    /// Monotonic counter distinguishing events in the same millisecond.
    pub counter: u64,
    /// Identifier of the originating node.
    pub node: String,
}

impl Timestamp {
    /// A timestamp at the given wall-clock time, with counter zero and an
    /// empty origin identifier.
    pub fn from_millis(millis: u64) -> (r: Self)
        ensures
            r.millis == millis,
            r.counter == 0,
            r.node@ == Seq::<char>::empty(),
    {
        Timestamp { millis, counter: 0, node: String::new() }
    }

    /// The canonical-string hash of this timestamp in spec terms.
    pub open spec fn hash_spec(self) -> u32 {
        murmur3_of(canonical_of(self.millis, self.counter, self.node@))
    }

    /// Builds the canonical string of this timestamp. The bound on `millis`
    /// keeps the instant inside the range chrono can represent; it is the
    /// same bound the key codec enforces.
    pub fn canonical_string(&self) -> (r: String)
        requires
            self.millis < MILLIS_LIMIT,
        ensures
            r@ == canonical_of(self.millis, self.counter, self.node@),
            r@.len() <= 69 + self.node@.len(),
    {
        let mut s = rfc3339_millis(self.millis);
        let ghost ts_part = s@;
        proof {
            reveal_strlit("-");
        }
        s.append("-");
        let mut hx = String::new();
        append_hex(&mut hx, self.counter);
        let hl = hx.as_str().unicode_len();
        if hl < 4 {
            append_zeros(&mut s, 4 - hl);
        }
        s.append(hx.as_str());
        proof {
            assert(s@ =~= ts_part + seq!['-'] + zero_pad(hex_str(self.counter as nat), 4));
        }
        let ghost mid = s@;
        s.append("-");
        let nl = self.node.as_str().unicode_len();
        if nl < 16 {
            append_zeros(&mut s, 16 - nl);
        }
        s.append(self.node.as_str());
        proof {
            assert(s@ =~= mid + seq!['-'] + zero_pad(self.node@, 16));
            assert(s@ =~= canonical_of(self.millis, self.counter, self.node@));
            lemma_hex_str_len_u64(self.counter);
            assert(zero_pad(hex_str(self.counter as nat), 4).len() <= 16);
            assert(zero_pad(self.node@, 16).len() <= 16 + self.node@.len());
        }
        s
    }

    /// The 32-bit hash of this timestamp's canonical string; this is the
    /// value the trie aggregates. The origin identifier is a bounded-length
    /// string: the bound keeps the canonical string inside the range the
    /// hash wrapper accepts.
    pub fn hash(&self) -> (r: u32)
        requires
            self.millis < MILLIS_LIMIT,
            self.node@.len() <= NODE_LIMIT,
        ensures
            r == self.hash_spec(),
    {
        let s = self.canonical_string();
        murmur3_str(s.as_str())
    }
}

} // verus!
