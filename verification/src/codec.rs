//! Key codec: conversion between a timestamp's minute bucket and the
//! fixed-length base-3 digit path that addresses the trie.

use vstd::arithmetic::div_mod::lemma_basic_div;
use vstd::arithmetic::div_mod::lemma_div_denominator;
use vstd::arithmetic::div_mod::lemma_fundamental_div_mod;
use vstd::prelude::*;

use crate::BUCKET_MILLIS;
use crate::KEY_LEN;
use crate::NUM_BUCKETS;

verus! {

/// Errors surfaced by the key codec.
#[derive(Debug, Clone, Copy, PartialEq, Eq, Structural)]
pub enum CodecError {
    /// The minute bucket does not fit in `KEY_LEN` base-3 digits.
    OutOfRange,
    /// A digit string with a character outside {0, 1, 2}, or one longer
    /// than `KEY_LEN` digits.
    MalformedKey,
}

/// 3 to the power of `n`.
pub open spec fn pow3(n: nat) -> nat
    decreases n,
{
    if n == 0 {
        1
    } else {
        3 * pow3((n - 1) as nat)
    }
}

/// `pow3` is monotonic.
pub proof fn lemma_pow3_mono(a: nat, b: nat)
    requires
        a <= b,
    ensures
        pow3(a) <= pow3(b),
    decreases b,
{
    if a < b {
        lemma_pow3_mono(a, (b - 1) as nat);
    }
}

/// The constant `NUM_BUCKETS` is `pow3(KEY_LEN)`.
pub proof fn lemma_pow3_key_len()
    ensures
        pow3(KEY_LEN as nat) == NUM_BUCKETS,
{
    reveal_with_fuel(pow3, 17);
}

/// The minute bucket of a wall-clock time in milliseconds.
pub open spec fn bucket_of(millis: u64) -> nat {
    (millis as nat) / (BUCKET_MILLIS as nat)
}

/// A well-formed key path: exactly `KEY_LEN` digits, each in {0, 1, 2}.
pub open spec fn wf_key(s: Seq<u8>) -> bool {
    &&& s.len() == KEY_LEN
    &&& forall|i: int| 0 <= i < s.len() ==> s[i] < 3
}

/// The `KEY_LEN`-digit base-3 encoding of a bucket, most significant digit
/// first, left-padded with zeros.
pub open spec fn bucket_key(b: nat) -> Seq<u8> {
    Seq::new(KEY_LEN as nat, |i: int| ((b / pow3((KEY_LEN - 1 - i) as nat)) % 3) as u8)
}

/// The numeric value of a base-3 digit sequence, most significant digit
/// first.
pub open spec fn key_value(s: Seq<u8>) -> nat
    decreases s.len(),
{
    if s.len() == 0 {
        0
    } else {
        key_value(s.drop_last()) * 3 + s.last() as nat
    }
}

/// Every digit of `bucket_key` is below 3, and there are `KEY_LEN` of them:
/// the encoded path is always well formed, whatever the bucket.
pub proof fn lemma_bucket_key_wf(b: nat)
    ensures
        wf_key(bucket_key(b)),
{
    assert forall|i: int| 0 <= i < bucket_key(b).len() implies bucket_key(b)[i] < 3 by {
        let e = (KEY_LEN - 1 - i) as nat;
        assert(pow3(e) > 0) by {
            lemma_pow3_mono(0, e);
        }
        assert((b / pow3(e)) % 3 < 3) by (nonlinear_arith)
            requires
                pow3(e) > 0,
        ;
    }
}

proof fn lemma_bucket_key_prefix_value(b: nat, j: int)
    requires
        b < pow3(KEY_LEN as nat),
        0 <= j <= KEY_LEN,
    ensures
        key_value(bucket_key(b).take(j)) == b / pow3((KEY_LEN - j) as nat),
    decreases j,
{
    let k = bucket_key(b);
    if j == 0 {
        assert(k.take(0).len() == 0);
        assert(pow3((KEY_LEN - 0) as nat) == pow3(KEY_LEN as nat));
        lemma_basic_div(b as int, pow3(KEY_LEN as nat) as int);
    } else {
        lemma_bucket_key_prefix_value(b, j - 1);
        let lo = (KEY_LEN - j) as nat;
        let hi = (KEY_LEN - (j - 1)) as nat;
        let q = b / pow3(lo);
        assert(k.take(j).drop_last() =~= k.take(j - 1));
        assert(k.take(j).last() == k[j - 1]);
        assert(k[j - 1] == ((b / pow3(lo)) % 3) as u8);
        // q / 3 equals b divided by the next larger power.
        assert(pow3(lo) > 0) by {
            lemma_pow3_mono(0, lo);
        }
        lemma_div_denominator(b as int, pow3(lo) as int, 3);
        assert(pow3(hi) == 3 * pow3(lo));
        assert(pow3(lo) as int * 3 == pow3(hi) as int) by (nonlinear_arith)
            requires
                pow3(hi) == 3 * pow3(lo),
        ;
        assert((q as int) / 3 == (b as int) / (pow3(hi) as int));
        lemma_fundamental_div_mod(q as int, 3);
        assert(key_value(k.take(j)) == key_value(k.take(j - 1)) * 3 + k[j - 1]);
        assert(key_value(k.take(j)) == (q / 3) * 3 + q % 3);
    }
}

/// Lossy round trip at the level of the key path: decoding the path encoded
/// from an in-range bucket recovers that bucket exactly.
pub proof fn lemma_bucket_key_value(b: nat)
    requires
        b < pow3(KEY_LEN as nat),
    ensures
        key_value(bucket_key(b)) == b,
{
    lemma_bucket_key_prefix_value(b, KEY_LEN as int);
    assert(bucket_key(b).take(KEY_LEN as int) =~= bucket_key(b));
    assert(pow3((KEY_LEN - KEY_LEN) as nat) == 1);
}

/// Lossy round trip: for any `millis` whose bucket is addressable, decoding
/// the key encoded from `millis` yields the minute floor of `millis` —
/// `(millis / BUCKET_MILLIS) * BUCKET_MILLIS` — not `millis` itself.
pub proof fn lemma_round_trip(millis: u64)
    requires
        bucket_of(millis) < pow3(KEY_LEN as nat),
    ensures
        key_value(bucket_key(bucket_of(millis))) * (BUCKET_MILLIS as nat) == (millis / BUCKET_MILLIS) as nat
            * (BUCKET_MILLIS as nat),
{
    lemma_bucket_key_value(bucket_of(millis));
}

/// A trie key: at most `KEY_LEN` base-3 digits, most significant first.
/// A freshly encoded key has exactly `KEY_LEN` digits; `pop_front` shortens
/// it as the trie descends.
#[derive(Debug, PartialEq, Eq)]
pub struct Key {
    digits: Vec<u8>,
}

impl View for Key {
    type V = Seq<u8>;

    closed spec fn view(&self) -> Seq<u8> {
        self.digits@
    }
}

impl Key {
    #[verifier::type_invariant]
    spec fn well_formed(self) -> bool {
        &&& self.digits@.len() <= KEY_LEN
        &&& forall|i: int| 0 <= i < self.digits@.len() ==> self.digits@[i] < 3
    }

    /// Encodes a wall-clock time as the base-3 path of its minute bucket,
    /// left-padded with zeros to exactly `KEY_LEN` digits. Fails with
    /// `OutOfRange` exactly when the bucket does not fit in `KEY_LEN` base-3
    /// digits.
    pub fn from_millis(millis: u64) -> (r: Result<Key, CodecError>)
        ensures
            r is Ok <==> bucket_of(millis) < pow3(KEY_LEN as nat),
            r matches Ok(k) ==> k@ == bucket_key(bucket_of(millis)) && wf_key(k@),
            r matches Err(e) ==> e == CodecError::OutOfRange,
    {
        proof {
            lemma_pow3_key_len();
        }
        let bucket = millis / BUCKET_MILLIS;
        if bucket >= NUM_BUCKETS {
            return Err(CodecError::OutOfRange);
        }
        let mut digits: Vec<u8> = Vec::new();
        let mut i: usize = 0;
        while i < KEY_LEN
            invariant
                i <= KEY_LEN,
                bucket == bucket_of(millis),
                digits@.len() == i,
                forall|j: int| 0 <= j < i ==> digits@[j] == bucket_key(bucket as nat)[j],
            decreases KEY_LEN - i,
        {
            let p = pow3_exec(KEY_LEN - 1 - i);
            let d = ((bucket / p) % 3) as u8;
            proof {
                assert(bucket_key(bucket as nat)[i as int] == ((bucket as nat / pow3(
                    (KEY_LEN - 1 - i) as nat,
                )) % 3) as u8);
            }
            digits.push(d);
            i += 1;
        }
        proof {
            lemma_bucket_key_wf(bucket as nat);
            assert(digits@ =~= bucket_key(bucket as nat));
        }
        Ok(Key { digits })
    }

    /// Decodes the key back to milliseconds: the digit sequence read as a
    /// base-3 number, times the bucket width. Sub-minute precision is lost
    /// by design. Only a full-length key decodes: handing over one that was
    /// partially consumed by `pop_front` is a programming error, in line
    /// with the fail-fast stance on wrong-length keys.
    pub fn to_millis(self) -> (r: u64)
        requires
            self@.len() == KEY_LEN,
        ensures
            r as nat == key_value(self@) * (BUCKET_MILLIS as nat),
    {
        proof {
            use_type_invariant(&self);
            lemma_pow3_key_len();
        }
        let n = self.digits.len();
        let mut acc: u64 = 0;
        let mut i: usize = 0;
        while i < n
            invariant
                i <= n,
                n == self.digits@.len(),
                self.well_formed(),
                acc as nat == key_value(self.digits@.take(i as int)),
                (acc as nat) < pow3(i as nat),
            decreases n - i,
        {
            let d = self.digits[i];
            proof {
                assert(self.digits@.take(i + 1).drop_last() =~= self.digits@.take(i as int));
                assert(self.digits@.take(i + 1).last() == d);
                lemma_pow3_key_len();
                lemma_pow3_mono((i + 1) as nat, KEY_LEN as nat);
                assert(pow3((i + 1) as nat) == 3 * pow3(i as nat));
                assert((acc as nat) * 3 + (d as nat) < pow3((i + 1) as nat));
            }
            acc = acc * 3 + (d as u64);
            i += 1;
        }
        proof {
            assert(self.digits@.take(n as int) =~= self.digits@);
            lemma_pow3_mono(n as nat, KEY_LEN as nat);
        }
        acc * BUCKET_MILLIS
    }

    /// Parses a base-3 digit string of at most `KEY_LEN` characters,
    /// left-padding with zeros to exactly `KEY_LEN` digits. Fails with
    /// `MalformedKey` exactly when the string is longer than `KEY_LEN`
    /// characters or holds a character outside {'0', '1', '2'}.
    pub fn from_base3_str(base3_str: &str) -> (r: Result<Key, CodecError>)
        ensures
            r is Ok <==> (base3_str@.len() <= KEY_LEN && forall|i: int|
                0 <= i < base3_str@.len() ==> base3_digit(#[trigger] base3_str@[i])),
            r matches Ok(k) ==> k@ == Seq::new((KEY_LEN - base3_str@.len()) as nat, |i: int| 0u8)
                + base3_str@.map_values(|c: char| digit_val(c)),
            r matches Err(e) ==> e == CodecError::MalformedKey,
    {
        let n = base3_str.unicode_len();
        if n > KEY_LEN {
            return Err(CodecError::MalformedKey);
        }
        let pad = KEY_LEN - n;
        let mut digits: Vec<u8> = Vec::new();
        let mut i: usize = 0;
        while i < pad
            invariant
                i <= pad,
                digits@ =~= Seq::new(i as nat, |j: int| 0u8),
            decreases pad - i,
        {
            digits.push(0u8);
            proof {
                assert(digits@ =~= Seq::new((i + 1) as nat, |j: int| 0u8));
            }
            i += 1;
        }
        let mut j: usize = 0;
        while j < n
            invariant
                j <= n,
                n == base3_str@.len(),
                n <= KEY_LEN,
                pad == KEY_LEN - n,
                digits@.len() == pad + j,
                digits@ =~= Seq::new(pad as nat, |k: int| 0u8) + base3_str@.take(
                    j as int,
                ).map_values(|c: char| digit_val(c)),
                forall|k: int| 0 <= k < j ==> base3_digit(#[trigger] base3_str@[k]),
                forall|k: int| 0 <= k < digits@.len() ==> digits@[k] < 3,
            decreases n - j,
        {
            let c = base3_str.get_char(j);
            let d: u8 = if c == '0' {
                0
            } else if c == '1' {
                1
            } else if c == '2' {
                2
            } else {
                proof {
                    assert(0 <= j < base3_str@.len());
                    assert(!base3_digit(base3_str@[j as int]));
                    assert(!(forall|i: int|
                        0 <= i < base3_str@.len() ==> base3_digit(#[trigger] base3_str@[i])));
                }
                return Err(CodecError::MalformedKey);
            };
            digits.push(d);
            proof {
                assert(digits@ =~= Seq::new(pad as nat, |k: int| 0u8) + base3_str@.take(
                    (j + 1) as int,
                ).map_values(|ch: char| digit_val(ch)));
            }
            j += 1;
        }
        proof {
            assert(base3_str@.take(n as int) =~= base3_str@);
        }
        Ok(Key { digits })
    }

    /// Removes and returns the most significant remaining digit, so that
    /// trie descent separates coarser time ranges before finer ones.
    pub fn pop_front(&mut self) -> (r: Option<u8>)
        ensures
            old(self)@.len() == 0 ==> r is None && final(self)@ == old(self)@,
            old(self)@.len() > 0 ==> r == Some(old(self)@[0]) && final(self)@ == old(self)@.drop_first()
                && old(self)@[0] < 3,
    {
        proof {
            use_type_invariant(&*self);
        }
        if self.digits.len() == 0 {
            None
        } else {
            let mut taken: Vec<u8> = Vec::new();
            std::mem::swap(&mut taken, &mut self.digits);
            let d = taken.remove(0);
            proof {
                assert(taken@ =~= old(self)@.drop_first());
            }
            self.digits = taken;
            Some(d)
        }
    }
}

/// Whether a character is a base-3 digit.
pub open spec fn base3_digit(c: char) -> bool {
    c == '0' || c == '1' || c == '2'
}

/// The numeric value of a base-3 digit character.
pub open spec fn digit_val(c: char) -> u8 {
    if c == '1' {
        1
    } else if c == '2' {
        2
    } else {
        0
    }
}

/// Builds a key directly from its digits; used by the comparison algorithm
/// to report divergent paths.
pub(crate) fn key_from_digits(digits: Vec<u8>) -> (r: Key)
    requires
        digits@.len() <= KEY_LEN,
        forall|i: int| 0 <= i < digits@.len() ==> digits@[i] < 3,
    ensures
        r@ == digits@,
{
    Key { digits }
}

/// 3 to the power of `e`, executable.
fn pow3_exec(e: usize) -> (r: u64)
    requires
        e <= KEY_LEN,
    ensures
        r as nat == pow3(e as nat),
        r >= 1,
    decreases e,
{
    if e == 0 {
        1
    } else {
        let sub = pow3_exec(e - 1);
        proof {
            lemma_pow3_mono((e - 1) as nat, 15);
            lemma_pow3_key_len();
            reveal_with_fuel(pow3, 17);
        }
        3 * sub
    }
}

} // verus!
