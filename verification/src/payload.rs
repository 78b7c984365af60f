//! Payload generation and transformation: a random payload of lowercase
//! alphanumeric bytes of an exact length, and the fixed transformation
//! (ASCII uppercasing) that derives the expected receive payload from the
//! transmit payload.

use rand::RngExt;
use vstd::prelude::*;

verus! {

/// A byte of the generation alphabet: a lowercase ASCII letter or an
/// ASCII digit.
pub open spec fn is_payload_byte(b: u8) -> bool {
    (97 <= b <= 122) || (48 <= b <= 57)
}

/// The generation alphabet, indexed: first the 26 lowercase letters in
/// order, then the 10 digits in order.
pub open spec fn alphabet_byte(i: int) -> u8 {
    if 0 <= i < 26 {
        (97 + i) as u8
    } else if 26 <= i < 36 {
        (48 + (i - 26)) as u8
    } else {
        0
    }
}

/// How many bytes the generation alphabet holds.
pub open spec fn alphabet_len() -> int {
    36
}

/// Relies on `rand::rng` and `rand::RngExt::random_range`: draws a value
/// uniformly from `0..n`; the result is always below `n`. `random_range`
/// panics on an empty range, which `requires` rules out.
#[verifier::external_body]
fn random_below(n: usize) -> (r: usize)
    requires
        n > 0,
    ensures
        r < n,
{
    rand::rng().random_range(0..n)
}

/// The alphabet byte at index `i`.
fn alphabet_at(i: usize) -> (r: u8)
    requires
        i < alphabet_len(),
    ensures
        r == alphabet_byte(i as int),
        is_payload_byte(r),
{
    if i < 26 {
        97 + (i as u8)
    } else {
        48 + (i as u8 - 26)
    }
}

/// Generate the transmit payload: exactly `size` bytes, each drawn from
/// the lowercase alphanumeric alphabet. The draw is randomized; only the
/// length and the alphabet are promised.
pub fn gen_payload(size: usize) -> (r: Vec<u8>)
    ensures
        r@.len() == size,
        forall|i: int| 0 <= i < size ==> is_payload_byte(r@[i]),
{
    let mut out: Vec<u8> = Vec::new();
    let mut k: usize = 0;
    while k < size
        invariant
            k <= size,
            out@.len() == k,
            forall|i: int| 0 <= i < k ==> is_payload_byte(out@[i]),
        decreases size - k,
    {
        let idx = random_below(36);
        out.push(alphabet_at(idx));
        k = k + 1;
    }
    out
}

/// The expected-payload transformation on one byte: a lowercase ASCII
/// letter becomes its uppercase counterpart; every other byte is kept.
pub open spec fn upper_byte(b: u8) -> u8 {
    if 97 <= b <= 122 {
        (b - 32) as u8
    } else {
        b
    }
}

/// Derive the expected receive payload from the transmit payload by the
/// fixed transformation: ASCII uppercasing, applied uniformly. The result
/// always has exactly the length of the input.
pub fn to_expected(tx: &[u8]) -> (r: Vec<u8>)
    ensures
        r@.len() == tx@.len(),
        forall|i: int| 0 <= i < tx@.len() ==> r@[i] == upper_byte(tx@[i]),
{
    let mut out: Vec<u8> = Vec::new();
    let mut k: usize = 0;
    let n = tx.len();
    while k < n
        invariant
            n == tx@.len(),
            k <= n,
            out@.len() == k,
            forall|i: int| 0 <= i < k ==> out@[i] == upper_byte(tx@[i]),
        decreases n - k,
    {
        let b = tx[k];
        if 97 <= b && b <= 122 {
            out.push(b - 32);
        } else {
            out.push(b);
        }
        k = k + 1;
    }
    out
}

} // verus!
