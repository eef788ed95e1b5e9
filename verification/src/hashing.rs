//! Placement of strings on the 64-bit hash circle.
//!
//! A key or a virtual-node label is hashed with BLAKE2b-512 and the first
//! eight digest bytes, read little-endian, give its ring coordinate.

use blake2::Blake2b512;
use blake2::Digest;
use vstd::bytes::{spec_u64_from_le_bytes, u64_from_le_bytes};
use vstd::prelude::*;
use vstd::slice::slice_subrange;
use vstd::string::StrSliceExecFns;
use vstd::string::StringExecFns;

verus! {

/// The BLAKE2b-512 digest of the UTF-8 bytes of a string: 64 bytes that
/// depend on the characters of the string alone.
pub uninterp spec fn blake2b_of(s: Seq<char>) -> Seq<u8>;

/// Relies on `blake2::Blake2b512` (used through the `digest` traits it
/// re-exports): the digest is always 64 bytes long and is a pure function
/// of the input bytes.
#[verifier::external_body]
fn blake2b_digest(s: &str) -> (r: Vec<u8>)
    ensures
        r@ == blake2b_of(s@),
        r@.len() == 64,
{
    let mut h = Blake2b512::new();
    h.update(s.as_bytes());
    h.finalize().to_vec()
}

/// The ring coordinate of a string: its first eight digest bytes, read
/// little-endian.
pub open spec fn hash_of(s: Seq<char>) -> u64 {
    spec_u64_from_le_bytes(blake2b_of(s).subrange(0, 8))
}

/// Hashes a string onto the ring's 64-bit circle.
pub fn hash_str(s: &str) -> (h: u64)
    ensures
        h == hash_of(s@),
{
    let digest = blake2b_digest(s);
    let head = slice_subrange(digest.as_slice(), 0, 8);
    u64_from_le_bytes(head)
}

/// The decimal digit characters in order.
pub open spec fn digit_char(d: nat) -> char {
    seq!['0', '1', '2', '3', '4', '5', '6', '7', '8', '9'][d as int]
}

/// The decimal digits of `n`, most significant first, as `u64` values print.
pub open spec fn dec_of(n: nat) -> Seq<char>
    decreases n,
{
    if n < 10 {
        seq![digit_char(n)]
    } else {
        dec_of(n / 10) + seq![digit_char(n % 10)]
    }
}

/// A one-character string for a single decimal digit.
fn digit_str(d: u64) -> (s: &'static str)
    requires
        d < 10,
    ensures
        s@ == seq![digit_char(d as nat)],
{
    let s: &'static str = if d == 0 {
        "0"
    } else if d == 1 {
        "1"
    } else if d == 2 {
        "2"
    } else if d == 3 {
        "3"
    } else if d == 4 {
        "4"
    } else if d == 5 {
        "5"
    } else if d == 6 {
        "6"
    } else if d == 7 {
        "7"
    } else if d == 8 {
        "8"
    } else {
        "9"
    };
    proof {
        reveal_strlit("0");
        reveal_strlit("1");
        reveal_strlit("2");
        reveal_strlit("3");
        reveal_strlit("4");
        reveal_strlit("5");
        reveal_strlit("6");
        reveal_strlit("7");
        reveal_strlit("8");
        reveal_strlit("9");
        assert(s@ =~= seq![digit_char(d as nat)]);
    }
    s
}

/// Writes `n` in decimal, as `format!("{}", n)` would.
fn u64_dec(n: u64) -> (s: String)
    ensures
        s@ == dec_of(n as nat),
    decreases n,
{
    if n < 10 {
        digit_str(n).to_owned()
    } else {
        let mut s = u64_dec(n / 10);
        s.append(digit_str(n % 10));
        proof {
            assert(s@ =~= dec_of(n as nat));
        }
        s
    }
}

/// The ring position of virtual node `i` of host `name`: the hash of the
/// host name with the decimal replica index appended.
pub open spec fn position_hash(name: Seq<char>, i: nat) -> u64 {
    hash_of(name + dec_of(i))
}

/// Computes the ring position of virtual node `i` of host `name`.
pub fn position_of(name: &str, i: u64) -> (h: u64)
    ensures
        h == position_hash(name@, i as nat),
{
    let mut label = name.to_owned();
    let suffix = u64_dec(i);
    label.append(suffix.as_str());
    hash_str(label.as_str())
}

} // verus!
