//! Fixed-width records: how a value is written into, and read back from, a
//! run of bytes, and how two records are ordered.

use std::cmp::Ordering;
use vstd::prelude::*;

verus! {

/// How `a` compares to `b`.
pub open spec fn ord_of(a: int, b: int) -> Ordering {
    if a < b {
        Ordering::Less
    } else if a == b {
        Ordering::Equal
    } else {
        Ordering::Greater
    }
}

/// A value with a fixed-width binary encoding and a total order given by a
/// key read from that encoding.
pub trait Record: Sized {
    /// Width in bytes of every encoding.
    spec fn spec_width() -> nat;

    /// The encoding of this value.
    spec fn spec_encode(&self) -> Seq<u8>;

    /// The place in the order of the record encoded by `bytes`.
    spec fn key_of(bytes: Seq<u8>) -> int;

    fn width() -> (r: usize)
        ensures
            r as nat == Self::spec_width(),
            r > 0,
    ;

    fn encode(&self) -> (r: Vec<u8>)
        ensures
            r@ == self.spec_encode(),
            r@.len() == Self::spec_width(),
    ;

    fn decode(bytes: &[u8]) -> (r: Self)
        requires
            bytes@.len() == Self::spec_width(),
        ensures
            r.spec_encode() == bytes@,
    ;

    /// Compares this value with the record encoded by `bytes`.
    fn compare(&self, bytes: &[u8]) -> (r: Ordering)
        requires
            bytes@.len() == Self::spec_width(),
        ensures
            r == ord_of(Self::key_of(self.spec_encode()), Self::key_of(bytes@)),
    ;
}

/// The value of eight little-endian bytes.
pub open spec fn le_u64(b: Seq<u8>) -> u64 {
    (b[0] as u64) | ((b[1] as u64) << 8u64) | ((b[2] as u64) << 16u64) | ((b[3] as u64) << 24u64)
        | ((b[4] as u64) << 32u64) | ((b[5] as u64) << 40u64) | ((b[6] as u64) << 48u64) | ((
    b[7] as u64) << 56u64)
}

/// The eight little-endian bytes of `x`.
pub open spec fn u64_le_bytes(x: u64) -> Seq<u8> {
    seq![
        (x & 0xff) as u8,
        ((x >> 8u64) & 0xff) as u8,
        ((x >> 16u64) & 0xff) as u8,
        ((x >> 24u64) & 0xff) as u8,
        ((x >> 32u64) & 0xff) as u8,
        ((x >> 40u64) & 0xff) as u8,
        ((x >> 48u64) & 0xff) as u8,
        ((x >> 56u64) & 0xff) as u8,
    ]
}

proof fn lemma_le_u64_bytes(b0: u64, b1: u64, b2: u64, b3: u64, b4: u64, b5: u64, b6: u64, b7: u64)
    requires
        b0 <= 0xff,
        b1 <= 0xff,
        b2 <= 0xff,
        b3 <= 0xff,
        b4 <= 0xff,
        b5 <= 0xff,
        b6 <= 0xff,
        b7 <= 0xff,
    ensures
        ({
            let x = b0 | (b1 << 8u64) | (b2 << 16u64) | (b3 << 24u64) | (b4 << 32u64) | (b5
                << 40u64) | (b6 << 48u64) | (b7 << 56u64);
            &&& x & 0xff == b0
            &&& (x >> 8u64) & 0xff == b1
            &&& (x >> 16u64) & 0xff == b2
            &&& (x >> 24u64) & 0xff == b3
            &&& (x >> 32u64) & 0xff == b4
            &&& (x >> 40u64) & 0xff == b5
            &&& (x >> 48u64) & 0xff == b6
            &&& (x >> 56u64) & 0xff == b7
        }),
{
    assert({
        let x = b0 | (b1 << 8u64) | (b2 << 16u64) | (b3 << 24u64) | (b4 << 32u64) | (b5 << 40u64)
            | (b6 << 48u64) | (b7 << 56u64);
        &&& x & 0xff == b0
        &&& (x >> 8u64) & 0xff == b1
        &&& (x >> 16u64) & 0xff == b2
        &&& (x >> 24u64) & 0xff == b3
        &&& (x >> 32u64) & 0xff == b4
        &&& (x >> 40u64) & 0xff == b5
        &&& (x >> 48u64) & 0xff == b6
        &&& (x >> 56u64) & 0xff == b7
    }) by (bit_vector)
        requires
            b0 <= 0xff,
            b1 <= 0xff,
            b2 <= 0xff,
            b3 <= 0xff,
            b4 <= 0xff,
            b5 <= 0xff,
            b6 <= 0xff,
            b7 <= 0xff,
    ;
}

/// Reading back what `u64_le_bytes` wrote gives the same value.
pub proof fn lemma_u64_le_round_trip(x: u64)
    ensures
        le_u64(u64_le_bytes(x)) == x,
{
    assert(x & 0xff <= 0xff) by (bit_vector);
    assert(u64_le_bytes(x)[0] as u64 == x & 0xff);
    assert((x >> 8u64) & 0xff <= 0xff) by (bit_vector);
    assert(u64_le_bytes(x)[1] as u64 == (x >> 8u64) & 0xff);
    assert((x >> 16u64) & 0xff <= 0xff) by (bit_vector);
    assert(u64_le_bytes(x)[2] as u64 == (x >> 16u64) & 0xff);
    assert((x >> 24u64) & 0xff <= 0xff) by (bit_vector);
    assert(u64_le_bytes(x)[3] as u64 == (x >> 24u64) & 0xff);
    assert((x >> 32u64) & 0xff <= 0xff) by (bit_vector);
    assert(u64_le_bytes(x)[4] as u64 == (x >> 32u64) & 0xff);
    assert((x >> 40u64) & 0xff <= 0xff) by (bit_vector);
    assert(u64_le_bytes(x)[5] as u64 == (x >> 40u64) & 0xff);
    assert((x >> 48u64) & 0xff <= 0xff) by (bit_vector);
    assert(u64_le_bytes(x)[6] as u64 == (x >> 48u64) & 0xff);
    assert((x >> 56u64) & 0xff <= 0xff) by (bit_vector);
    assert(u64_le_bytes(x)[7] as u64 == (x >> 56u64) & 0xff);
    assert((x & 0xff) | (((x >> 8u64) & 0xff) << 8u64) | (((x >> 16u64) & 0xff) << 16u64) | (((x
        >> 24u64) & 0xff) << 24u64) | (((x >> 32u64) & 0xff) << 32u64) | (((x >> 40u64) & 0xff)
        << 40u64) | (((x >> 48u64) & 0xff) << 48u64) | (((x >> 56u64) & 0xff) << 56u64) == x)
        by (bit_vector);
}

/// An unsigned 64-bit integer, as eight little-endian bytes ordered by value.
impl Record for u64 {
    open spec fn spec_width() -> nat {
        8
    }

    open spec fn spec_encode(&self) -> Seq<u8> {
        u64_le_bytes(*self)
    }

    open spec fn key_of(bytes: Seq<u8>) -> int {
        le_u64(bytes) as int
    }

    fn width() -> (r: usize) {
        8
    }

    fn encode(&self) -> (r: Vec<u8>) {
        let x = *self;
        let r = vec![
            (x & 0xff) as u8,
            ((x >> 8u64) & 0xff) as u8,
            ((x >> 16u64) & 0xff) as u8,
            ((x >> 24u64) & 0xff) as u8,
            ((x >> 32u64) & 0xff) as u8,
            ((x >> 40u64) & 0xff) as u8,
            ((x >> 48u64) & 0xff) as u8,
            ((x >> 56u64) & 0xff) as u8,
        ];
        assert(r@ =~= u64_le_bytes(x));
        r
    }

    fn decode(bytes: &[u8]) -> (r: u64) {
        let r = (bytes[0] as u64) | ((bytes[1] as u64) << 8u64) | ((bytes[2] as u64) << 16u64) | ((
        bytes[3] as u64) << 24u64) | ((bytes[4] as u64) << 32u64) | ((bytes[5] as u64) << 40u64)
            | ((bytes[6] as u64) << 48u64) | ((bytes[7] as u64) << 56u64);
        proof {
            lemma_le_u64_bytes(
                bytes@[0] as u64,
                bytes@[1] as u64,
                bytes@[2] as u64,
                bytes@[3] as u64,
                bytes@[4] as u64,
                bytes@[5] as u64,
                bytes@[6] as u64,
                bytes@[7] as u64,
            );
            assert(r == le_u64(bytes@));
            assert(u64_le_bytes(r) =~= bytes@);
        }
        r
    }

    fn compare(&self, bytes: &[u8]) -> (r: Ordering) {
        let other = u64::decode(bytes);
        proof {
            lemma_u64_le_round_trip(*self);
            lemma_u64_le_round_trip(other);
        }
        if *self < other {
            Ordering::Less
        } else if *self == other {
            Ordering::Equal
        } else {
            Ordering::Greater
        }
    }
}

} // verus!
