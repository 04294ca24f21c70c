//! A fixed-size unsigned integer stored as a byte array, with the most
//! significant byte at the highest index and the least significant byte at
//! index 0. Used as a large element type when exercising the heaps.

use crate::Item;
use vstd::prelude::*;

verus! {

/// The byte at position `j` of the little-endian encoding of `num`: bytes
/// beyond the width of the number are zero.
pub open spec fn le_byte_of(num: u64, j: int) -> u8 {
    if 0 <= j < 8 {
        ((num >> ((8 * j) as u64)) & 0xff) as u8
    } else {
        0
    }
}

/// `a` is strictly below `b` in the order that compares the most
/// significant (highest-index) bytes first.
pub open spec fn bytes_lt(a: Seq<u8>, b: Seq<u8>) -> bool
    recommends
        a.len() == b.len(),
    decreases a.len(),
{
    a.len() > 0 && {
        ||| a.last() < b.last()
        ||| (a.last() == b.last() && bytes_lt(a.drop_last(), b.drop_last()))
    }
}

/// If the bytes above position `p` agree and the bytes at `p` differ, the
/// comparison is decided at `p`.
proof fn lemma_bytes_lt_at(a: Seq<u8>, b: Seq<u8>, p: int)
    requires
        a.len() == b.len(),
        0 <= p < a.len(),
        a[p] != b[p],
        forall|k: int| p < k < a.len() ==> a[k] == #[trigger] b[k],
    ensures
        bytes_lt(a, b) <==> a[p] < b[p],
    decreases a.len(),
{
    if p == a.len() - 1 {
    } else {
        assert(a.last() == b.last());
        assert(forall|k: int|
            p < k < a.drop_last().len() ==> a.drop_last()[k] == #[trigger] b.drop_last()[k]);
        lemma_bytes_lt_at(a.drop_last(), b.drop_last(), p);
    }
}

/// The order is irreflexive: no byte string is below itself.
proof fn lemma_bytes_lt_irreflexive(a: Seq<u8>)
    ensures
        !bytes_lt(a, a),
    decreases a.len(),
{
    if a.len() > 0 {
        lemma_bytes_lt_irreflexive(a.drop_last());
    }
}

/// A number of `N` bytes, least significant byte first.
#[derive(Clone)]
pub struct ByteArray<const N: usize>([u8; N]);

impl<const N: usize> Item for ByteArray<N> {

}

impl<const N: usize> View for ByteArray<N> {
    type V = Seq<u8>;

    closed spec fn view(&self) -> Seq<u8> {
        self.0@
    }
}

impl<const N: usize> ByteArray<N> {
    /// The value zero: every byte is zero.
    pub fn zero() -> (r: Self)
        ensures
            r@.len() == N,
            forall|j: int| 0 <= j < N ==> r@[j] == 0u8,
    {
        ByteArray([0u8; N])
    }

    /// Wraps raw bytes, least significant first.
    pub fn from_bytes(bytes: [u8; N]) -> (r: Self)
        ensures
            r@ == bytes@,
    {
        ByteArray(bytes)
    }

    /// Encodes a machine integer: byte `j` holds bits `8 * j` and up, and
    /// bytes beyond the integer's width are zero.
    pub fn from_usize(num: usize) -> (r: Self)
        ensures
            r@.len() == N,
            forall|j: int| 0 <= j < N ==> r@[j] == le_byte_of(num as u64, j),
    {
        let mut array = [0u8; N];
        let mut j: usize = 0;
        let wide = num as u64;
        while j < N
            invariant
                j <= N,
                array@.len() == N,
                wide == num as u64,
                forall|k: int| 0 <= k < j ==> array@[k] == le_byte_of(num as u64, k),
                forall|k: int| j <= k < N ==> array@[k] == 0u8,
            decreases N - j,
        {
            if j < 8 {
                let shift = (8 * j) as u64;
                let byte = ((wide >> shift) & 0xff) as u8;
                array[j] = byte;
            }
            proof {
                assert(j >= 8 ==> array@[j as int] == le_byte_of(num as u64, j as int));
            }
            j = j + 1;
        }
        ByteArray(array)
    }

    /// Whether `self` is strictly smaller than `other`, comparing the most
    /// significant bytes first.
    pub fn lt(&self, other: &ByteArray<N>) -> (r: bool)
        ensures
            r == bytes_lt(self@, other@),
    {
        let mut i: usize = N;
        while i > 0
            invariant
                i <= N,
                forall|k: int| i <= k < N ==> self@[k] == #[trigger] other@[k],
            decreases i,
        {
            i = i - 1;
            if self.0[i] < other.0[i] {
                proof {
                    lemma_bytes_lt_at(self@, other@, i as int);
                }
                return true;
            }
            if self.0[i] > other.0[i] {
                proof {
                    lemma_bytes_lt_at(self@, other@, i as int);
                }
                return false;
            }
        }
        proof {
            assert(self@ =~= other@);
            lemma_bytes_lt_irreflexive(self@);
        }
        false
    }
}

} // verus!
