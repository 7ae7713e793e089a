//! The dissimilarity metric of the boolean space: Hamming distance.

use vstd::prelude::*;

verus! {

/// Why a dissimilarity score could not be computed.
#[derive(Clone, Copy, Debug, PartialEq, Eq, Structural)]
pub enum DistanceError {
    /// The two vectors do not have the same number of coordinates.
    LengthMismatch,
}

/// Hamming distance of two equal-length boolean vectors: the number of
/// positions at which they differ.
pub open spec fn hamming(a: Seq<bool>, b: Seq<bool>) -> nat
    recommends
        a.len() == b.len(),
    decreases a.len(),
{
    if a.len() == 0 || b.len() == 0 {
        0
    } else {
        hamming(a.drop_last(), b.drop_last()) + (if a.last() != b.last() {
            1nat
        } else {
            0nat
        })
    }
}

/// The distance between equal-length vectors never exceeds their length.
pub proof fn lemma_hamming_le_len(a: Seq<bool>, b: Seq<bool>)
    requires
        a.len() == b.len(),
    ensures
        hamming(a, b) <= a.len(),
    decreases a.len(),
{
    if a.len() > 0 {
        lemma_hamming_le_len(a.drop_last(), b.drop_last());
    }
}

/// The metric is symmetric: `d(a, b) == d(b, a)`.
pub proof fn lemma_hamming_symmetric(a: Seq<bool>, b: Seq<bool>)
    ensures
        hamming(a, b) == hamming(b, a),
    decreases a.len(),
{
    if a.len() > 0 && b.len() > 0 {
        lemma_hamming_symmetric(a.drop_last(), b.drop_last());
    }
}

/// The metric separates points: the distance of two equal-length vectors is
/// zero exactly when they are identical.
pub proof fn lemma_hamming_zero_iff_eq(a: Seq<bool>, b: Seq<bool>)
    requires
        a.len() == b.len(),
    ensures
        hamming(a, b) == 0 <==> a == b,
    decreases a.len(),
{
    if a.len() == 0 {
        assert(a =~= b);
    } else {
        lemma_hamming_zero_iff_eq(a.drop_last(), b.drop_last());
        if hamming(a, b) == 0 {
            assert(a.drop_last() == b.drop_last());
            assert forall|i: int| 0 <= i < a.len() implies a[i] == b[i] by {
                if i < a.len() - 1 {
                    assert(a[i] == a.drop_last()[i]);
                    assert(b[i] == b.drop_last()[i]);
                }
            }
            assert(a =~= b);
        }
        if a == b {
            assert(a.drop_last() =~= b.drop_last());
        }
    }
}

/// The metric obeys the triangle inequality, so a "closest pair" search is
/// well-defined.
pub proof fn lemma_hamming_triangle(a: Seq<bool>, b: Seq<bool>, c: Seq<bool>)
    requires
        a.len() == b.len(),
        b.len() == c.len(),
    ensures
        hamming(a, c) <= hamming(a, b) + hamming(b, c),
    decreases a.len(),
{
    if a.len() > 0 {
        lemma_hamming_triangle(a.drop_last(), b.drop_last(), c.drop_last());
    }
}

/// Counts the differing positions of two vectors already known to have the
/// same length; the collection keeps all points at one length, so training
/// never hits the mismatch error.
pub(crate) fn hamming_exec(a: &Vec<bool>, b: &Vec<bool>) -> (d: u64)
    requires
        a@.len() == b@.len(),
    ensures
        d == hamming(a@, b@),
{
    let n = a.len();
    let mut d: u64 = 0;
    let mut i: usize = 0;
    while i < n
        invariant
            a@.len() == b@.len(),
            n == a@.len(),
            i <= n,
            d == hamming(a@.take(i as int), b@.take(i as int)),
            d <= i,
        decreases n - i,
    {
        proof {
            assert(a@.take(i + 1).drop_last() =~= a@.take(i as int));
            assert(b@.take(i + 1).drop_last() =~= b@.take(i as int));
            assert(a@.take(i + 1).last() == a@[i as int]);
            assert(b@.take(i + 1).last() == b@[i as int]);
        }
        if a[i] != b[i] {
            d = d + 1;
        }
        i = i + 1;
    }
    proof {
        assert(a@.take(n as int) =~= a@);
        assert(b@.take(n as int) =~= b@);
    }
    d
}

/// The dissimilarity score of two boolean vectors: their Hamming distance,
/// or an error when the vectors differ in length (never a silent truncation).
pub fn boolean_space(a: &Vec<bool>, b: &Vec<bool>) -> (r: Result<u64, DistanceError>)
    ensures
        a@.len() == b@.len() ==> r == Ok::<u64, DistanceError>(hamming(a@, b@) as u64),
        a@.len() != b@.len() ==> r == Err::<u64, DistanceError>(DistanceError::LengthMismatch),
{
    if a.len() != b.len() {
        Err(DistanceError::LengthMismatch)
    } else {
        let d = hamming_exec(a, b);
        proof {
            lemma_hamming_le_len(a@, b@);
        }
        Ok(d)
    }
}

} // verus!
