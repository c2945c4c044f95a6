//! Mathematical model of fixed-size bitsets, and the trusted interface to
//! `bitset_fixed::BitSet`, which the maximum-clique state uses for its
//! candidate sets and adjacency rows.

use vstd::prelude::*;
use bitset_fixed::BitSet;

verus! {

#[verifier::external_type_specification]
#[verifier::external_body]
pub struct ExBitSet(BitSet);

/// The bits held by a `bitset_fixed::BitSet`, index by index; the length is
/// the size the bitset was created with.
pub uninterp spec fn bits(b: BitSet) -> Seq<bool>;

/// Whether every buffer bit at a position at or beyond the size is clear.
/// The crate keeps this by construction (`chomp`), but its public
/// `buffer_mut` can break it, and `count_ones` counts such stray bits; the
/// wrappers therefore track it.
pub uninterp spec fn clean(b: BitSet) -> bool;

/// Pointwise conjunction, over the length of the first operand.
pub open spec fn and_bits(a: Seq<bool>, b: Seq<bool>) -> Seq<bool> {
    Seq::new(a.len(), |i: int| a[i] && b[i])
}

/// Pointwise disjunction, over the length of the first operand.
pub open spec fn or_bits(a: Seq<bool>, b: Seq<bool>) -> Seq<bool> {
    Seq::new(a.len(), |i: int| a[i] || b[i])
}

/// Pointwise negation.
pub open spec fn not_bits(a: Seq<bool>) -> Seq<bool> {
    Seq::new(a.len(), |i: int| !a[i])
}

/// How many bits are set.
pub open spec fn count_true(s: Seq<bool>) -> nat
    decreases s.len(),
{
    if s.len() == 0 {
        0
    } else {
        count_true(s.drop_last()) + (if s.last() {
            1nat
        } else {
            0nat
        })
    }
}

/// No more bits are set than there are bits.
pub proof fn lemma_count_le_len(s: Seq<bool>)
    ensures
        count_true(s) <= s.len(),
    decreases s.len(),
{
    if s.len() > 0 {
        lemma_count_le_len(s.drop_last());
    }
}

/// Changing one bit changes the count by exactly that bit's contribution.
pub proof fn lemma_count_update(s: Seq<bool>, i: int, v: bool)
    requires
        0 <= i < s.len(),
    ensures
        count_true(s.update(i, v)) + (if s[i] {
            1nat
        } else {
            0nat
        }) == count_true(s) + (if v {
            1nat
        } else {
            0nat
        }),
    decreases s.len(),
{
    if i == s.len() - 1 {
        assert(s.update(i, v).drop_last() =~= s.drop_last());
    } else {
        lemma_count_update(s.drop_last(), i, v);
        assert(s.update(i, v).drop_last() =~= s.drop_last().update(i, v));
        assert(s.update(i, v).last() == s.last());
    }
}

/// A set bit witnesses a positive count.
pub proof fn lemma_count_pos(s: Seq<bool>, i: int)
    requires
        0 <= i < s.len(),
        s[i],
    ensures
        count_true(s) >= 1,
{
    lemma_count_update(s, i, false);
}

/// Pointwise implication is monotone in the count.
pub proof fn lemma_count_mono(a: Seq<bool>, b: Seq<bool>)
    requires
        a.len() == b.len(),
        forall|i: int| 0 <= i < a.len() && a[i] ==> b[i],
    ensures
        count_true(a) <= count_true(b),
    decreases a.len(),
{
    if a.len() > 0 {
        lemma_count_mono(a.drop_last(), b.drop_last());
    }
}

/// Two disjoint sets of bits together fill at most the whole length.
pub proof fn lemma_count_disjoint(a: Seq<bool>, b: Seq<bool>)
    requires
        a.len() == b.len(),
        forall|i: int| 0 <= i < a.len() ==> !(a[i] && b[i]),
    ensures
        count_true(a) + count_true(b) <= a.len(),
    decreases a.len(),
{
    if a.len() > 0 {
        lemma_count_disjoint(a.drop_last(), b.drop_last());
    }
}

/// A constant-false sequence has no set bits.
pub proof fn lemma_count_false(n: nat)
    ensures
        count_true(Seq::new(n, |i: int| false)) == 0,
    decreases n,
{
    if n > 0 {
        lemma_count_false((n - 1) as nat);
        assert(Seq::new(n, |i: int| false).drop_last() =~= Seq::new(
            (n - 1) as nat,
            |i: int| false,
        ));
    }
}

/// Relies on `BitSet::new`: a fresh bitset of the given size, every bit
/// clear, the buffer word count computed without overflow.
#[verifier::external_body]
pub fn bs_new(n: usize) -> (r: BitSet)
    requires
        n <= usize::MAX - 63,
    ensures
        bits(r) == Seq::new(n as nat, |i: int| false),
        clean(r),
{
    BitSet::new(n)
}

/// Relies on `BitSet::set`, which writes one bit below the size and panics
/// when the index is out of range; buffer bits beyond the size are not
/// touched.
#[verifier::external_body]
pub fn bs_set(b: &mut BitSet, i: usize, v: bool)
    requires
        i < bits(*old(b)).len(),
    ensures
        bits(*final(b)) == bits(*old(b)).update(i as int, v),
        clean(*final(b)) == clean(*old(b)),
{
    b.set(i, v)
}

/// Relies on `BitSet`'s `Index` impl, which reads one bit and panics when
/// the index is out of range.
#[verifier::external_body]
pub fn bs_get(b: &BitSet, i: usize) -> (r: bool)
    requires
        i < bits(*b).len(),
    ensures
        r == bits(*b)[i as int],
{
    b[i]
}

/// Relies on `BitSet::count_ones`, which sums the popcounts of the whole
/// buffer words: the size must fit in `u32`, and buffer bits beyond the
/// size must be clear, or they would be counted too.
#[verifier::external_body]
pub fn bs_count(b: &BitSet) -> (r: u32)
    requires
        bits(*b).len() <= u32::MAX,
        clean(*b),
    ensures
        r as nat == count_true(bits(*b)),
{
    b.count_ones()
}

/// Relies on `BitAndAssign<&BitSet>`, which intersects the buffers word by
/// word; both operands must have the same size.  A clear tail stays clear
/// under intersection.
#[verifier::external_body]
pub fn bs_and(a: &mut BitSet, b: &BitSet)
    requires
        bits(*old(a)).len() == bits(*b).len(),
    ensures
        bits(*final(a)) == and_bits(bits(*old(a)), bits(*b)),
        clean(*old(a)) ==> clean(*final(a)),
{
    *a &= b
}

/// Relies on `BitOrAssign<&BitSet>`, which unions the buffers word by word
/// and then clears the bits beyond the size; both operands must have the
/// same size.
#[verifier::external_body]
pub fn bs_or(a: &mut BitSet, b: &BitSet)
    requires
        bits(*old(a)).len() == bits(*b).len(),
    ensures
        bits(*final(a)) == or_bits(bits(*old(a)), bits(*b)),
        clean(*final(a)),
{
    *a |= b
}

/// Relies on `Not for BitSet`, which flips the buffer and then clears the
/// bits beyond the size.
#[verifier::external_body]
pub fn bs_not(b: BitSet) -> (r: BitSet)
    ensures
        bits(r) == not_bits(bits(b)),
        clean(r),
{
    !b
}

/// Relies on the derived `Clone` for `BitSet`, which copies the buffer and
/// the size word for word.
#[verifier::external_body]
pub fn bs_clone(b: &BitSet) -> (r: BitSet)
    ensures
        bits(r) == bits(*b),
        clean(r) == clean(*b),
{
    b.clone()
}

} // verus!
