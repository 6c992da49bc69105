//! Neighbour histories as bit-vectors and the functions that decide, from the
//! most recent bits of a history, whether a neighbour is alive.

use vstd::prelude::*;

use bitvec::vec::BitVec;

verus! {

/// A neighbour's history: one bit per snapshot, kept in a `bitvec` bit-vector.
#[verifier::external_body]
pub struct BitHistory {
    bits: BitVec,
}

impl Clone for BitHistory {
    /// Calls `BitVec::clone`: a copy holding the same bits.
    #[verifier::external_body]
    fn clone(&self) -> (r: Self)
        ensures
            history_bits(r) == history_bits(*self),
    {
        BitHistory { bits: self.bits.clone() }
    }
}

/// The bits a history holds, oldest snapshot first.
pub uninterp spec fn history_bits(h: BitHistory) -> Seq<bool>;

/// The longest bit-vector that the bit-vector type can describe.
pub const BITVEC_MAX_BITS: usize = usize::MAX / 8;

/// Calls `BitVec::repeat`: a bit-vector made of `len` copies of `bit`.
/// The allocation fails (and the call panics) beyond `BITVEC_MAX_BITS` bits.
#[verifier::external_body]
pub(crate) fn bitvec_repeat(bit: bool, len: usize) -> (r: BitHistory)
    requires
        len <= BITVEC_MAX_BITS,
    ensures
        history_bits(r) == Seq::new(len as nat, |_i: int| bit),
{
    BitHistory { bits: BitVec::repeat(bit, len) }
}

impl BitHistory {
    /// A history holding the bits of `bits`, oldest first.
    pub fn from_bits(bits: &Vec<bool>) -> (r: BitHistory)
        requires
            bits@.len() <= BITVEC_MAX_BITS,
        ensures
            history_bits(r) == bits@,
    {
        let mut h = bitvec_repeat(false, 0);
        assert(history_bits(h) =~= bits@.take(0));
        for i in 0..bits.len()
            invariant
                bits@.len() <= BITVEC_MAX_BITS,
                history_bits(h) == bits@.take(i as int),
        {
            bitvec_push(&mut h, bits[i]);
            assert(history_bits(h) =~= bits@.take(i + 1));
        }
        assert(bits@.take(bits@.len() as int) =~= bits@);
        h
    }
}

/// Calls `BitVec::len`: the number of bits held.
#[verifier::external_body]
pub(crate) fn bitvec_len(v: &BitHistory) -> (r: usize)
    ensures
        r == history_bits(*v).len(),
{
    v.bits.len()
}

/// Calls `BitVec::push`: appends one bit; it panics beyond `BITVEC_MAX_BITS`
/// bits, which `requires` rules out.
#[verifier::external_body]
pub(crate) fn bitvec_push(v: &mut BitHistory, bit: bool)
    requires
        history_bits(*old(v)).len() < BITVEC_MAX_BITS,
    ensures
        history_bits(*final(v)) == history_bits(*old(v)).push(bit),
{
    v.bits.push(bit)
}

/// Calls `BitSlice::set`: overwrites the bit at `index`, which must exist.
#[verifier::external_body]
pub(crate) fn bitvec_set(v: &mut BitHistory, index: usize, bit: bool)
    requires
        index < history_bits(*old(v)).len(),
    ensures
        history_bits(*final(v)) == history_bits(*old(v)).update(index as int, bit),
{
    v.bits.set(index, bit)
}

/// Calls `BitSlice::to_bitvec` on the sub-slice `v[start..]`: a fresh
/// bit-vector holding the bits of `v` from `start` on.
#[verifier::external_body]
pub(crate) fn bitvec_suffix(v: &BitHistory, start: usize) -> (r: BitHistory)
    requires
        start <= history_bits(*v).len(),
    ensures
        history_bits(r) == history_bits(*v).subrange(start as int, history_bits(*v).len() as int),
{
    BitHistory { bits: v.bits[start..].to_bitvec() }
}

/// Calls `BitSlice::all`: whether every bit is set (true when empty).
#[verifier::external_body]
pub(crate) fn bitvec_all(v: &BitHistory) -> (r: bool)
    ensures
        r == (forall|i: int| 0 <= i < history_bits(*v).len() ==> #[trigger] history_bits(*v)[i]),
{
    v.bits.all()
}

/// Calls `BitSlice::any`: whether at least one bit is set (false when empty).
#[verifier::external_body]
pub(crate) fn bitvec_any(v: &BitHistory) -> (r: bool)
    ensures
        r == (exists|i: int| 0 <= i < history_bits(*v).len() && #[trigger] history_bits(*v)[i]),
{
    v.bits.any()
}

/// Calls `BitSlice::count_ones`: the number of set bits.
#[verifier::external_body]
pub(crate) fn bitvec_count_ones(v: &BitHistory) -> (r: usize)
    ensures
        r == count_true(history_bits(*v)),
{
    v.bits.count_ones()
}

/// The number of `true` entries of `s`.
pub open spec fn count_true(s: Seq<bool>) -> nat
    decreases s.len(),
{
    if s.len() == 0 {
        0
    } else {
        count_true(s.drop_last()) + if s.last() { 1nat } else { 0nat }
    }
}

/// The last `memory_size` bits of a history (all of it when it is shorter).
pub open spec fn recent_window(bits: Seq<bool>, memory_size: usize) -> Seq<bool> {
    if bits.len() >= memory_size {
        bits.subrange(bits.len() - memory_size, bits.len() as int)
    } else {
        bits
    }
}

/// Decides from the recent bits of a neighbour's history whether the
/// neighbour is alive.
pub trait Activation: Copy {
    /// Whether a neighbour whose recent bits are `window` is alive.
    spec fn active(&self, window: Seq<bool>) -> bool;

    /// Applies the function to the bits of `window`.
    fn apply(&self, window: &BitHistory) -> (r: bool)
        ensures
            r == self.active(history_bits(*window)),
    ;
}

/// A neighbour is alive when the edge was present in every recent snapshot.
#[derive(Clone, Copy, Debug)]
pub struct Intersection;

/// A neighbour is alive when the edge was present in some recent snapshot.
#[derive(Clone, Copy, Debug)]
pub struct Union;

/// A neighbour is alive when the edge was present in at least half of the
/// recent snapshots (half rounded down).
#[derive(Clone, Copy, Debug)]
pub struct Half;

impl Activation for Intersection {
    open spec fn active(&self, window: Seq<bool>) -> bool {
        forall|i: int| 0 <= i < window.len() ==> #[trigger] window[i]
    }

    fn apply(&self, window: &BitHistory) -> (r: bool) {
        bitvec_all(window)
    }
}

impl Activation for Union {
    open spec fn active(&self, window: Seq<bool>) -> bool {
        exists|i: int| 0 <= i < window.len() && #[trigger] window[i]
    }

    fn apply(&self, window: &BitHistory) -> (r: bool) {
        bitvec_any(window)
    }
}

impl Activation for Half {
    open spec fn active(&self, window: Seq<bool>) -> bool {
        count_true(window) >= window.len() / 2
    }

    fn apply(&self, window: &BitHistory) -> (r: bool) {
        let ones = bitvec_count_ones(window);
        let len = bitvec_len(window);
        ones >= len / 2
    }
}

} // verus!
