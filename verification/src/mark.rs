//! Render-context marks.
//!
//! Effects such as opacity, blur, hsi or overflow need a node and its whole
//! subtree to be rendered into a pass of its own.  Each such effect owns one
//! bit of a node's [`RenderContextMark`]; the node is a render context while
//! at least one bit is set.

use bitvec::array::BitArray;
use bitvec::order::Lsb0;
use vstd::prelude::*;

verus! {

/// Number of effect bits a mark holds (one `u32` word).
pub const MARK_BITS: usize = 32;

/// The bits of a render-context mark: a one-word `bitvec` bit array, 32 bits
/// long, read and written only through the functions below.
#[verifier::external_body]
pub struct MarkBits {
    bits: BitArray<[u32; 1], Lsb0>,
}

/// The bits held by a one-word bit array, index `i` being bit `i`.
pub uninterp spec fn mark_bits(bits: MarkBits) -> Seq<bool>;

/// `BitArray::ZERO`: an array whose bits are all cleared.
#[verifier::external_body]
fn bits_zero() -> (r: MarkBits)
    ensures
        forall|i: int| 0 <= i < MARK_BITS ==> !#[trigger] mark_bits(r)[i],
{
    MarkBits { bits: BitArray::ZERO }
}

/// Copying a bit array (`BitArray` is `Copy`): the same bits.
#[verifier::external_body]
fn bits_copy(bits: &MarkBits) -> (r: MarkBits)
    ensures
        mark_bits(r) == mark_bits(*bits),
{
    MarkBits { bits: bits.bits }
}

/// `BitSlice::replace`: writes `value` at `index` and returns the bit that was
/// there; every other bit is unchanged.  It panics when `index` is not below
/// the length, which is 32 for a one-word array.
#[verifier::external_body]
fn bits_replace(bits: &mut MarkBits, index: usize, value: bool) -> (r: bool)
    requires
        index < MARK_BITS,
    ensures
        r == mark_bits(*old(bits))[index as int],
        forall|i: int|
            0 <= i < MARK_BITS ==> #[trigger] mark_bits(*final(bits))[i] == if i == index {
                value
            } else {
                mark_bits(*old(bits))[i]
            },
{
    bits.bits.replace(index, value)
}

/// Indexing a bit slice: the bit at `index` (panics past the length, 32 here).
#[verifier::external_body]
fn bits_get(bits: &MarkBits, index: usize) -> (r: bool)
    requires
        index < MARK_BITS,
    ensures
        r == mark_bits(*bits)[index as int],
{
    bits.bits[index]
}

/// `BitSlice::any`: whether at least one bit is set (`count_ones() > 0`).
#[verifier::external_body]
fn bits_any(bits: &MarkBits) -> (r: bool)
    ensures
        r == (exists|i: int| 0 <= i < MARK_BITS && #[trigger] mark_bits(*bits)[i]),
{
    bits.bits.any()
}

/// `BitArray & BitArray`: the bitwise conjunction of two arrays of one length.
#[verifier::external_body]
fn bits_and(a: &MarkBits, b: &MarkBits) -> (r: MarkBits)
    ensures
        forall|i: int|
            0 <= i < MARK_BITS ==> #[trigger] mark_bits(r)[i] == (mark_bits(*a)[i]
                && mark_bits(*b)[i]),
{
    MarkBits { bits: a.bits & b.bits }
}

/// `BitArray | BitArray`: the bitwise disjunction of two arrays of one length.
#[verifier::external_body]
fn bits_or(a: &MarkBits, b: &MarkBits) -> (r: MarkBits)
    ensures
        forall|i: int|
            0 <= i < MARK_BITS ==> #[trigger] mark_bits(r)[i] == (mark_bits(*a)[i]
                || mark_bits(*b)[i]),
{
    MarkBits { bits: a.bits | b.bits }
}

/// The 32 cleared bits.
pub open spec fn no_bits() -> Seq<bool> {
    Seq::new(MARK_BITS as nat, |i: int| false)
}

/// Whether some bit of a mark is set.
pub open spec fn any_bit(m: Seq<bool>) -> bool {
    exists|i: int| 0 <= i < m.len() && #[trigger] m[i]
}

/// Bitwise conjunction of two marks of one length.
pub open spec fn and_bits(a: Seq<bool>, b: Seq<bool>) -> Seq<bool> {
    Seq::new(a.len(), |i: int| a[i] && b[i])
}

/// Bitwise disjunction of two marks of one length.
pub open spec fn or_bits(a: Seq<bool>, b: Seq<bool>) -> Seq<bool> {
    Seq::new(a.len(), |i: int| a[i] || b[i])
}

/// The bits of an optional mark.
pub open spec fn opt_view(o: Option<RenderContextMark>) -> Option<Seq<bool>> {
    match o {
        Some(m) => Some(m@),
        None => None,
    }
}

/// The set of effects that currently apply to a node, one bit per effect.
pub struct RenderContextMark {
    bits: MarkBits,
}

impl View for RenderContextMark {
    type V = Seq<bool>;

    closed spec fn view(&self) -> Seq<bool> {
        Seq::new(MARK_BITS as nat, |i: int| mark_bits(self.bits)[i])
    }
}

impl RenderContextMark {
    /// A mark with no effect bit set.
    pub fn new() -> (r: Self)
        ensures
            r@ == no_bits(),
    {
        let r = RenderContextMark { bits: bits_zero() };
        assert(r@ =~= no_bits());
        r
    }

    /// A copy of the mark.
    pub fn duplicate(&self) -> (r: Self)
        ensures
            r@ == self@,
    {
        RenderContextMark { bits: bits_copy(&self.bits) }
    }

    /// Every mark holds exactly [`MARK_BITS`] bits.
    pub proof fn lemma_len(&self)
        ensures
            self@.len() == MARK_BITS,
    {
    }

    /// Writes `value` into bit `index` and returns the previous bit.
    pub fn replace(&mut self, index: usize, value: bool) -> (r: bool)
        requires
            index < MARK_BITS,
        ensures
            r == old(self)@[index as int],
            final(self)@ == old(self)@.update(index as int, value),
    {
        let r = bits_replace(&mut self.bits, index, value);
        assert(self@ =~= old(self)@.update(index as int, value));
        r
    }

    /// Writes `value` into bit `index`.
    pub fn set(&mut self, index: usize, value: bool)
        requires
            index < MARK_BITS,
        ensures
            final(self)@ == old(self)@.update(index as int, value),
    {
        self.replace(index, value);
    }

    /// Bit `index`.
    pub fn get(&self, index: usize) -> (r: bool)
        requires
            index < MARK_BITS,
        ensures
            r == self@[index as int],
    {
        bits_get(&self.bits, index)
    }

    /// Whether at least one bit is set.
    pub fn any(&self) -> (r: bool)
        ensures
            r == any_bit(self@),
    {
        let r = bits_any(&self.bits);
        proof {
            if r {
                let i = choose|i: int| 0 <= i < MARK_BITS && #[trigger] mark_bits(self.bits)[i];
                assert(self@[i]);
            }
            if any_bit(self@) {
                let i = choose|i: int| 0 <= i < self@.len() && #[trigger] self@[i];
                assert(mark_bits(self.bits)[i]);
            }
        }
        r
    }

    /// Whether no bit is set.
    pub fn not_any(&self) -> (r: bool)
        ensures
            r == !any_bit(self@),
    {
        !self.any()
    }

    /// The bits set in both marks.
    pub fn and(&self, other: &Self) -> (r: Self)
        ensures
            r@ == and_bits(self@, other@),
    {
        let r = RenderContextMark { bits: bits_and(&self.bits, &other.bits) };
        assert(r@ =~= and_bits(self@, other@));
        r
    }

    /// The bits set in either mark.
    pub fn or(&self, other: &Self) -> (r: Self)
        ensures
            r@ == or_bits(self@, other@),
    {
        let r = RenderContextMark { bits: bits_or(&self.bits, &other.bits) };
        assert(r@ =~= or_bits(self@, other@));
        r
    }
}

} // verus!
