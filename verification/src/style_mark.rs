//! Style marks: one bit per style property.
//!
//! A node records, one bit per style property, which properties it sets by
//! class, which it sets locally and which changed in this frame; a
//! transition records the properties it animates the same way.  The marks
//! are four-word `bitvec` bit arrays.

use bitvec::array::BitArray;
use bitvec::order::Lsb0;
use vstd::prelude::*;

verus! {

/// Number of style properties a mark holds (four `u32` words).
pub const STYLE_BITS: usize = 128;

/// The bits of a style mark: a four-word `bitvec` bit array, 128 bits
/// long, read and written only through the functions below.
#[verifier::external_body]
pub struct StyleBits {
    bits: BitArray<[u32; 4], Lsb0>,
}

/// The bits held by a four-word bit array, index `i` being bit `i`.
pub uninterp spec fn style_bits(bits: StyleBits) -> Seq<bool>;

/// The indices of the set bits among the first `k` of `m`, in increasing
/// order.
pub open spec fn ones_upto(m: Seq<bool>, k: int) -> Seq<usize>
    decreases k,
{
    if k <= 0 {
        Seq::empty()
    } else if m[k - 1] {
        ones_upto(m, k - 1).push((k - 1) as usize)
    } else {
        ones_upto(m, k - 1)
    }
}

/// The indices of the set bits of `m`, in increasing order.
pub open spec fn ones(m: Seq<bool>) -> Seq<usize> {
    ones_upto(m, m.len() as int)
}

/// The properties set in both marks.
pub open spec fn and_marks(a: Seq<bool>, b: Seq<bool>) -> Seq<bool> {
    Seq::new(a.len(), |i: int| a[i] && b[i])
}

/// The properties set in either mark.
pub open spec fn or_marks(a: Seq<bool>, b: Seq<bool>) -> Seq<bool> {
    Seq::new(a.len(), |i: int| a[i] || b[i])
}

/// Whether some property of a mark is set.
pub open spec fn any_mark(a: Seq<bool>) -> bool {
    exists|i: int| 0 <= i < a.len() && a[i]
}

/// `BitArray::ZERO`: an array whose bits are all cleared.
#[verifier::external_body]
fn style_zero() -> (r: StyleBits)
    ensures
        forall|i: int| 0 <= i < STYLE_BITS ==> !#[trigger] style_bits(r)[i],
{
    StyleBits { bits: BitArray::ZERO }
}

/// Copying a bit array (`BitArray` is `Copy`): the same bits.
#[verifier::external_body]
fn style_copy(bits: &StyleBits) -> (r: StyleBits)
    ensures
        style_bits(r) == style_bits(*bits),
{
    StyleBits { bits: bits.bits }
}

/// `BitSlice::replace`: writes `value` at `index` and returns the bit that was
/// there; every other bit is unchanged.  It panics when `index` is not below
/// the length, which is 128 for a four-word array.
#[verifier::external_body]
fn style_replace(bits: &mut StyleBits, index: usize, value: bool) -> (r: bool)
    requires
        index < STYLE_BITS,
    ensures
        r == style_bits(*old(bits))[index as int],
        forall|i: int|
            0 <= i < STYLE_BITS ==> #[trigger] style_bits(*final(bits))[i] == if i == index {
                value
            } else {
                style_bits(*old(bits))[i]
            },
{
    bits.bits.replace(index, value)
}

/// Indexing a bit slice: the bit at `index` (panics past the length, 128 here).
#[verifier::external_body]
fn style_get(bits: &StyleBits, index: usize) -> (r: bool)
    requires
        index < STYLE_BITS,
    ensures
        r == style_bits(*bits)[index as int],
{
    bits.bits[index]
}

/// `BitSlice::any`: whether at least one bit is set.
#[verifier::external_body]
fn style_any(bits: &StyleBits) -> (r: bool)
    ensures
        r == (exists|i: int| 0 <= i < STYLE_BITS && #[trigger] style_bits(*bits)[i]),
{
    bits.bits.any()
}

/// `BitArray & BitArray`: the bitwise conjunction of two arrays of one length.
#[verifier::external_body]
fn style_and(a: &StyleBits, b: &StyleBits) -> (r: StyleBits)
    ensures
        forall|i: int|
            0 <= i < STYLE_BITS ==> #[trigger] style_bits(r)[i] == (style_bits(*a)[i] && style_bits(*b)[i]),
{
    StyleBits { bits: a.bits & b.bits }
}

/// `BitArray | BitArray`: the bitwise disjunction of two arrays of one length.
#[verifier::external_body]
fn style_or(a: &StyleBits, b: &StyleBits) -> (r: StyleBits)
    ensures
        forall|i: int|
            0 <= i < STYLE_BITS ==> #[trigger] style_bits(r)[i] == (style_bits(*a)[i] || style_bits(*b)[i]),
{
    StyleBits { bits: a.bits | b.bits }
}

/// `BitArray == BitArray`: two arrays of one length are equal when every
/// bit is.
#[verifier::external_body]
fn style_eq(a: &StyleBits, b: &StyleBits) -> (r: bool)
    ensures
        r == (forall|i: int| 0 <= i < STYLE_BITS ==> #[trigger] style_bits(*a)[i] == style_bits(*b)[i]),
{
    a.bits == b.bits
}

/// `BitSlice::iter_ones`, collected: the indices of the set bits, in
/// increasing order.
#[verifier::external_body]
fn style_ones(bits: &StyleBits) -> (r: Vec<usize>)
    ensures
        r@ == ones(Seq::new(STYLE_BITS as nat, |i: int| style_bits(*bits)[i])),
{
    bits.bits.iter_ones().collect()
}

/// A style mark: one bit per style property.
pub struct StyleMarkType {
    bits: StyleBits,
}

impl View for StyleMarkType {
    type V = Seq<bool>;

    closed spec fn view(&self) -> Seq<bool> {
        Seq::new(STYLE_BITS as nat, |i: int| style_bits(self.bits)[i])
    }
}

impl StyleMarkType {
    /// A mark with no property set.
    pub fn new() -> (r: Self)
        ensures
            r@ == Seq::new(STYLE_BITS as nat, |i: int| false),
    {
        let r = StyleMarkType { bits: style_zero() };
        assert(r@ =~= Seq::new(STYLE_BITS as nat, |i: int| false));
        r
    }

    /// A mark with the properties `props` set.
    pub fn from_props(props: &Vec<usize>) -> (r: Self)
        requires
            forall|k: int| 0 <= k < props.len() ==> #[trigger] props[k] < STYLE_BITS,
        ensures
            r@ == Seq::new(STYLE_BITS as nat, |i: int| props@.contains(i as usize)),
    {
        let mut r = Self::new();
        let mut k: usize = 0;
        while k < props.len()
            invariant
                k <= props.len(),
                forall|j: int| 0 <= j < props.len() ==> #[trigger] props[j] < STYLE_BITS,
                r@ == Seq::new(STYLE_BITS as nat, |i: int| props@.take(k as int).contains(i as usize)),
            decreases props.len() - k,
        {
            r.set(props[k], true);
            k = k + 1;
            assert(r@ =~= Seq::new(STYLE_BITS as nat, |i: int| props@.take(k as int).contains(i as usize))) by {
                assert forall|i: int| 0 <= i < STYLE_BITS implies r@[i] == props@.take(k as int).contains(i as usize) by {
                    let t = props@.take(k as int);
                    let t0 = props@.take(k - 1);
                    assert(t == t0.push(props@[k - 1]));
                    if t.contains(i as usize) {
                        let a = choose|a: int| 0 <= a < t.len() && t[a] == i as usize;
                        if a < t0.len() {
                            assert(t0[a] == t[a]);
                        }
                    }
                    if t0.contains(i as usize) {
                        let a = choose|a: int| 0 <= a < t0.len() && t0[a] == i as usize;
                        assert(t[a] == t0[a]);
                    }
                    if i == props@[k - 1] as int {
                        assert(t[k - 1] == props@[k - 1]);
                    }
                }
            }
        }
        assert(props@.take(k as int) == props@);
        r
    }

    /// Every mark holds exactly [`STYLE_BITS`] bits.
    pub proof fn lemma_len(&self)
        ensures
            self@.len() == STYLE_BITS,
    {
    }

    /// A copy of the mark.
    pub fn duplicate(&self) -> (r: Self)
        ensures
            r@ == self@,
    {
        StyleMarkType { bits: style_copy(&self.bits) }
    }

    /// The bit of property `index`.
    pub fn get(&self, index: usize) -> (r: bool)
        requires
            index < STYLE_BITS,
        ensures
            r == self@[index as int],
    {
        style_get(&self.bits, index)
    }

    /// Writes `value` into the bit of property `index`.
    pub fn set(&mut self, index: usize, value: bool)
        requires
            index < STYLE_BITS,
        ensures
            final(self)@ == old(self)@.update(index as int, value),
    {
        style_replace(&mut self.bits, index, value);
        assert(self@ =~= old(self)@.update(index as int, value));
    }

    /// Whether some property is set.
    pub fn any(&self) -> (r: bool)
        ensures
            r == any_mark(self@),
    {
        let r = style_any(&self.bits);
        proof {
            if r {
                let i = choose|i: int| 0 <= i < STYLE_BITS && #[trigger] style_bits(self.bits)[i];
                assert(self@[i]);
            }
        }
        r
    }

    /// The properties set in both marks.
    pub fn and(&self, other: &Self) -> (r: Self)
        ensures
            r@ == and_marks(self@, other@),
    {
        let r = StyleMarkType { bits: style_and(&self.bits, &other.bits) };
        assert(r@ =~= and_marks(self@, other@));
        r
    }

    /// The properties set in either mark.
    pub fn or(&self, other: &Self) -> (r: Self)
        ensures
            r@ == or_marks(self@, other@),
    {
        let r = StyleMarkType { bits: style_or(&self.bits, &other.bits) };
        assert(r@ =~= or_marks(self@, other@));
        r
    }

    /// Whether the two marks set the same properties.
    pub fn same(&self, other: &Self) -> (r: bool)
        ensures
            r == (self@ == other@),
    {
        let r = style_eq(&self.bits, &other.bits);
        proof {
            if r {
                assert(self@ =~= other@);
            } else {
                let i = choose|i: int| !(0 <= i < STYLE_BITS ==> #[trigger] style_bits(self.bits)[i] == style_bits(other.bits)[i]);
                assert(self@[i] != other@[i]);
            }
        }
        r
    }

    /// The set properties, in increasing order.
    pub fn ones(&self) -> (r: Vec<usize>)
        ensures
            r@ == ones(self@),
    {
        style_ones(&self.bits)
    }
}

} // verus!
