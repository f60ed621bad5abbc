//! The capability a key type must offer to be stored in the trie.

use vstd::prelude::*;

verus! {

/// An address of fixed width together with the number of leading bits that count.
///
/// The model of a prefix is its width, its length and its address bits, numbered from
/// the most significant one. Bits at offsets from the length on are carried along but
/// never tell two prefixes apart.
pub trait Prefix: Sized {
    /// Number of bits in an address of this family.
    spec fn spec_width() -> nat;

    /// Number of leading bits that are significant.
    spec fn spec_len(&self) -> nat;

    /// The address bit at offset `i`, counted from the most significant bit.
    spec fn spec_bit(&self, i: int) -> bool;

    /// Every address family fits the `u8` offsets that the methods take.
    proof fn width_fits()
        ensures
            Self::spec_width() <= 255,
    ;

    /// The same prefix with every bit beyond its length cleared.
    fn to_masked(&self) -> (r: Self)
        requires
            self.spec_len() <= Self::spec_width(),
        ensures
            r.spec_len() == self.spec_len(),
            forall|i: int|
                #![trigger r.spec_bit(i)]
                0 <= i < Self::spec_width() ==> r.spec_bit(i) == (i < self.spec_len()
                    && self.spec_bit(i)),
    ;

    /// Whether `prefix` lies within `self`: it is at least as long and agrees with
    /// `self` on all of `self`'s significant bits.
    fn contains(&self, prefix: &Self) -> (r: bool)
        requires
            self.spec_len() <= Self::spec_width(),
            prefix.spec_len() <= Self::spec_width(),
        ensures
            r == (self.spec_len() <= prefix.spec_len() && forall|i: int|
                #![trigger self.spec_bit(i)]
                #![trigger prefix.spec_bit(i)]
                0 <= i < self.spec_len() ==> self.spec_bit(i) == prefix.spec_bit(i)),
    ;

    /// The address bit at offset `index`, as 0 or 1.
    fn bit_at(&self, index: u8) -> (r: u8)
        requires
            self.spec_len() <= Self::spec_width(),
            index < Self::spec_width(),
        ensures
            r == if self.spec_bit(index as int) { 1u8 } else { 0u8 },
    ;

    /// The longest prefix that contains both arguments: it agrees with both on its
    /// own bits, is no longer than either, and stops only where one of them ends or
    /// the two differ.
    fn from_common(prefix1: &Self, prefix2: &Self) -> (r: Self)
        requires
            prefix1.spec_len() <= Self::spec_width(),
            prefix2.spec_len() <= Self::spec_width(),
        ensures
            r.spec_len() <= prefix1.spec_len(),
            r.spec_len() <= prefix2.spec_len(),
            forall|i: int|
                #![trigger r.spec_bit(i)]
                0 <= i < r.spec_len() ==> r.spec_bit(i) == prefix1.spec_bit(i) && r.spec_bit(i)
                    == prefix2.spec_bit(i),
            r.spec_len() < prefix1.spec_len() && r.spec_len() < prefix2.spec_len()
                ==> prefix1.spec_bit(r.spec_len() as int) != prefix2.spec_bit(r.spec_len() as int),
    ;

    /// The number of significant bits.
    fn prefix_len(&self) -> (r: u8)
        requires
            self.spec_len() <= Self::spec_width(),
        ensures
            r == self.spec_len(),
    ;
}

/// The length of `p` does not exceed the width of its address family.
pub open spec fn valid<P: Prefix>(p: P) -> bool {
    p.spec_len() <= P::spec_width()
}

/// The significant bits of `p`, most significant first: what identifies a prefix.
pub open spec fn key<P: Prefix>(p: P) -> Seq<bool> {
    Seq::new(p.spec_len(), |i: int| p.spec_bit(i))
}

/// `b` lies within `a`: `a` is no longer than `b` and the two agree on `a`'s bits.
pub open spec fn covers<P: Prefix>(a: P, b: P) -> bool {
    &&& a.spec_len() <= b.spec_len()
    &&& forall|i: int|
        #![trigger a.spec_bit(i)]
        #![trigger b.spec_bit(i)]
        0 <= i < a.spec_len() ==> a.spec_bit(i) == b.spec_bit(i)
}

/// Every bit of `p` beyond its length is zero.
pub open spec fn canonical<P: Prefix>(p: P) -> bool {
    forall|i: int| #![trigger p.spec_bit(i)] p.spec_len() <= i < P::spec_width() ==> !p.spec_bit(i)
}

/// `g` is the longest prefix that contains both `a` and `b`: it agrees with both on its
/// own bits, is no longer than either, and stops only where one of them ends or the two
/// differ.
pub open spec fn is_common<P: Prefix>(g: P, a: P, b: P) -> bool {
    &&& g.spec_len() <= a.spec_len()
    &&& g.spec_len() <= b.spec_len()
    &&& forall|i: int|
        #![trigger g.spec_bit(i)]
        0 <= i < g.spec_len() ==> g.spec_bit(i) == a.spec_bit(i) && g.spec_bit(i) == b.spec_bit(i)
    &&& g.spec_len() < a.spec_len() && g.spec_len() < b.spec_len() ==> a.spec_bit(
        g.spec_len() as int,
    ) != b.spec_bit(g.spec_len() as int)
}

/// The common prefix of `a` and `b` contains both, and is strictly shorter than `a`
/// unless `a` contains `b`.
pub proof fn lemma_common_below<P: Prefix>(g: P, a: P, b: P)
    requires
        is_common(g, a, b),
    ensures
        covers(g, a),
        covers(g, b),
        !covers(a, b) ==> g.spec_len() < a.spec_len(),
{
    if g.spec_len() == a.spec_len() {
        assert forall|i: int| 0 <= i < a.spec_len() implies a.spec_bit(i) == b.spec_bit(i) by {
            assert(g.spec_bit(i) == a.spec_bit(i));
        }
    }
}

/// The common prefix of `a` and `b` is the longest prefix that contains both: it lies
/// within every prefix that does.
pub proof fn law_common_prefix_is_longest<P: Prefix>(g: P, a: P, b: P, c: P)
    requires
        is_common(g, a, b),
        covers(c, a),
        covers(c, b),
    ensures
        c.spec_len() <= g.spec_len(),
        covers(c, g),
{
}

/// Containment is the prefix order on keys.
pub proof fn lemma_covers_is_prefix<P: Prefix>(a: P, b: P)
    ensures
        covers(a, b) <==> key(a).is_prefix_of(key(b)),
{
    let ka = key(a);
    let kb = key(b);
    if covers(a, b) {
        assert(ka =~= kb.subrange(0, ka.len() as int));
    }
    if ka.is_prefix_of(kb) {
        assert forall|i: int| 0 <= i < a.spec_len() implies a.spec_bit(i) == b.spec_bit(i) by {
            assert(ka[i] == kb.subrange(0, ka.len() as int)[i]);
        }
    }
}

/// Two prefixes have the same key exactly when they have one length and contain
/// each other.
pub proof fn lemma_key_eq<P: Prefix>(a: P, b: P)
    ensures
        key(a) == key(b) <==> (a.spec_len() == b.spec_len() && covers(a, b)),
{
    if key(a) == key(b) {
        assert forall|i: int| 0 <= i < a.spec_len() implies a.spec_bit(i) == b.spec_bit(i) by {
            assert(key(a)[i] == key(b)[i]);
        }
    }
    if a.spec_len() == b.spec_len() && covers(a, b) {
        assert(key(a) =~= key(b));
    }
}

} // verus!
