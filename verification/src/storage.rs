//! Storage integers for an index set.
//!
//! A storage word is a fixed-width unsigned integer used as a bit vector:
//! its view is the set of bit positions that are set.  Any of the five
//! primitive unsigned integer types will do.

use vstd::prelude::*;

verus! {

/// Whether bit `t` of `x` is set.
pub open spec fn u8_bit(x: u8, t: nat) -> bool {
    t < 8 && (x >> (t as u8)) & 1u8 == 1u8
}

/// Whether bit `t` of `x` is set.
pub open spec fn u16_bit(x: u16, t: nat) -> bool {
    t < 16 && (x >> (t as u16)) & 1u16 == 1u16
}

/// Whether bit `t` of `x` is set.
pub open spec fn u32_bit(x: u32, t: nat) -> bool {
    t < 32 && (x >> (t as u32)) & 1u32 == 1u32
}

/// Whether bit `t` of `x` is set.
pub open spec fn u64_bit(x: u64, t: nat) -> bool {
    t < 64 && (x >> (t as u64)) & 1u64 == 1u64
}

/// Whether bit `t` of `x` is set.
pub open spec fn u128_bit(x: u128, t: nat) -> bool {
    t < 128 && (x >> (t as u128)) & 1u128 == 1u128
}

/// The storage unit for the bits in an index set.
///
/// A word stands for `bits(self)`: the set of bit positions, all below
/// `spec_width()`, whose bits are set in it.
pub trait Storage: Sized + Copy {
    /// The set of bit positions that are set in this word.
    spec fn bits(self) -> Set<nat>;

    /// The width of this word type, in bits.
    spec fn spec_width() -> nat;

    /// Width facts every storage word type guarantees: the width is
    /// positive, fits a `usize`, and divides `usize::MAX + 1`, so that
    /// bucket arithmetic on representable indices stays representable.
    proof fn lemma_width_facts()
        ensures
            Self::spec_width() >= 1,
            Self::spec_width() <= usize::MAX,
            (usize::MAX as nat + 1) % Self::spec_width() == 0,
    ;

    /// Every set bit position lies below the word width.
    proof fn lemma_bits_below_width(self)
        ensures
            forall|t: nat| self.bits().contains(t) ==> t < Self::spec_width(),
    ;

    /// The width, in bits, of this storage integer type.
    fn width() -> (w: usize)
        ensures
            w == Self::spec_width(),
    ;

    /// The all-clear word.
    fn zero() -> (r: Self)
        ensures
            r.bits() == Set::<nat>::empty(),
    ;

    /// Whether no bit at all is set in this word.
    fn is_zero(self) -> (r: bool)
        ensures
            r == self.bits().is_empty(),
    ;

    /// Whether bit `t` is set in this word.
    fn bit_is_set(self, t: usize) -> (r: bool)
        requires
            t < Self::spec_width(),
        ensures
            r == self.bits().contains(t as nat),
    ;

    /// This word with bit `t` set.
    fn with_bit_set(self, t: usize) -> (r: Self)
        requires
            t < Self::spec_width(),
        ensures
            r.bits() == self.bits().insert(t as nat),
    ;

    /// This word with bit `t` cleared.
    fn with_bit_cleared(self, t: usize) -> (r: Self)
        requires
            t < Self::spec_width(),
        ensures
            r.bits() == self.bits().remove(t as nat),
    ;

    /// The bitwise OR of two words.
    fn or_with(self, other: Self) -> (r: Self)
        ensures
            r.bits() == self.bits().union(other.bits()),
    ;

    /// Count the number of bits set in this word, by scanning every
    /// position below the width.
    fn num_of_high_bits(self) -> (n: usize)
        ensures
            n == self.bits().len(),
    {
        proof {
            Self::lemma_width_facts();
            self.lemma_bits_below_width();
            assert(self.bits() <= Set::<nat>::range(0, Self::spec_width()));
            vstd::set_lib::range_set_properties::<nat>(0, Self::spec_width());
            vstd::set_lib::lemma_set_subset_finite(
                Set::<nat>::range(0, Self::spec_width()),
                self.bits(),
            );
            vstd::set_lib::range_set_properties::<nat>(0, 0);
            assert(self.bits().intersect(Set::<nat>::range(0, 0)) =~= Set::<nat>::empty());
        }
        let width = Self::width();
        let mut n: usize = 0;
        let mut t: usize = 0;
        while t < width
            invariant
                t <= width,
                width == Self::spec_width(),
                self.bits().finite(),
                forall|b: nat| self.bits().contains(b) ==> b < Self::spec_width(),
                n == self.bits().intersect(Set::<nat>::range(0, t as nat)).len(),
                n <= t,
            decreases width - t,
        {
            proof {
                vstd::set_lib::range_set_properties::<nat>(0, t as nat);
                vstd::set_lib::lemma_set_subset_finite(
                    self.bits(),
                    self.bits().intersect(Set::<nat>::range(0, t as nat)),
                );
                if self.bits().contains(t as nat) {
                    assert(self.bits().intersect(Set::<nat>::range(0, (t + 1) as nat))
                        =~= self.bits().intersect(Set::<nat>::range(0, t as nat)).insert(
                            t as nat,
                        ));
                } else {
                    assert(self.bits().intersect(Set::<nat>::range(0, (t + 1) as nat))
                        =~= self.bits().intersect(Set::<nat>::range(0, t as nat)));
                }
            }
            if self.bit_is_set(t) {
                n = n + 1;
            }
            t = t + 1;
        }
        proof {
            assert(self.bits().intersect(Set::<nat>::range(0, width as nat)) =~= self.bits());
        }
        n
    }
}

impl Storage for u64 {
    open spec fn bits(self) -> Set<nat> {
        Set::new(|t: nat| u64_bit(self, t))
    }

    open spec fn spec_width() -> nat {
        64
    }

    proof fn lemma_width_facts() {
        assert(Self::spec_width() == 64);
        assert(usize::MAX == u32::MAX || usize::MAX == u64::MAX);
        assert((usize::MAX as nat + 1) % 64 == 0);
    }

    proof fn lemma_bits_below_width(self) {
        assert forall|t: nat| self.bits().contains(t) implies t < Self::spec_width() by {
            assert(u64_bit(self, t));
        }
    }

    fn width() -> (w: usize) {
        64
    }

    fn zero() -> (r: u64) {
        proof {
            assert(forall|t: u64| t < 64 ==> #[trigger] ((0u64 >> t) & 1u64) == 0u64)
                by (bit_vector);
            assert(Set::new(|t: nat| u64_bit(0u64, t)) =~= Set::<nat>::empty());
        }
        0u64
    }

    fn is_zero(self) -> (r: bool) {
        proof {
            let tz = vstd::std_specs::bits::u64_trailing_zeros(self);
            if self != 0u64 {
                assert((self >> (tz as u64)) & 1u64 == 1u64);
                assert(u64_bit(self, tz as nat));
                assert(self.bits().contains(tz as nat));
            } else {
                assert(forall|t: u64| t < 64 ==> #[trigger] ((0u64 >> t) & 1u64) == 0u64)
                    by (bit_vector);
                assert(self.bits() =~= Set::<nat>::empty());
            }
        }
        self == 0
    }

    fn bit_is_set(self, t: usize) -> (r: bool) {
        (self >> (t as u64)) & 1 == 1
    }

    fn with_bit_set(self, t: usize) -> (r: u64) {
        let s = t as u64;
        let r = self | (1u64 << s);
        proof {
            let x = self;
            assert(((x | (1u64 << s)) >> s) & 1u64 == 1u64) by (bit_vector)
                requires s < 64;
            assert(forall|j: u64|
                j < 64 && j != s ==> #[trigger] (((x | (1u64 << s)) >> j) & 1u64)
                    == ((x >> j) & 1u64)) by (bit_vector)
                requires s < 64;
            assert(r.bits() =~= self.bits().insert(t as nat)) by {
                assert forall|j: nat|
                    r.bits().contains(j) <==> self.bits().insert(t as nat).contains(j)
                by {
                    if j < 64 {
                        let jj = j as u64;
                        assert(((x | (1u64 << s)) >> jj) & 1u64 == ((r >> jj) & 1u64));
                        if jj != s {
                            assert(((x | (1u64 << s)) >> jj) & 1u64 == ((x >> jj) & 1u64));
                        }
                    }
                }
            }
        }
        r
    }

    fn with_bit_cleared(self, t: usize) -> (r: u64) {
        let s = t as u64;
        let r = self & !(1u64 << s);
        proof {
            let x = self;
            assert(((x & !(1u64 << s)) >> s) & 1u64 == 0u64) by (bit_vector)
                requires s < 64;
            assert(forall|j: u64|
                j < 64 && j != s ==> #[trigger] (((x & !(1u64 << s)) >> j) & 1u64)
                    == ((x >> j) & 1u64)) by (bit_vector)
                requires s < 64;
            assert(r.bits() =~= self.bits().remove(t as nat)) by {
                assert forall|j: nat|
                    r.bits().contains(j) <==> self.bits().remove(t as nat).contains(j)
                by {
                    if j < 64 {
                        let jj = j as u64;
                        assert(((x & !(1u64 << s)) >> jj) & 1u64 == ((r >> jj) & 1u64));
                        if jj != s {
                            assert(((x & !(1u64 << s)) >> jj) & 1u64 == ((x >> jj) & 1u64));
                        }
                    }
                }
            }
        }
        r
    }

    fn or_with(self, other: u64) -> (r: u64) {
        let r = self | other;
        proof {
            let x = self;
            let y = other;
            assert(forall|j: u64|
                j < 64 ==> (#[trigger] (((x | y) >> j) & 1u64) == 1u64
                    <==> ((x >> j) & 1u64 == 1u64 || (y >> j) & 1u64 == 1u64)))
                by (bit_vector);
            assert(r.bits() =~= self.bits().union(other.bits())) by {
                assert forall|j: nat|
                    r.bits().contains(j) <==> self.bits().union(other.bits()).contains(j)
                by {
                    if j < 64 {
                        let jj = j as u64;
                        assert((((x | y) >> jj) & 1u64) == 1u64
                            <==> ((x >> jj) & 1u64 == 1u64 || (y >> jj) & 1u64 == 1u64));
                    }
                }
            }
        }
        r
    }

}

impl Storage for u8 {
    open spec fn bits(self) -> Set<nat> {
        Set::new(|t: nat| u8_bit(self, t))
    }

    open spec fn spec_width() -> nat {
        8
    }

    proof fn lemma_width_facts() {
        assert(Self::spec_width() == 8);
        assert(usize::MAX == u32::MAX || usize::MAX == u64::MAX);
        assert((usize::MAX as nat + 1) % 8 == 0);
    }

    proof fn lemma_bits_below_width(self) {
        assert forall|t: nat| self.bits().contains(t) implies t < Self::spec_width() by {
            assert(u8_bit(self, t));
        }
    }

    fn width() -> (w: usize) {
        8
    }

    fn zero() -> (r: u8) {
        proof {
            assert(forall|t: u8| t < 8 ==> #[trigger] ((0u8 >> t) & 1u8) == 0u8)
                by (bit_vector);
            assert(Set::new(|t: nat| u8_bit(0u8, t)) =~= Set::<nat>::empty());
        }
        0u8
    }

    fn is_zero(self) -> (r: bool) {
        proof {
            let tz = vstd::std_specs::bits::u8_trailing_zeros(self);
            if self != 0u8 {
                assert((self >> (tz as u8)) & 1u8 == 1u8);
                assert(u8_bit(self, tz as nat));
                assert(self.bits().contains(tz as nat));
            } else {
                assert(forall|t: u8| t < 8 ==> #[trigger] ((0u8 >> t) & 1u8) == 0u8)
                    by (bit_vector);
                assert(self.bits() =~= Set::<nat>::empty());
            }
        }
        self == 0
    }

    fn bit_is_set(self, t: usize) -> (r: bool) {
        (self >> (t as u8)) & 1 == 1
    }

    fn with_bit_set(self, t: usize) -> (r: u8) {
        let s = t as u8;
        let r = self | (1u8 << s);
        proof {
            let x = self;
            assert(((x | (1u8 << s)) >> s) & 1u8 == 1u8) by (bit_vector)
                requires s < 8;
            assert(forall|j: u8|
                j < 8 && j != s ==> #[trigger] (((x | (1u8 << s)) >> j) & 1u8)
                    == ((x >> j) & 1u8)) by (bit_vector)
                requires s < 8;
            assert(r.bits() =~= self.bits().insert(t as nat)) by {
                assert forall|j: nat|
                    r.bits().contains(j) <==> self.bits().insert(t as nat).contains(j)
                by {
                    if j < 8 {
                        let jj = j as u8;
                        assert(((x | (1u8 << s)) >> jj) & 1u8 == ((r >> jj) & 1u8));
                        if jj != s {
                            assert(((x | (1u8 << s)) >> jj) & 1u8 == ((x >> jj) & 1u8));
                        }
                    }
                }
            }
        }
        r
    }

    fn with_bit_cleared(self, t: usize) -> (r: u8) {
        let s = t as u8;
        let r = self & !(1u8 << s);
        proof {
            let x = self;
            assert(((x & !(1u8 << s)) >> s) & 1u8 == 0u8) by (bit_vector)
                requires s < 8;
            assert(forall|j: u8|
                j < 8 && j != s ==> #[trigger] (((x & !(1u8 << s)) >> j) & 1u8)
                    == ((x >> j) & 1u8)) by (bit_vector)
                requires s < 8;
            assert(r.bits() =~= self.bits().remove(t as nat)) by {
                assert forall|j: nat|
                    r.bits().contains(j) <==> self.bits().remove(t as nat).contains(j)
                by {
                    if j < 8 {
                        let jj = j as u8;
                        assert(((x & !(1u8 << s)) >> jj) & 1u8 == ((r >> jj) & 1u8));
                        if jj != s {
                            assert(((x & !(1u8 << s)) >> jj) & 1u8 == ((x >> jj) & 1u8));
                        }
                    }
                }
            }
        }
        r
    }

    fn or_with(self, other: u8) -> (r: u8) {
        let r = self | other;
        proof {
            let x = self;
            let y = other;
            assert(forall|j: u8|
                j < 8 ==> (#[trigger] (((x | y) >> j) & 1u8) == 1u8
                    <==> ((x >> j) & 1u8 == 1u8 || (y >> j) & 1u8 == 1u8)))
                by (bit_vector);
            assert(r.bits() =~= self.bits().union(other.bits())) by {
                assert forall|j: nat|
                    r.bits().contains(j) <==> self.bits().union(other.bits()).contains(j)
                by {
                    if j < 8 {
                        let jj = j as u8;
                        assert((((x | y) >> jj) & 1u8) == 1u8
                            <==> ((x >> jj) & 1u8 == 1u8 || (y >> jj) & 1u8 == 1u8));
                    }
                }
            }
        }
        r
    }

}

impl Storage for u16 {
    open spec fn bits(self) -> Set<nat> {
        Set::new(|t: nat| u16_bit(self, t))
    }

    open spec fn spec_width() -> nat {
        16
    }

    proof fn lemma_width_facts() {
        assert(Self::spec_width() == 16);
        assert(usize::MAX == u32::MAX || usize::MAX == u64::MAX);
        assert((usize::MAX as nat + 1) % 16 == 0);
    }

    proof fn lemma_bits_below_width(self) {
        assert forall|t: nat| self.bits().contains(t) implies t < Self::spec_width() by {
            assert(u16_bit(self, t));
        }
    }

    fn width() -> (w: usize) {
        16
    }

    fn zero() -> (r: u16) {
        proof {
            assert(forall|t: u16| t < 16 ==> #[trigger] ((0u16 >> t) & 1u16) == 0u16)
                by (bit_vector);
            assert(Set::new(|t: nat| u16_bit(0u16, t)) =~= Set::<nat>::empty());
        }
        0u16
    }

    fn is_zero(self) -> (r: bool) {
        proof {
            let tz = vstd::std_specs::bits::u16_trailing_zeros(self);
            if self != 0u16 {
                assert((self >> (tz as u16)) & 1u16 == 1u16);
                assert(u16_bit(self, tz as nat));
                assert(self.bits().contains(tz as nat));
            } else {
                assert(forall|t: u16| t < 16 ==> #[trigger] ((0u16 >> t) & 1u16) == 0u16)
                    by (bit_vector);
                assert(self.bits() =~= Set::<nat>::empty());
            }
        }
        self == 0
    }

    fn bit_is_set(self, t: usize) -> (r: bool) {
        (self >> (t as u16)) & 1 == 1
    }

    fn with_bit_set(self, t: usize) -> (r: u16) {
        let s = t as u16;
        let r = self | (1u16 << s);
        proof {
            let x = self;
            assert(((x | (1u16 << s)) >> s) & 1u16 == 1u16) by (bit_vector)
                requires s < 16;
            assert(forall|j: u16|
                j < 16 && j != s ==> #[trigger] (((x | (1u16 << s)) >> j) & 1u16)
                    == ((x >> j) & 1u16)) by (bit_vector)
                requires s < 16;
            assert(r.bits() =~= self.bits().insert(t as nat)) by {
                assert forall|j: nat|
                    r.bits().contains(j) <==> self.bits().insert(t as nat).contains(j)
                by {
                    if j < 16 {
                        let jj = j as u16;
                        assert(((x | (1u16 << s)) >> jj) & 1u16 == ((r >> jj) & 1u16));
                        if jj != s {
                            assert(((x | (1u16 << s)) >> jj) & 1u16 == ((x >> jj) & 1u16));
                        }
                    }
                }
            }
        }
        r
    }

    fn with_bit_cleared(self, t: usize) -> (r: u16) {
        let s = t as u16;
        let r = self & !(1u16 << s);
        proof {
            let x = self;
            assert(((x & !(1u16 << s)) >> s) & 1u16 == 0u16) by (bit_vector)
                requires s < 16;
            assert(forall|j: u16|
                j < 16 && j != s ==> #[trigger] (((x & !(1u16 << s)) >> j) & 1u16)
                    == ((x >> j) & 1u16)) by (bit_vector)
                requires s < 16;
            assert(r.bits() =~= self.bits().remove(t as nat)) by {
                assert forall|j: nat|
                    r.bits().contains(j) <==> self.bits().remove(t as nat).contains(j)
                by {
                    if j < 16 {
                        let jj = j as u16;
                        assert(((x & !(1u16 << s)) >> jj) & 1u16 == ((r >> jj) & 1u16));
                        if jj != s {
                            assert(((x & !(1u16 << s)) >> jj) & 1u16 == ((x >> jj) & 1u16));
                        }
                    }
                }
            }
        }
        r
    }

    fn or_with(self, other: u16) -> (r: u16) {
        let r = self | other;
        proof {
            let x = self;
            let y = other;
            assert(forall|j: u16|
                j < 16 ==> (#[trigger] (((x | y) >> j) & 1u16) == 1u16
                    <==> ((x >> j) & 1u16 == 1u16 || (y >> j) & 1u16 == 1u16)))
                by (bit_vector);
            assert(r.bits() =~= self.bits().union(other.bits())) by {
                assert forall|j: nat|
                    r.bits().contains(j) <==> self.bits().union(other.bits()).contains(j)
                by {
                    if j < 16 {
                        let jj = j as u16;
                        assert((((x | y) >> jj) & 1u16) == 1u16
                            <==> ((x >> jj) & 1u16 == 1u16 || (y >> jj) & 1u16 == 1u16));
                    }
                }
            }
        }
        r
    }

}

impl Storage for u32 {
    open spec fn bits(self) -> Set<nat> {
        Set::new(|t: nat| u32_bit(self, t))
    }

    open spec fn spec_width() -> nat {
        32
    }

    proof fn lemma_width_facts() {
        assert(Self::spec_width() == 32);
        assert(usize::MAX == u32::MAX || usize::MAX == u64::MAX);
        assert((usize::MAX as nat + 1) % 32 == 0);
    }

    proof fn lemma_bits_below_width(self) {
        assert forall|t: nat| self.bits().contains(t) implies t < Self::spec_width() by {
            assert(u32_bit(self, t));
        }
    }

    fn width() -> (w: usize) {
        32
    }

    fn zero() -> (r: u32) {
        proof {
            assert(forall|t: u32| t < 32 ==> #[trigger] ((0u32 >> t) & 1u32) == 0u32)
                by (bit_vector);
            assert(Set::new(|t: nat| u32_bit(0u32, t)) =~= Set::<nat>::empty());
        }
        0u32
    }

    fn is_zero(self) -> (r: bool) {
        proof {
            let tz = vstd::std_specs::bits::u32_trailing_zeros(self);
            if self != 0u32 {
                assert((self >> (tz as u32)) & 1u32 == 1u32);
                assert(u32_bit(self, tz as nat));
                assert(self.bits().contains(tz as nat));
            } else {
                assert(forall|t: u32| t < 32 ==> #[trigger] ((0u32 >> t) & 1u32) == 0u32)
                    by (bit_vector);
                assert(self.bits() =~= Set::<nat>::empty());
            }
        }
        self == 0
    }

    fn bit_is_set(self, t: usize) -> (r: bool) {
        (self >> (t as u32)) & 1 == 1
    }

    fn with_bit_set(self, t: usize) -> (r: u32) {
        let s = t as u32;
        let r = self | (1u32 << s);
        proof {
            let x = self;
            assert(((x | (1u32 << s)) >> s) & 1u32 == 1u32) by (bit_vector)
                requires s < 32;
            assert(forall|j: u32|
                j < 32 && j != s ==> #[trigger] (((x | (1u32 << s)) >> j) & 1u32)
                    == ((x >> j) & 1u32)) by (bit_vector)
                requires s < 32;
            assert(r.bits() =~= self.bits().insert(t as nat)) by {
                assert forall|j: nat|
                    r.bits().contains(j) <==> self.bits().insert(t as nat).contains(j)
                by {
                    if j < 32 {
                        let jj = j as u32;
                        assert(((x | (1u32 << s)) >> jj) & 1u32 == ((r >> jj) & 1u32));
                        if jj != s {
                            assert(((x | (1u32 << s)) >> jj) & 1u32 == ((x >> jj) & 1u32));
                        }
                    }
                }
            }
        }
        r
    }

    fn with_bit_cleared(self, t: usize) -> (r: u32) {
        let s = t as u32;
        let r = self & !(1u32 << s);
        proof {
            let x = self;
            assert(((x & !(1u32 << s)) >> s) & 1u32 == 0u32) by (bit_vector)
                requires s < 32;
            assert(forall|j: u32|
                j < 32 && j != s ==> #[trigger] (((x & !(1u32 << s)) >> j) & 1u32)
                    == ((x >> j) & 1u32)) by (bit_vector)
                requires s < 32;
            assert(r.bits() =~= self.bits().remove(t as nat)) by {
                assert forall|j: nat|
                    r.bits().contains(j) <==> self.bits().remove(t as nat).contains(j)
                by {
                    if j < 32 {
                        let jj = j as u32;
                        assert(((x & !(1u32 << s)) >> jj) & 1u32 == ((r >> jj) & 1u32));
                        if jj != s {
                            assert(((x & !(1u32 << s)) >> jj) & 1u32 == ((x >> jj) & 1u32));
                        }
                    }
                }
            }
        }
        r
    }

    fn or_with(self, other: u32) -> (r: u32) {
        let r = self | other;
        proof {
            let x = self;
            let y = other;
            assert(forall|j: u32|
                j < 32 ==> (#[trigger] (((x | y) >> j) & 1u32) == 1u32
                    <==> ((x >> j) & 1u32 == 1u32 || (y >> j) & 1u32 == 1u32)))
                by (bit_vector);
            assert(r.bits() =~= self.bits().union(other.bits())) by {
                assert forall|j: nat|
                    r.bits().contains(j) <==> self.bits().union(other.bits()).contains(j)
                by {
                    if j < 32 {
                        let jj = j as u32;
                        assert((((x | y) >> jj) & 1u32) == 1u32
                            <==> ((x >> jj) & 1u32 == 1u32 || (y >> jj) & 1u32 == 1u32));
                    }
                }
            }
        }
        r
    }

}

impl Storage for u128 {
    open spec fn bits(self) -> Set<nat> {
        Set::new(|t: nat| u128_bit(self, t))
    }

    open spec fn spec_width() -> nat {
        128
    }

    proof fn lemma_width_facts() {
        assert(Self::spec_width() == 128);
        assert(usize::MAX == u32::MAX || usize::MAX == u64::MAX);
        assert((usize::MAX as nat + 1) % 128 == 0);
    }

    proof fn lemma_bits_below_width(self) {
        assert forall|t: nat| self.bits().contains(t) implies t < Self::spec_width() by {
            assert(u128_bit(self, t));
        }
    }

    fn width() -> (w: usize) {
        128
    }

    fn zero() -> (r: u128) {
        proof {
            assert(forall|t: u128| t < 128 ==> #[trigger] ((0u128 >> t) & 1u128) == 0u128)
                by (bit_vector);
            assert(Set::new(|t: nat| u128_bit(0u128, t)) =~= Set::<nat>::empty());
        }
        0u128
    }

    fn is_zero(self) -> (r: bool) {
        proof {
            let x = self;
            if self != 0u128 {
                // A non-zero word has a set bit in its low or high half.
                assert(!(x as u64 == 0u64 && (x >> 64u128) as u64 == 0u64)) by (bit_vector)
                    requires x != 0u128;
                if x as u64 != 0u64 {
                    let lo = x as u64;
                    let tz = vstd::std_specs::bits::u64_trailing_zeros(lo);
                    assert((lo >> (tz as u64)) & 1u64 == 1u64);
                    let s = tz as u64;
                    assert(((x as u64) >> s) & 1u64 == 1u64 ==> (x >> (s as u128)) & 1u128
                        == 1u128) by (bit_vector)
                        requires s < 64;
                    assert(u128_bit(x, tz as nat));
                    assert(self.bits().contains(tz as nat));
                } else {
                    let hi = (x >> 64u128) as u64;
                    let tz = vstd::std_specs::bits::u64_trailing_zeros(hi);
                    assert((hi >> (tz as u64)) & 1u64 == 1u64);
                    let s = tz as u64;
                    let s2 = (s + 64) as u64;
                    assert((((x >> 64u128) as u64) >> s) & 1u64 == 1u64 ==> (x >> (s2 as u128))
                        & 1u128 == 1u128) by (bit_vector)
                        requires
                            s < 64,
                            s2 == s + 64,
                    ;
                    assert(u128_bit(x, s2 as nat));
                    assert(self.bits().contains(s2 as nat));
                }
            } else {
                assert(forall|t: u128| t < 128 ==> #[trigger] ((0u128 >> t) & 1u128) == 0u128)
                    by (bit_vector);
                assert(self.bits() =~= Set::<nat>::empty());
            }
        }
        self == 0
    }

    fn bit_is_set(self, t: usize) -> (r: bool) {
        (self >> (t as u128)) & 1 == 1
    }

    fn with_bit_set(self, t: usize) -> (r: u128) {
        let s = t as u128;
        let r = self | (1u128 << s);
        proof {
            let x = self;
            assert(((x | (1u128 << s)) >> s) & 1u128 == 1u128) by (bit_vector)
                requires s < 128;
            assert(forall|j: u128|
                j < 128 && j != s ==> #[trigger] (((x | (1u128 << s)) >> j) & 1u128)
                    == ((x >> j) & 1u128)) by (bit_vector)
                requires s < 128;
            assert(r.bits() =~= self.bits().insert(t as nat)) by {
                assert forall|j: nat|
                    r.bits().contains(j) <==> self.bits().insert(t as nat).contains(j)
                by {
                    if j < 128 {
                        let jj = j as u128;
                        assert(((x | (1u128 << s)) >> jj) & 1u128 == ((r >> jj) & 1u128));
                        if jj != s {
                            assert(((x | (1u128 << s)) >> jj) & 1u128 == ((x >> jj) & 1u128));
                        }
                    }
                }
            }
        }
        r
    }

    fn with_bit_cleared(self, t: usize) -> (r: u128) {
        let s = t as u128;
        let r = self & !(1u128 << s);
        proof {
            let x = self;
            assert(((x & !(1u128 << s)) >> s) & 1u128 == 0u128) by (bit_vector)
                requires s < 128;
            assert(forall|j: u128|
                j < 128 && j != s ==> #[trigger] (((x & !(1u128 << s)) >> j) & 1u128)
                    == ((x >> j) & 1u128)) by (bit_vector)
                requires s < 128;
            assert(r.bits() =~= self.bits().remove(t as nat)) by {
                assert forall|j: nat|
                    r.bits().contains(j) <==> self.bits().remove(t as nat).contains(j)
                by {
                    if j < 128 {
                        let jj = j as u128;
                        assert(((x & !(1u128 << s)) >> jj) & 1u128 == ((r >> jj) & 1u128));
                        if jj != s {
                            assert(((x & !(1u128 << s)) >> jj) & 1u128 == ((x >> jj) & 1u128));
                        }
                    }
                }
            }
        }
        r
    }

    fn or_with(self, other: u128) -> (r: u128) {
        let r = self | other;
        proof {
            let x = self;
            let y = other;
            assert(forall|j: u128|
                j < 128 ==> (#[trigger] (((x | y) >> j) & 1u128) == 1u128
                    <==> ((x >> j) & 1u128 == 1u128 || (y >> j) & 1u128 == 1u128)))
                by (bit_vector);
            assert(r.bits() =~= self.bits().union(other.bits())) by {
                assert forall|j: nat|
                    r.bits().contains(j) <==> self.bits().union(other.bits()).contains(j)
                by {
                    if j < 128 {
                        let jj = j as u128;
                        assert((((x | y) >> jj) & 1u128) == 1u128
                            <==> ((x >> jj) & 1u128 == 1u128 || (y >> jj) & 1u128 == 1u128));
                    }
                }
            }
        }
        r
    }
}

} // verus!
