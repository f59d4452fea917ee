use vstd::prelude::*;
use vstd::set_lib::*;

verus! {

/// The digits, out of 1 to 9, that a cell may still hold.
///
/// Bit `d - 1` of the mask stands for digit `d`. No other bit is ever set: every
/// constructor and every operation keeps the mask within the low nine bits.
#[derive(Clone, Copy, Debug, PartialEq, Eq, Hash, Structural)]
pub struct NumberSet {
    bits: u16,
}

/// The mask bit that stands for digit `d`, and 0 for anything that is no digit.
spec fn digit_mask(d: int) -> u16 {
    if d == 1 {
        0x001
    } else if d == 2 {
        0x002
    } else if d == 3 {
        0x004
    } else if d == 4 {
        0x008
    } else if d == 5 {
        0x010
    } else if d == 6 {
        0x020
    } else if d == 7 {
        0x040
    } else if d == 8 {
        0x080
    } else if d == 9 {
        0x100
    } else {
        0
    }
}

/// The digits of the game: 1 to 9.
pub open spec fn all_digits() -> Set<int> {
    Set::new(|d: int| 1 <= d <= 9)
}

/// `m` is the mask of one digit.
spec fn is_digit_mask(m: u16) -> bool {
    m == 0x001 || m == 0x002 || m == 0x004 || m == 0x008 || m == 0x010 || m == 0x020 || m == 0x040
        || m == 0x080 || m == 0x100
}

/// A bit is set in `a | b` exactly if it is set in `a` or in `b`.
proof fn lemma_or_mask(a: u16, b: u16, m: u16)
    by (bit_vector)
    ensures
        ((a | b) & m != 0) == (a & m != 0 || b & m != 0),
{
}

/// A digit's bit is set in `a & !b` exactly if it is set in `a` and not in `b`.
proof fn lemma_and_not_mask(a: u16, b: u16, m: u16)
    by (bit_vector)
    requires
        m == 0x001 || m == 0x002 || m == 0x004 || m == 0x008 || m == 0x010 || m == 0x020 || m
            == 0x040 || m == 0x080 || m == 0x100,
    ensures
        ((a & !b) & m != 0) == (a & m != 0 && b & m == 0),
{
}

/// Masks that share a digit's bit have a bit in common.
proof fn lemma_and_mask(a: u16, b: u16, m: u16)
    by (bit_vector)
    requires
        m == 0x001 || m == 0x002 || m == 0x004 || m == 0x008 || m == 0x010 || m == 0x020 || m
            == 0x040 || m == 0x080 || m == 0x100,
        a & m != 0,
        b & m != 0,
    ensures
        a & b != 0,
{
}

/// Masks of at most nine bits that have a bit in common share the bit of some digit.
proof fn lemma_common_mask(a: u16, b: u16) -> (m: u16)
    requires
        a <= 0x1ff,
        a & b != 0,
    ensures
        is_digit_mask(m),
        a & m != 0,
        b & m != 0,
{
    assert((a & 0x001 != 0 && b & 0x001 != 0) || (a & 0x002 != 0 && b & 0x002 != 0) || (a & 0x004
        != 0 && b & 0x004 != 0) || (a & 0x008 != 0 && b & 0x008 != 0) || (a & 0x010 != 0 && b
        & 0x010 != 0) || (a & 0x020 != 0 && b & 0x020 != 0) || (a & 0x040 != 0 && b & 0x040 != 0)
        || (a & 0x080 != 0 && b & 0x080 != 0) || (a & 0x100 != 0 && b & 0x100 != 0))
        by (bit_vector)
        requires
            a <= 0x1ff,
            a & b != 0,
    ;
    if a & 0x001 != 0 && b & 0x001 != 0 {
        0x001
    } else if a & 0x002 != 0 && b & 0x002 != 0 {
        0x002
    } else if a & 0x004 != 0 && b & 0x004 != 0 {
        0x004
    } else if a & 0x008 != 0 && b & 0x008 != 0 {
        0x008
    } else if a & 0x010 != 0 && b & 0x010 != 0 {
        0x010
    } else if a & 0x020 != 0 && b & 0x020 != 0 {
        0x020
    } else if a & 0x040 != 0 && b & 0x040 != 0 {
        0x040
    } else if a & 0x080 != 0 && b & 0x080 != 0 {
        0x080
    } else {
        0x100
    }
}

/// The masks of two digits have a bit in common exactly if they are the same mask.
proof fn lemma_masks_meet(m: u16, n: u16)
    by (bit_vector)
    requires
        m == 0x001 || m == 0x002 || m == 0x004 || m == 0x008 || m == 0x010 || m == 0x020 || m
            == 0x040 || m == 0x080 || m == 0x100,
        n == 0x001 || n == 0x002 || n == 0x004 || n == 0x008 || n == 0x010 || n == 0x020 || n
            == 0x040 || n == 0x080 || n == 0x100,
    ensures
        (m & n != 0) == (m == n),
{
}

/// The mask of all nine bits holds the bit of every digit.
proof fn lemma_full_mask(m: u16)
    by (bit_vector)
    requires
        m == 0x001 || m == 0x002 || m == 0x004 || m == 0x008 || m == 0x010 || m == 0x020 || m
            == 0x040 || m == 0x080 || m == 0x100,
    ensures
        0x1ffu16 & m != 0,
{
}

/// The mask without a bit holds no bit of any mask.
proof fn lemma_zero_mask(m: u16)
    by (bit_vector)
    ensures
        0u16 & m == 0,
        m & 0u16 == 0,
{
}

/// Masks of at most nine bits that agree on the bit of every digit are equal.
proof fn lemma_same_bits(a: u16, b: u16)
    by (bit_vector)
    requires
        a <= 0x1ff,
        b <= 0x1ff,
        (a & 0x001 != 0) == (b & 0x001 != 0),
        (a & 0x002 != 0) == (b & 0x002 != 0),
        (a & 0x004 != 0) == (b & 0x004 != 0),
        (a & 0x008 != 0) == (b & 0x008 != 0),
        (a & 0x010 != 0) == (b & 0x010 != 0),
        (a & 0x020 != 0) == (b & 0x020 != 0),
        (a & 0x040 != 0) == (b & 0x040 != 0),
        (a & 0x080 != 0) == (b & 0x080 != 0),
        (a & 0x100 != 0) == (b & 0x100 != 0),
    ensures
        a == b,
{
}

/// A mask of at most nine bits has exactly one bit set exactly if it is the mask of a digit.
proof fn lemma_one_bit(a: u16)
    by (bit_vector)
    requires
        a <= 0x1ff,
    ensures
        (a != 0 && a & ((a - 1) as u16) == 0) == (a == 0x001 || a == 0x002 || a == 0x004 || a == 0x008
            || a == 0x010 || a == 0x020 || a == 0x040 || a == 0x080 || a == 0x100),
{
}

/// Taking bits away, and joining masks of at most nine bits, stays within nine bits.
proof fn lemma_within_nine(a: u16, b: u16)
    by (bit_vector)
    requires
        a <= 0x1ff,
    ensures
        a & !b <= 0x1ff,
        b <= 0x1ff ==> a | b <= 0x1ff,
{
}

impl View for NumberSet {
    type V = Set<int>;

    /// The digits that the set holds.
    open spec fn view(&self) -> Set<int> {
        Set::new(|d: int| self.has(d))
    }
}

impl NumberSet {
    /// Only the low nine bits of the mask are in use.
    #[verifier::type_invariant]
    pub closed spec fn wf(self) -> bool {
        self.bits <= 0x1ff
    }

    /// Digit `d` is one of 1 to 9 and its bit is set.
    pub closed spec fn has(self, d: int) -> bool {
        1 <= d <= 9 && self.bits & digit_mask(d) != 0
    }

    /// The digit of a set that holds exactly one.
    pub open spec fn digit(self) -> int {
        self@.choose()
    }

    /// What `empty` returns.
    pub closed spec fn spec_empty() -> NumberSet {
        NumberSet { bits: 0 }
    }

    /// What `full` returns.
    pub closed spec fn spec_full() -> NumberSet {
        NumberSet { bits: 0x1ff }
    }

    /// What `singleton_for` returns.
    pub closed spec fn spec_singleton_for(digit: i8) -> NumberSet {
        NumberSet { bits: digit_mask(digit as int) }
    }

    /// The set holds exactly one digit.
    pub open spec fn spec_is_singleton(&self) -> bool {
        self@.len() == 1
    }

    /// The digit of a set that holds exactly one, and `None` for every other set.
    pub open spec fn spec_to_digit(&self) -> Option<i8> {
        if self.spec_is_singleton() {
            Some(self.digit() as i8)
        } else {
            None
        }
    }

    /// The set holds no digit.
    pub open spec fn spec_is_empty(&self) -> bool {
        self@ =~= Set::<int>::empty()
    }

    /// What `union` returns.
    pub closed spec fn spec_union(self, other: NumberSet) -> NumberSet {
        NumberSet { bits: self.bits | other.bits }
    }

    /// What `difference` returns.
    pub closed spec fn spec_difference(self, other: NumberSet) -> NumberSet {
        NumberSet { bits: self.bits & !other.bits }
    }

    /// The two sets have a digit in common.
    pub open spec fn spec_intersects(&self, other: NumberSet) -> bool {
        !self@.disjoint(other@)
    }

    /// A set holds digits only, so it is finite and has at most nine members.
    pub proof fn lemma_view_finite(self)
        ensures
            self@.finite(),
            self@.len() <= 9,
            forall|d: int| self@.contains(d) ==> 1 <= d <= 9,
    {
        lemma_int_range(1, 10);
        assert(self@.subset_of(set_int_range(1, 10)));
        lemma_len_subset(self@, set_int_range(1, 10));
    }

    /// Two valid sets that hold the same digits are the same value.
    pub proof fn lemma_view_injective(self, other: NumberSet)
        requires
            self.wf(),
            other.wf(),
            self@ == other@,
        ensures
            self == other,
    {
        assert forall|d: int| 1 <= d <= 9 implies (self.bits & digit_mask(d) != 0) == (other.bits
            & digit_mask(d) != 0) by {
            assert(self@.contains(d) == self.has(d));
            assert(other@.contains(d) == other.has(d));
        }
        assert(digit_mask(1) == 0x001 && digit_mask(2) == 0x002 && digit_mask(3) == 0x004
            && digit_mask(4) == 0x008 && digit_mask(5) == 0x010 && digit_mask(6) == 0x020
            && digit_mask(7) == 0x040 && digit_mask(8) == 0x080 && digit_mask(9) == 0x100);
        lemma_same_bits(self.bits, other.bits);
    }

    /// A set with exactly one member is the set of its `digit`, which lies in 1 to 9.
    pub proof fn lemma_singleton_digit(self)
        requires
            self.spec_is_singleton(),
        ensures
            1 <= self.digit() <= 9,
            self@ =~= set![self.digit()],
    {
        self.lemma_view_finite();
        Set::lemma_is_singleton(self@);
        let d = self.digit();
        assert(self@.contains(d));
    }

    /// A set that holds `d` and nothing else has exactly one member, and `d` is its `digit`.
    pub proof fn lemma_digit_of(self, d: int)
        requires
            self@ =~= set![d],
        ensures
            self.spec_is_singleton(),
            self.digit() == d,
            1 <= d <= 9,
    {
        assert(set![d].contains(d));
        assert(self@.contains(d));
        assert(set![d].len() == 1);
        self.lemma_view_finite();
        assert(self@.contains(self@.choose()));
    }

    /// The set whose mask is that of digit `d` holds `d` and nothing else.
    proof fn lemma_mask_view(self, d: int)
        requires
            1 <= d <= 9,
            self.bits == digit_mask(d),
        ensures
            self@ =~= set![d],
    {
        assert forall|e: int| self@.contains(e) == (e == d) by {
            if 1 <= e <= 9 {
                lemma_masks_meet(digit_mask(d), digit_mask(e));
            }
        }
    }

    /// A valid set holds exactly one digit exactly if its mask is the mask of a digit.
    proof fn lemma_singleton_bits(self)
        requires
            self.wf(),
        ensures
            self.spec_is_singleton() == is_digit_mask(self.bits),
    {
        if is_digit_mask(self.bits) {
            let d: int = if self.bits == 0x001 {
                1
            } else if self.bits == 0x002 {
                2
            } else if self.bits == 0x004 {
                3
            } else if self.bits == 0x008 {
                4
            } else if self.bits == 0x010 {
                5
            } else if self.bits == 0x020 {
                6
            } else if self.bits == 0x040 {
                7
            } else if self.bits == 0x080 {
                8
            } else {
                9
            };
            self.lemma_mask_view(d);
            self.lemma_digit_of(d);
        }
        if self.spec_is_singleton() {
            self.lemma_singleton_digit();
            let d = self.digit();
            let m = NumberSet { bits: digit_mask(d) };
            m.lemma_mask_view(d);
            self.lemma_view_injective(m);
        }
    }

    /// The set without any digit.
    #[verifier::when_used_as_spec(spec_empty)]
    pub fn empty() -> (r: NumberSet)
        ensures
            r == NumberSet::spec_empty(),
            r@ =~= Set::<int>::empty(),
    {
        proof {
            NumberSet::lemma_empty_view();
        }
        NumberSet { bits: 0 }
    }

    /// The set of all nine digits.
    #[verifier::when_used_as_spec(spec_full)]
    pub fn full() -> (r: NumberSet)
        ensures
            r == NumberSet::spec_full(),
            r@ =~= all_digits(),
    {
        proof {
            NumberSet::lemma_full_view();
        }
        NumberSet { bits: 0x1ff }
    }

    /// The set that holds `digit` and nothing else.
    #[verifier::when_used_as_spec(spec_singleton_for)]
    pub fn singleton_for(digit: i8) -> (r: NumberSet)
        requires
            1 <= digit <= 9,
        ensures
            r == NumberSet::spec_singleton_for(digit),
            r@ =~= set![digit as int],
    {
        let bits: u16 = if digit == 1 {
            0x001
        } else if digit == 2 {
            0x002
        } else if digit == 3 {
            0x004
        } else if digit == 4 {
            0x008
        } else if digit == 5 {
            0x010
        } else if digit == 6 {
            0x020
        } else if digit == 7 {
            0x040
        } else if digit == 8 {
            0x080
        } else {
            0x100
        };
        proof {
            NumberSet { bits }.lemma_mask_view(digit as int);
        }
        NumberSet { bits }
    }

    /// The nine one-digit sets, in ascending order of their digit.
    pub fn values() -> (r: [NumberSet; 9])
        ensures
            forall|k: int| 0 <= k < 9 ==> #[trigger] r[k]@ =~= set![k + 1],
    {
        [
            NumberSet::singleton_for(1),
            NumberSet::singleton_for(2),
            NumberSet::singleton_for(3),
            NumberSet::singleton_for(4),
            NumberSet::singleton_for(5),
            NumberSet::singleton_for(6),
            NumberSet::singleton_for(7),
            NumberSet::singleton_for(8),
            NumberSet::singleton_for(9),
        ]
    }

    /// Whether the set holds exactly one digit: the cell's value is then determined.
    #[verifier::when_used_as_spec(spec_is_singleton)]
    pub fn is_singleton(&self) -> (r: bool)
        ensures
            r == self.spec_is_singleton(),
    {
        proof {
            use_type_invariant(self);
            self.lemma_singleton_bits();
            lemma_one_bit(self.bits);
        }
        let b = self.bits;
        b != 0 && (b & (b - 1)) == 0
    }

    /// Whether the set holds no digit at all.
    #[verifier::when_used_as_spec(spec_is_empty)]
    pub fn is_empty(&self) -> (r: bool)
        ensures
            r == self.spec_is_empty(),
    {
        proof {
            use_type_invariant(self);
            if self.bits == 0 {
                assert forall|d: int| !self.has(d) by {
                    lemma_zero_mask(digit_mask(d));
                }
            }
            if self.spec_is_empty() {
                NumberSet::lemma_empty_view();
                self.lemma_view_injective(NumberSet::empty());
            }
        }
        self.bits == 0
    }

    /// The digits of either set.
    #[verifier::when_used_as_spec(spec_union)]
    pub fn union(self, other: NumberSet) -> (r: NumberSet)
        ensures
            r == self.spec_union(other),
            r@ =~= self@.union(other@),
    {
        proof {
            use_type_invariant(self);
            use_type_invariant(other);
            lemma_within_nine(self.bits, other.bits);
            self.lemma_union_view(other);
        }
        NumberSet { bits: self.bits | other.bits }
    }

    /// The digits of `self` that `other` does not hold.
    #[verifier::when_used_as_spec(spec_difference)]
    pub fn difference(self, other: NumberSet) -> (r: NumberSet)
        ensures
            r == self.spec_difference(other),
            r@ =~= self@.difference(other@),
    {
        proof {
            use_type_invariant(self);
            lemma_within_nine(self.bits, other.bits);
            self.lemma_difference_view(other);
        }
        NumberSet { bits: self.bits & !other.bits }
    }

    /// Whether the two sets have a digit in common.
    #[verifier::when_used_as_spec(spec_intersects)]
    pub fn intersects(&self, other: NumberSet) -> (r: bool)
        ensures
            r == self.spec_intersects(other),
    {
        proof {
            use_type_invariant(self);
            if self.bits & other.bits != 0 {
                let m = lemma_common_mask(self.bits, other.bits);
                let d: int = if m == 0x001 {
                    1
                } else if m == 0x002 {
                    2
                } else if m == 0x004 {
                    3
                } else if m == 0x008 {
                    4
                } else if m == 0x010 {
                    5
                } else if m == 0x020 {
                    6
                } else if m == 0x040 {
                    7
                } else if m == 0x080 {
                    8
                } else {
                    9
                };
                assert(self@.contains(d) && other@.contains(d));
            }
            if !self@.disjoint(other@) {
                let d = choose|d: int| self@.contains(d) && other@.contains(d);
                lemma_and_mask(self.bits, other.bits, digit_mask(d));
            }
        }
        self.bits & other.bits != 0
    }

    /// The digit of a set that holds exactly one, and `None` for every other set.
    #[verifier::when_used_as_spec(spec_to_digit)]
    pub fn to_digit(&self) -> (r: Option<i8>)
        ensures
            r == self.spec_to_digit(),
            r matches Some(d) ==> 1 <= d <= 9 && self@.contains(d as int) && self@ =~= set![
                d as int,
            ],
    {
        proof {
            use_type_invariant(self);
            self.lemma_singleton_bits();
            if is_digit_mask(self.bits) {
                self.lemma_singleton_digit();
                let d = self.digit();
                let m = NumberSet { bits: digit_mask(d) };
                m.lemma_mask_view(d);
                self.lemma_view_injective(m);
            }
        }
        if self.bits == 0x001 {
            Some(1)
        } else if self.bits == 0x002 {
            Some(2)
        } else if self.bits == 0x004 {
            Some(3)
        } else if self.bits == 0x008 {
            Some(4)
        } else if self.bits == 0x010 {
            Some(5)
        } else if self.bits == 0x020 {
            Some(6)
        } else if self.bits == 0x040 {
            Some(7)
        } else if self.bits == 0x080 {
            Some(8)
        } else if self.bits == 0x100 {
            Some(9)
        } else {
            None
        }
    }

    /// What `empty` returns holds no digit.
    pub proof fn lemma_empty_view()
        ensures
            NumberSet::spec_empty()@ =~= Set::<int>::empty(),
            NumberSet::spec_empty().wf(),
    {
        assert forall|d: int| !NumberSet::spec_empty().has(d) by {
            lemma_zero_mask(digit_mask(d));
        }
    }

    /// What `full` returns holds every digit from 1 to 9.
    pub proof fn lemma_full_view()
        ensures
            NumberSet::spec_full()@ =~= all_digits(),
            NumberSet::spec_full().wf(),
    {
        assert forall|d: int| 1 <= d <= 9 implies NumberSet::spec_full().has(d) by {
            lemma_full_mask(digit_mask(d));
        }
    }

    /// What `singleton_for` returns holds its digit and nothing else.
    pub proof fn lemma_singleton_for_view(digit: i8)
        requires
            1 <= digit <= 9,
        ensures
            NumberSet::spec_singleton_for(digit)@ =~= set![digit as int],
            NumberSet::spec_singleton_for(digit).wf(),
    {
        NumberSet::spec_singleton_for(digit).lemma_mask_view(digit as int);
    }

    /// What `union` returns holds the digits of either set.
    pub proof fn lemma_union_view(self, other: NumberSet)
        ensures
            self.spec_union(other)@ =~= self@.union(other@),
            self.wf() && other.wf() ==> self.spec_union(other).wf(),
    {
        assert forall|d: int| self.spec_union(other).has(d) == (self.has(d) || other.has(d)) by {
            lemma_or_mask(self.bits, other.bits, digit_mask(d));
        }
        if self.wf() {
            lemma_within_nine(self.bits, other.bits);
        }
    }

    /// What `difference` returns holds the digits of `self` that `other` lacks.
    pub proof fn lemma_difference_view(self, other: NumberSet)
        ensures
            self.spec_difference(other)@ =~= self@.difference(other@),
            self.wf() ==> self.spec_difference(other).wf(),
    {
        assert forall|d: int| self.spec_difference(other).has(d) == (self.has(d) && !other.has(d)) by {
            if 1 <= d <= 9 {
                lemma_and_not_mask(self.bits, other.bits, digit_mask(d));
            }
        }
        if self.wf() {
            lemma_within_nine(self.bits, other.bits);
        }
    }
}


impl core::ops::BitOr for NumberSet {
    type Output = NumberSet;

    /// `a | b` is the union of the two sets.
    fn bitor(self, rhs: NumberSet) -> (r: NumberSet) {
        self.union(rhs)
    }
}

impl vstd::std_specs::ops::BitOrSpecImpl for NumberSet {
    open spec fn obeys_bitor_spec() -> bool {
        true
    }

    open spec fn bitor_req(self, rhs: NumberSet) -> bool {
        true
    }

    open spec fn bitor_spec(self, rhs: NumberSet) -> NumberSet {
        self.spec_union(rhs)
    }
}

impl core::ops::Sub for NumberSet {
    type Output = NumberSet;

    /// `a - b` is the difference of the two sets.
    fn sub(self, rhs: NumberSet) -> (r: NumberSet) {
        self.difference(rhs)
    }
}

impl vstd::std_specs::ops::SubSpecImpl for NumberSet {
    open spec fn obeys_sub_spec() -> bool {
        true
    }

    open spec fn sub_req(self, rhs: NumberSet) -> bool {
        true
    }

    open spec fn sub_spec(self, rhs: NumberSet) -> NumberSet {
        self.spec_difference(rhs)
    }
}

/// Taking the same digits away a second time changes nothing.
pub proof fn lemma_difference_twice(x: NumberSet, y: NumberSet)
    ensures
        x.difference(y).difference(y) == x.difference(y),
{
    let a = x.bits;
    let b = y.bits;
    assert((a & !b) & !b == a & !b) by (bit_vector);
}

/// Joining a set with itself changes nothing, taking a set away from itself leaves
/// the empty set, and the set made for one digit holds exactly one.
pub proof fn lemma_set_algebra(x: NumberSet)
    ensures
        x.union(x) == x,
        x.difference(x) == NumberSet::empty(),
        forall|d: i8| 1 <= d <= 9 ==> #[trigger] NumberSet::singleton_for(d).is_singleton(),
{
    let b = x.bits;
    assert(b | b == b) by (bit_vector);
    assert(b & !b == 0) by (bit_vector);
    assert forall|d: i8| 1 <= d <= 9 implies #[trigger] NumberSet::singleton_for(
        d,
    ).is_singleton() by {
        NumberSet::lemma_singleton_for_view(d);
        NumberSet::singleton_for(d).lemma_digit_of(d as int);
    }
}

} // verus!
