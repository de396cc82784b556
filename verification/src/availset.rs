//! Sets and multisets of the digits 1..=9.
//!
//! [`AvailSet`] is a nine-bit mask recording which digits are still
//! available. [`AvailCounter`] maps each digit to a small count; a zone of
//! the board uses one to record how many of its cells could still hold each
//! digit.

use vstd::prelude::*;

use crate::Val;

verus! {

/// True when digit `d` (1..=9) is present in the nine-bit mask `m`.
pub open spec fn digit_in(m: u16, d: int) -> bool {
    1 <= d <= 9 && (m >> ((d - 1) as u16)) & 1 == 1
}

/// Number of digits in 1..=d present in mask `m`.
pub open spec fn count_upto(m: u16, d: int) -> int
    decreases d,
{
    if d <= 0 {
        0
    } else {
        count_upto(m, d - 1) + if digit_in(m, d) { 1int } else { 0int }
    }
}

/// Number of digits present in mask `m`.
pub open spec fn count_digits(m: u16) -> int {
    count_upto(m, 9)
}

/// A mask is well formed when no bit above the ninth is set.
pub open spec fn mask_wf(m: u16) -> bool {
    m < 512
}

/// A mask holding every digit up to `d` counts exactly `d` of them.
proof fn lemma_count_upto_full(m: u16, d: int)
    requires
        forall|t: int| 1 <= t <= d ==> digit_in(m, t),
    ensures
        count_upto(m, d) == if d >= 0 { d } else { 0 },
    decreases d,
{
    if d > 0 {
        lemma_count_upto_full(m, d - 1);
    }
}

proof fn lemma_count_upto_bounds(m: u16, d: int)
    ensures
        0 <= count_upto(m, d) <= if d >= 0 { d } else { 0 },
    decreases d,
{
    if d > 0 {
        lemma_count_upto_bounds(m, d - 1);
    }
}

/// Masks that agree digitwise up to `d` have the same count up to `d`.
proof fn lemma_count_upto_agree(m1: u16, m2: u16, d: int)
    requires
        forall|t: int| 1 <= t <= d ==> (digit_in(m1, t) <==> digit_in(m2, t)),
    ensures
        count_upto(m1, d) == count_upto(m2, d),
    decreases d,
{
    if d > 0 {
        lemma_count_upto_agree(m1, m2, d - 1);
    }
}

/// A present digit contributes one to every count that covers it.
proof fn lemma_count_upto_member(m: u16, a: int, d: int)
    requires
        digit_in(m, a),
        a <= d,
    ensures
        count_upto(m, d) >= 1,
    decreases d,
{
    lemma_count_upto_bounds(m, d - 1);
    if a < d {
        lemma_count_upto_member(m, a, d - 1);
    }
}

/// Two distinct present digits force a count of at least two.
proof fn lemma_count_two_members(m: u16, a: int, b: int)
    requires
        digit_in(m, a),
        digit_in(m, b),
        a < b,
    ensures
        count_digits(m) >= 2,
{
    lemma_count_two_members_upto(m, a, b, 9);
}

proof fn lemma_count_two_members_upto(m: u16, a: int, b: int, d: int)
    requires
        digit_in(m, a),
        digit_in(m, b),
        a < b,
        b <= d,
    ensures
        count_upto(m, d) >= 2,
    decreases d,
{
    if b < d {
        lemma_count_two_members_upto(m, a, b, d - 1);
    } else {
        lemma_count_upto_member(m, a, d - 1);
    }
}

/// An absent-digit count is zero; conversely a zero count means no member.
proof fn lemma_count_upto_zero(m: u16, d: int)
    ensures
        count_upto(m, d) == 0 <==> (forall|t: int| 1 <= t <= d ==> !digit_in(m, t)),
    decreases d,
{
    if d > 0 {
        lemma_count_upto_zero(m, d - 1);
        lemma_count_upto_bounds(m, d - 1);
    }
}

/// The digit count of any mask lies between zero and nine.
pub proof fn lemma_count_digits_bounds(m: u16)
    ensures
        0 <= count_digits(m) <= 9,
{
    lemma_count_upto_bounds(m, 9);
}

/// A set of available digits 1..=9, stored as a nine-bit mask.
#[derive(Clone, Copy, Debug, PartialEq, Eq, Hash, Structural)]
pub struct AvailSet(u16);

impl AvailSet {
    /// No bits above the ninth are set.
    pub closed spec fn wf(self) -> bool {
        mask_wf(self.0)
    }

    /// The raw nine-bit mask.
    pub closed spec fn mask(self) -> u16 {
        self.0
    }

    /// True when digit `d` is in the set.
    pub open spec fn has(self, d: int) -> bool {
        digit_in(self.mask(), d)
    }

    /// Number of digits in the set.
    pub open spec fn count(self) -> int {
        count_digits(self.mask())
    }

    /// Sets with the same members are equal.
    pub proof fn lemma_ext(a: AvailSet, b: AvailSet)
        requires
            a.wf(),
            b.wf(),
            forall|d: int| 1 <= d <= 9 ==> (a.has(d) <==> b.has(d)),
        ensures
            a == b,
    {
        let m1 = a.0;
        let m2 = b.0;
        assert(a.has(1) <==> b.has(1));
        assert(a.has(2) <==> b.has(2));
        assert(a.has(3) <==> b.has(3));
        assert(a.has(4) <==> b.has(4));
        assert(a.has(5) <==> b.has(5));
        assert(a.has(6) <==> b.has(6));
        assert(a.has(7) <==> b.has(7));
        assert(a.has(8) <==> b.has(8));
        assert(a.has(9) <==> b.has(9));
        assert(m1 == m2) by (bit_vector)
            requires
                m1 < 512,
                m2 < 512,
                ((m1 >> 0) & 1 == 1 <==> (m2 >> 0) & 1 == 1),
                ((m1 >> 1) & 1 == 1 <==> (m2 >> 1) & 1 == 1),
                ((m1 >> 2) & 1 == 1 <==> (m2 >> 2) & 1 == 1),
                ((m1 >> 3) & 1 == 1 <==> (m2 >> 3) & 1 == 1),
                ((m1 >> 4) & 1 == 1 <==> (m2 >> 4) & 1 == 1),
                ((m1 >> 5) & 1 == 1 <==> (m2 >> 5) & 1 == 1),
                ((m1 >> 6) & 1 == 1 <==> (m2 >> 6) & 1 == 1),
                ((m1 >> 7) & 1 == 1 <==> (m2 >> 7) & 1 == 1),
                ((m1 >> 8) & 1 == 1 <==> (m2 >> 8) & 1 == 1),
        {
        }
    }

    /// The count is between 0 and 9, and is 0 exactly on the empty set.
    pub proof fn lemma_count_facts(self)
        ensures
            0 <= self.count() <= 9,
            self.count() == 0 <==> (forall|d: int| 1 <= d <= 9 ==> !self.has(d)),
            forall|a: int, b: int| self.has(a) && self.has(b) && a != b ==> self.count() >= 2,
            forall|a: int| self.has(a) ==> self.count() >= 1,
    {
        lemma_count_upto_bounds(self.0, 9);
        lemma_count_upto_zero(self.0, 9);
        if self.count() == 0 {
            assert forall|d: int| 1 <= d <= 9 implies !self.has(d) by {
                assert(!digit_in(self.0, d));
            }
        }
        if forall|d: int| 1 <= d <= 9 ==> !self.has(d) {
            assert forall|t: int| 1 <= t <= 9 implies !digit_in(self.0, t) by {
                assert(!self.has(t));
            }
        }
        assert forall|a: int, b: int| self.has(a) && self.has(b) && a != b implies self.count() >= 2 by {
            if a < b {
                lemma_count_two_members(self.0, a, b);
            } else {
                lemma_count_two_members(self.0, b, a);
            }
        }
        assert forall|a: int| self.has(a) implies self.count() >= 1 by {
            lemma_count_upto_member(self.0, a, 9);
        }
    }

    /// Create a new AvailSet with all digits available.
    pub fn all() -> (r: AvailSet)
        ensures
            r.wf(),
            forall|d: int| 1 <= d <= 9 ==> r.has(d),
            r.count() == 9,
    {
        let r = AvailSet(0x1ff);
        proof {
            assert(forall|t: u16| t < 9 ==> (0x1ffu16 >> t) & 1 == 1) by (bit_vector);
            lemma_count_upto_full(0x1ff, 9);
        }
        r
    }

    /// Create an AvailSet with no digits available.
    pub fn none() -> (r: AvailSet)
        ensures
            r.wf(),
            forall|d: int| !r.has(d),
            r.count() == 0,
    {
        let r = AvailSet(0);
        proof {
            assert(forall|t: u16| (0u16 >> t) & 1 == 0) by (bit_vector);
            lemma_count_upto_zero(0, 9);
        }
        r
    }

    /// The set holding exactly the digit `d`.
    pub closed spec fn only_spec(d: int) -> AvailSet {
        AvailSet(1u16 << ((d - 1) as u16))
    }

    /// The singleton set of an in-range digit is well formed, holds
    /// exactly that digit, and determines it.
    pub proof fn lemma_only_spec(d: int)
        requires
            1 <= d <= 9,
        ensures
            AvailSet::only_spec(d).wf(),
            AvailSet::only_spec(d).count() == 1,
            forall|t: int| #[trigger] AvailSet::only_spec(d).has(t) <==> t == d,
    {
        let s = (d - 1) as u16;
        let m = 1u16 << s;
        assert((1u16 << s) < 512 && forall|t: u16| t < 16 ==> (((1u16 << s) >> t) & 1 == 1 <==> t
            == s)) by (bit_vector)
            requires
                s < 9,
        {
        }
        assert forall|t: int| #[trigger] digit_in(m, t) <==> t == d by {
            if 1 <= t <= 9 {
                assert((m >> ((t - 1) as u16)) & 1 == 1 <==> ((t - 1) as u16) == s);
            }
        }
        lemma_count_upto_zero(m, d - 1);
        lemma_count_upto_agree_tail(m, d);
    }

    /// Create an AvailSet containing only the given digit.
    pub fn only(val: Val) -> (r: AvailSet)
        requires
            val.wf(),
        ensures
            r.wf(),
            forall|d: int| r.has(d) <==> d == val.spec_val(),
            r.count() == 1,
            r == AvailSet::only_spec(val.spec_val()),
    {
        let s: u16 = val.val() as u16 - 1;
        let r = AvailSet(1u16 << s);
        proof {
            assert((1u16 << s) < 512 && forall|t: u16| t < 16 ==> (((1u16 << s) >> t) & 1 == 1 <==> t == s))
                by (bit_vector)
                requires
                    s < 9,
            {
            }
            lemma_count_upto_zero(r.0, val.spec_val() - 1);
            lemma_count_upto_agree_tail(r.0, val.spec_val());
        }
        r
    }

    /// True if there are no digits in the set.
    pub fn is_empty(&self) -> (r: bool)
        requires
            self.wf(),
        ensures
            r <==> self.count() == 0,
            r <==> (forall|d: int| 1 <= d <= 9 ==> !self.has(d)),
    {
        proof {
            let m = self.0;
            lemma_count_upto_zero(m, 9);
            if m == 0 {
                assert(forall|t: u16| (0u16 >> t) & 1 == 0) by (bit_vector);
                assert forall|d: int| 1 <= d <= 9 implies !self.has(d) by {
                    assert((0u16 >> ((d - 1) as u16)) & 1 == 0);
                }
                assert forall|t: int| 1 <= t <= 9 implies !digit_in(m, t) by {
                    assert(!self.has(t));
                }
            } else {
                assert((m >> 0) & 1 == 1 || (m >> 1) & 1 == 1 || (m >> 2) & 1 == 1 || (m >> 3) & 1
                    == 1 || (m >> 4) & 1 == 1 || (m >> 5) & 1 == 1 || (m >> 6) & 1 == 1 || (m >> 7)
                    & 1 == 1 || (m >> 8) & 1 == 1) by (bit_vector)
                    requires
                        m < 512,
                        m != 0,
                {
                }
                let w: int = if digit_in(m, 1) {
                    1
                } else if digit_in(m, 2) {
                    2
                } else if digit_in(m, 3) {
                    3
                } else if digit_in(m, 4) {
                    4
                } else if digit_in(m, 5) {
                    5
                } else if digit_in(m, 6) {
                    6
                } else if digit_in(m, 7) {
                    7
                } else if digit_in(m, 8) {
                    8
                } else {
                    9
                };
                assert(digit_in(m, w));
                lemma_count_upto_member(m, w, 9);
                assert(self.has(w));
            }
        }
        self.0 == 0
    }

    /// True if the set contains exactly one digit.
    pub fn is_single(&self) -> (r: bool)
        requires
            self.wf(),
        ensures
            r <==> self.count() == 1,
    {
        self.len() == 1
    }

    /// If there is exactly one digit in the set, return it.
    pub fn get_single(&self) -> (r: Option<Val>)
        requires
            self.wf(),
        ensures
            match r {
                Some(v) => self.count() == 1 && v.wf() && self.has(v.spec_val()),
                None => self.count() != 1,
            },
            self.count() == 1 ==> r is Some,
    {
        if !self.is_single() {
            return None;
        }
        let mut d: u8 = 1;
        while d <= 9
            invariant
                self.wf(),
                self.count() == 1,
                1 <= d <= 10,
                forall|t: int| 1 <= t < d ==> !self.has(t),
            decreases 10 - d,
        {
            if self.contains(Val::new(d)) {
                return Some(Val::new(d));
            }
            d = d + 1;
        }
        proof {
            assert forall|t: int| 1 <= t <= 9 implies !digit_in(self.0, t) by {
                assert(!self.has(t));
            }
            lemma_count_upto_zero(self.0, 9);
            assert(false);
        }
        None
    }

    /// Add the given digit to the set. Return true if the digit was not in
    /// the set previously.
    pub fn add(&mut self, val: Val) -> (r: bool)
        requires
            old(self).wf(),
            val.wf(),
        ensures
            final(self).wf(),
            r <==> !old(self).has(val.spec_val()),
            forall|d: int| final(self).has(d) <==> old(self).has(d) || d == val.spec_val(),
            final(self).count() == old(self).count() + if r {
                1int
            } else {
                0int
            },
    {
        let had = self.contains(val);
        let s: u16 = val.val() as u16 - 1;
        let m = self.0;
        proof {
            assert((m | (1u16 << s)) < 512 && forall|t: u16| t < 16 ==> (((m | (1u16 << s)) >> t) & 1
                == 1 <==> ((m >> t) & 1 == 1 || t == s))) by (bit_vector)
                requires
                    s < 9,
                    m < 512,
            {
            }
        }
        self.0 = m | (1u16 << s);
        proof {
            let v = val.spec_val();
            lemma_count_upto_agree(old(self).0, self.0, v - 1);
            lemma_count_upto_agree_shifted(old(self).0, self.0, v);
        }
        !had
    }

    /// Remove the given digit from the set. Return true if the digit was in
    /// the set previously.
    pub fn remove(&mut self, val: Val) -> (r: bool)
        requires
            old(self).wf(),
            val.wf(),
        ensures
            final(self).wf(),
            r <==> old(self).has(val.spec_val()),
            forall|d: int| final(self).has(d) <==> old(self).has(d) && d != val.spec_val(),
            final(self).count() == old(self).count() - if r { 1int } else { 0int },
    {
        let had = self.contains(val);
        let s: u16 = val.val() as u16 - 1;
        let m = self.0;
        proof {
            assert((m & !(1u16 << s)) < 512 && forall|t: u16| t < 16 ==> (((m & !(1u16 << s)) >> t)
                & 1 == 1 <==> ((m >> t) & 1 == 1 && t != s))) by (bit_vector)
                requires
                    s < 9,
                    m < 512,
            {
            }
        }
        self.0 = m & !(1u16 << s);
        proof {
            let v = val.spec_val();
            lemma_count_upto_agree(old(self).0, self.0, v - 1);
            lemma_count_upto_agree_shifted(old(self).0, self.0, v);
        }
        had
    }

    /// True if the set contains the given digit.
    pub fn contains(&self, val: Val) -> (r: bool)
        requires
            self.wf(),
            val.wf(),
        ensures
            r <==> self.has(val.spec_val()),
    {
        let s: u16 = val.val() as u16 - 1;
        let m = self.0;
        proof {
            assert((m & (1u16 << s) != 0) <==> (m >> s) & 1 == 1) by (bit_vector)
                requires
                    s < 16,
            {
            }
        }
        m & (1u16 << s) != 0
    }

    /// Number of digits in this set.
    pub fn len(&self) -> (r: usize)
        requires
            self.wf(),
        ensures
            r == self.count(),
    {
        proof {
            lemma_count_upto_bounds(self.0, 9);
        }
        let mut n: usize = 0;
        let mut d: u8 = 1;
        while d <= 9
            invariant
                self.wf(),
                1 <= d <= 10,
                n == count_upto(self.0, d - 1),
                n <= 9,
            decreases 10 - d,
        {
            proof {
                lemma_count_upto_bounds(self.0, d - 1);
            }
            if self.contains(Val::new(d)) {
                n = n + 1;
            }
            d = d + 1;
        }
        n
    }

    /// The set of digits in `self` but not in `other`.
    pub fn difference(self, other: AvailSet) -> (r: AvailSet)
        requires
            self.wf(),
            other.wf(),
        ensures
            r.wf(),
            forall|d: int| r.has(d) <==> self.has(d) && !other.has(d),
    {
        let m1 = self.0;
        let m2 = other.0;
        proof {
            assert((m1 & !m2) < 512 && forall|t: u16| t < 16 ==> (((m1 & !m2) >> t) & 1 == 1 <==> (
            (m1 >> t) & 1 == 1 && !((m2 >> t) & 1 == 1)))) by (bit_vector)
                requires
                    m1 < 512,
            {
            }
        }
        AvailSet(m1 & !m2)
    }

    /// The set of digits in `self` or in `other`.
    pub fn union(self, other: AvailSet) -> (r: AvailSet)
        requires
            self.wf(),
            other.wf(),
        ensures
            r.wf(),
            forall|d: int| r.has(d) <==> self.has(d) || other.has(d),
    {
        let m1 = self.0;
        let m2 = other.0;
        proof {
            assert((m1 | m2) < 512 && forall|t: u16| t < 16 ==> (((m1 | m2) >> t) & 1 == 1 <==> ((m1
                >> t) & 1 == 1 || (m2 >> t) & 1 == 1))) by (bit_vector)
                requires
                    m1 < 512,
                    m2 < 512,
            {
            }
        }
        AvailSet(m1 | m2)
    }

    /// The set of digits in both `self` and `other`.
    pub fn intersect(self, other: AvailSet) -> (r: AvailSet)
        requires
            self.wf(),
            other.wf(),
        ensures
            r.wf(),
            forall|d: int| r.has(d) <==> self.has(d) && other.has(d),
    {
        let m1 = self.0;
        let m2 = other.0;
        proof {
            assert((m1 & m2) < 512 && forall|t: u16| t < 16 ==> (((m1 & m2) >> t) & 1 == 1 <==> ((m1
                >> t) & 1 == 1 && (m2 >> t) & 1 == 1))) by (bit_vector)
                requires
                    m1 < 512,
            {
            }
        }
        AvailSet(m1 & m2)
    }

    /// Remove every digit for which the predicate returns false, visiting
    /// each digit once.
    pub fn retain<F: Fn(Val) -> bool>(&mut self, f: F)
        requires
            old(self).wf(),
            forall|v: Val| v.wf() ==> #[trigger] f.requires((v,)),
        ensures
            final(self).wf(),
            forall|d: int| final(self).has(d) ==> old(self).has(d),
            forall|v: Val|
                v.wf() && old(self).has(v.spec_val()) ==> exists|b: bool|
                    #[trigger] f.ensures((v,), b) && (final(self).has(v.spec_val()) <==> b),
    {
        let mut d: u8 = 1;
        while d <= 9
            invariant
                self.wf(),
                1 <= d <= 10,
                forall|v: Val| v.wf() ==> #[trigger] f.requires((v,)),
                forall|t: int| d <= t <= 9 ==> (self.has(t) <==> old(self).has(t)),
                forall|t: int| self.has(t) ==> old(self).has(t),
                forall|v: Val|
                    v.wf() && v.spec_val() < d && old(self).has(v.spec_val()) ==> exists|b: bool|
                        #[trigger] f.ensures((v,), b) && (self.has(v.spec_val()) <==> b),
            decreases 10 - d,
        {
            let vd = Val::new(d);
            if self.contains(vd) {
                let keep = f(vd);
                if !keep {
                    self.remove(vd);
                }
                proof {
                    assert forall|v: Val|
                        v.wf() && v.spec_val() < d + 1 && old(self).has(
                            v.spec_val(),
                        ) implies exists|b: bool|
                        #[trigger] f.ensures((v,), b) && (self.has(v.spec_val()) <==> b) by {
                        if v.spec_val() == d {
                            Val::lemma_val_injective(v, vd);
                            assert(f.ensures((v,), keep) && (self.has(v.spec_val()) <==> keep));
                        }
                    }
                }
            }
            d = d + 1;
        }
    }

    /// Iterator over the digits available in this set.
    pub fn iter(self) -> (r: AvailSetIter)
        requires
            self.wf(),
        ensures
            r.wf(),
            r.spec_set() == self,
            r.spec_lo() == 1,
            r.spec_hi() == 10,
            r.remaining() == self.count(),
    {
        AvailSetIter { set: self, lo: 1, hi: 10 }
    }

    /// The set of digits 1..=9 not in `self`.
    pub fn complement(self) -> (r: AvailSet)
        requires
            self.wf(),
        ensures
            r.wf(),
            forall|d: int| r.has(d) <==> 1 <= d <= 9 && !self.has(d),
    {
        let m = self.0;
        proof {
            assert(((!m) & 0x1ff) < 512 && forall|t: u16| t < 9 ==> ((((!m) & 0x1ff) >> t) & 1 == 1
                <==> !((m >> t) & 1 == 1))) by (bit_vector)
                requires
                    m < 512,
            {
            }
            assert(forall|t: u16| 9 <= t && t < 16 ==> (((!m) & 0x1ff) >> t) & 1 == 0) by (bit_vector);
        }
        AvailSet((!m) & 0x1ff)
    }
}

/// A count continues to grow by one per digit over a range of present
/// digits.
proof fn lemma_count_upto_full_from(m: u16, a: int, b: int)
    requires
        0 <= a <= b,
        forall|t: int| a < t <= b ==> digit_in(m, t),
    ensures
        count_upto(m, b) == count_upto(m, a) + (b - a),
    decreases b - a,
{
    if a < b {
        lemma_count_upto_full_from(m, a, b - 1);
    }
}

/// Taking one digit out of the full set leaves exactly the eight other
/// digits.
pub proof fn lemma_all_without_one(s: AvailSet, d: int)
    requires
        s.wf(),
        1 <= d <= 9,
        forall|t: int| #[trigger] s.has(t) <==> 1 <= t <= 9 && t != d,
    ensures
        s.count() == 8,
        !s.has(d),
{
    assert forall|t: int| 1 <= t <= d - 1 implies digit_in(s.mask(), t) by {
        assert(s.has(t));
    }
    lemma_count_upto_full(s.mask(), d - 1);
    assert(!digit_in(s.mask(), d)) by {
        assert(!s.has(d));
    }
    assert forall|t: int| d < t <= 9 implies digit_in(s.mask(), t) by {
        assert(s.has(t));
    }
    lemma_count_upto_full_from(s.mask(), d, 9);
}

/// The complement laws: complementing twice restores a set, a set joined
/// with its complement holds all nine digits, and a set meets its
/// complement in nothing.
pub proof fn lemma_complement_laws(
    s: AvailSet,
    co: AvailSet,
    coco: AvailSet,
    un: AvailSet,
    inter: AvailSet,
)
    requires
        s.wf(),
        co.wf(),
        coco.wf(),
        un.wf(),
        inter.wf(),
        forall|d: int| #[trigger] co.has(d) <==> 1 <= d <= 9 && !s.has(d),
        forall|d: int| #[trigger] coco.has(d) <==> 1 <= d <= 9 && !co.has(d),
        forall|d: int| #[trigger] un.has(d) <==> s.has(d) || co.has(d),
        forall|d: int| #[trigger] inter.has(d) <==> s.has(d) && co.has(d),
    ensures
        coco == s,
        un.count() == 9,
        inter.count() == 0,
{
    assert forall|d: int| 1 <= d <= 9 implies (coco.has(d) <==> s.has(d)) by {
        assert(co.has(d) <==> !s.has(d));
    }
    AvailSet::lemma_ext(coco, s);
    assert forall|t: int| 1 <= t <= 9 implies digit_in(un.mask(), t) by {
        assert(co.has(t) <==> !s.has(t));
        assert(un.has(t));
    }
    lemma_count_upto_full(un.mask(), 9);
    assert forall|t: int| 1 <= t <= 9 implies !digit_in(inter.mask(), t) by {
        assert(co.has(t) <==> !s.has(t));
        assert(!inter.has(t));
    }
    lemma_count_upto_zero(inter.mask(), 9);
}

/// Clearing a present bit removes exactly that digit and lowers the count
/// by one.
proof fn lemma_mask_clear(m: u16, e: int)
    requires
        1 <= e <= 9,
        digit_in(m, e),
    ensures
        forall|t: int|
            #[trigger] digit_in(m & !(1u16 << ((e - 1) as u16)), t) <==> digit_in(m, t) && t != e,
        count_digits(m & !(1u16 << ((e - 1) as u16))) == count_digits(m) - 1,
{
    let s = (e - 1) as u16;
    assert(forall|t: u16|
        t < 16 ==> (((m & !(1u16 << s)) >> t) & 1 == 1 <==> ((m >> t) & 1 == 1 && t != s)))
        by (bit_vector)
        requires
            s < 9,
    {
    }
    let m2 = m & !(1u16 << s);
    assert forall|t: int| #[trigger] digit_in(m2, t) <==> digit_in(m, t) && t != e by {
        if 1 <= t <= 9 {
            assert(((m2 >> ((t - 1) as u16)) & 1 == 1) <==> ((m >> ((t - 1) as u16)) & 1 == 1 && ((
            t - 1) as u16) != s));
        }
    }
    lemma_count_upto_agree(m, m2, e - 1);
    lemma_count_upto_agree_shifted(m, m2, e);
}

/// A mask admitting a list of pairwise distinct digits counts at least
/// that many.
pub proof fn lemma_count_distinct_members(m: u16, elems: Seq<int>)
    requires
        forall|j: int| 0 <= j < elems.len() ==> digit_in(m, #[trigger] elems[j]),
        forall|j1: int, j2: int| 0 <= j1 < j2 < elems.len() ==> elems[j1] != elems[j2],
    ensures
        count_digits(m) >= elems.len(),
    decreases elems.len(),
{
    lemma_count_digits_bounds(m);
    if elems.len() > 0 {
        let e = elems.last();
        assert(digit_in(m, e));
        let m2 = m & !(1u16 << ((e - 1) as u16));
        lemma_mask_clear(m, e);
        assert forall|j: int| 0 <= j < elems.drop_last().len() implies digit_in(
            m2,
            #[trigger] elems.drop_last()[j],
        ) by {
            assert(elems[j] != elems[elems.len() - 1]);
            assert(digit_in(m, elems[j]));
        }
        assert forall|j1: int, j2: int|
            0 <= j1 < j2 < elems.drop_last().len() implies elems.drop_last()[j1]
            != elems.drop_last()[j2] by {
            assert(elems[j1] != elems[j2]);
        }
        lemma_count_distinct_members(m2, elems.drop_last());
        assert(count_digits(m) == count_digits(m2) + 1);
    }
}

/// A positive count names a member; a count of two names two distinct
/// members.
pub proof fn lemma_members_exist(m: u16)
    ensures
        count_digits(m) >= 1 ==> exists|d: int| #[trigger] digit_in(m, d),
        count_digits(m) >= 2 ==> exists|d1: int, d2: int|
            d1 != d2 && #[trigger] digit_in(m, d1) && #[trigger] digit_in(m, d2),
{
    lemma_count_upto_zero(m, 9);
    if count_digits(m) >= 1 {
        assert(!(forall|t: int| 1 <= t <= 9 ==> !digit_in(m, t)));
        let d = choose|t: int| 1 <= t <= 9 && digit_in(m, t);
        assert(digit_in(m, d));
        if count_digits(m) >= 2 {
            let m2 = m & !(1u16 << ((d - 1) as u16));
            lemma_mask_clear(m, d);
            lemma_count_upto_zero(m2, 9);
            assert(!(forall|t: int| 1 <= t <= 9 ==> !digit_in(m2, t)));
            let d2 = choose|t: int| 1 <= t <= 9 && digit_in(m2, t);
            assert(digit_in(m2, d2) && d2 != d && digit_in(m, d2));
        }
    }
}

/// Number of digits of mask `m` in the half-open digit range `lo..hi`.
pub open spec fn count_range(m: u16, lo: int, hi: int) -> int {
    count_upto(m, hi - 1) - count_upto(m, lo - 1)
}

/// A count over a range without members is constant.
proof fn lemma_count_upto_const(m: u16, a: int, b: int)
    requires
        a <= b,
        forall|t: int| a < t <= b ==> !digit_in(m, t),
    ensures
        count_upto(m, b) == count_upto(m, a),
    decreases b - a,
{
    if a < b {
        lemma_count_upto_const(m, a, b - 1);
    }
}

/// Counts over ranges are monotone in both endpoints.
proof fn lemma_count_upto_mono(m: u16, a: int, b: int)
    requires
        a <= b,
    ensures
        count_upto(m, a) <= count_upto(m, b),
    decreases b - a,
{
    if a < b {
        lemma_count_upto_mono(m, a, b - 1);
    }
}

/// Iterator over the digits of an [`AvailSet`], smallest first, with exact
/// remaining counts from either end.
#[derive(Clone, Copy, Debug)]
pub struct AvailSetIter {
    set: AvailSet,
    lo: u8,
    hi: u8,
}

impl AvailSetIter {
    /// The digit range `lo..hi` not yet visited is valid and the set is well
    /// formed.
    pub open spec fn wf(self) -> bool {
        self.spec_set().wf() && 1 <= self.spec_lo() <= self.spec_hi() <= 10
    }

    /// The underlying set.
    pub closed spec fn spec_set(self) -> AvailSet {
        self.set
    }

    /// The lowest digit not yet visited from the front.
    pub closed spec fn spec_lo(self) -> int {
        self.lo as int
    }

    /// One past the highest digit not yet visited from the back.
    pub closed spec fn spec_hi(self) -> int {
        self.hi as int
    }

    /// Number of set members still to be yielded.
    pub open spec fn remaining(self) -> int {
        count_range(self.spec_set().mask(), self.spec_lo(), self.spec_hi())
    }

    /// Exact number of digits left to yield.
    pub fn len(&self) -> (r: usize)
        requires
            self.wf(),
        ensures
            r == self.remaining(),
    {
        proof {
            lemma_count_upto_mono(self.set.0, self.lo as int - 1, self.hi as int - 1);
            lemma_count_upto_bounds(self.set.0, self.hi as int - 1);
            lemma_count_upto_bounds(self.set.0, self.lo as int - 1);
        }
        let mut n: usize = 0;
        let mut d: u8 = self.lo;
        while d < self.hi
            invariant
                self.wf(),
                self.lo <= d <= self.hi,
                n == count_range(self.set.mask(), self.spec_lo(), d as int),
                0 <= n <= 9,
            decreases self.hi - d,
        {
            proof {
                lemma_count_upto_mono(self.set.0, self.lo as int - 1, d as int - 1);
                lemma_count_upto_bounds(self.set.0, d as int);
                lemma_count_upto_bounds(self.set.0, self.lo as int - 1);
            }
            if self.set.contains(Val::new(d)) {
                n = n + 1;
            }
            d = d + 1;
        }
        n
    }

    /// Yield the smallest digit not yet visited, if any member of the set is
    /// left in the unvisited range.
    pub fn next(&mut self) -> (r: Option<Val>)
        requires
            old(self).wf(),
        ensures
            final(self).wf(),
            final(self).spec_set() == old(self).spec_set(),
            final(self).spec_hi() == old(self).spec_hi(),
            match r {
                Some(v) => {
                    &&& v.wf()
                    &&& old(self).spec_set().has(v.spec_val())
                    &&& old(self).spec_lo() <= v.spec_val() < old(self).spec_hi()
                    &&& forall|t: int|
                        old(self).spec_lo() <= t < v.spec_val() ==> !old(self).spec_set().has(t)
                    &&& final(self).spec_lo() == v.spec_val() + 1
                    &&& final(self).remaining() == old(self).remaining() - 1
                },
                None => {
                    &&& forall|t: int|
                        old(self).spec_lo() <= t < old(self).spec_hi() ==> !old(self).spec_set().has(
                        t)
                    &&& final(self).spec_lo() == final(self).spec_hi()
                    &&& old(self).remaining() == 0
                    &&& final(self).remaining() == 0
                },
            },
    {
        while self.lo < self.hi
            invariant
                self.wf(),
                self.set == old(self).set,
                self.hi == old(self).hi,
                old(self).lo <= self.lo,
                forall|t: int| old(self).spec_lo() <= t < self.spec_lo() ==> !self.set.has(t),
            decreases self.hi - self.lo,
        {
            let d = self.lo;
            self.lo = self.lo + 1;
            if self.set.contains(Val::new(d)) {
                proof {
                    assert forall|t: int|
                        (old(self).lo as int - 1) < t <= (d as int - 1) implies !digit_in(
                        self.set.0,
                        t,
                    ) by {
                        assert(!self.set.has(t));
                    }
                    lemma_count_upto_const(self.set.0, old(self).lo as int - 1, d as int - 1);
                }
                return Some(Val::new(d));
            }
        }
        proof {
            assert forall|t: int|
                (old(self).lo as int - 1) < t <= (self.hi as int - 1) implies !digit_in(
                self.set.0,
                t,
            ) by {
                assert(!self.set.has(t));
            }
            lemma_count_upto_const(self.set.0, old(self).lo as int - 1, self.hi as int - 1);
        }
        None
    }

    /// Yield the largest digit not yet visited, if any member of the set is
    /// left in the unvisited range.
    pub fn next_back(&mut self) -> (r: Option<Val>)
        requires
            old(self).wf(),
        ensures
            final(self).wf(),
            final(self).spec_set() == old(self).spec_set(),
            final(self).spec_lo() == old(self).spec_lo(),
            match r {
                Some(v) => {
                    &&& v.wf()
                    &&& old(self).spec_set().has(v.spec_val())
                    &&& old(self).spec_lo() <= v.spec_val() < old(self).spec_hi()
                    &&& forall|t: int|
                        v.spec_val() < t < old(self).spec_hi() ==> !old(self).spec_set().has(t)
                    &&& final(self).spec_hi() == v.spec_val()
                    &&& final(self).remaining() == old(self).remaining() - 1
                },
                None => {
                    &&& forall|t: int|
                        old(self).spec_lo() <= t < old(self).spec_hi() ==> !old(self).spec_set().has(
                        t)
                    &&& final(self).spec_lo() == final(self).spec_hi()
                    &&& old(self).remaining() == 0
                    &&& final(self).remaining() == 0
                },
            },
    {
        while self.lo < self.hi
            invariant
                self.wf(),
                self.set == old(self).set,
                self.lo == old(self).lo,
                self.hi <= old(self).hi,
                forall|t: int| self.spec_hi() <= t < old(self).spec_hi() ==> !self.set.has(t),
            decreases self.hi - self.lo,
        {
            let d = self.hi - 1;
            self.hi = d;
            if self.set.contains(Val::new(d)) {
                proof {
                    assert forall|t: int| (d as int) < t <= old(self).hi as int - 1 implies !digit_in(
                        self.set.0,
                        t,
                    ) by {
                        assert(!self.set.has(t));
                    }
                    lemma_count_upto_const(self.set.0, d as int, old(self).hi as int - 1);
                }
                return Some(Val::new(d));
            }
        }
        proof {
            assert forall|t: int|
                (self.lo as int - 1) < t <= (old(self).hi as int - 1) implies !digit_in(
                self.set.0,
                t,
            ) by {
                assert(!self.set.has(t));
            }
            lemma_count_upto_const(self.set.0, self.lo as int - 1, old(self).hi as int - 1);
            assert(self.lo == self.hi);
        }
        None
    }
}

/// Digits above `v` are unaffected when only digit `v` changed below them.
proof fn lemma_count_upto_agree_tail(m: u16, v: int)
    requires
        1 <= v <= 9,
        digit_in(m, v),
        count_upto(m, v - 1) == 0,
        forall|t: int| v < t <= 9 ==> !digit_in(m, t),
    ensures
        count_digits(m) == 1,
    decreases 9 - v,
{
    lemma_count_upto_only_tail(m, v, 9);
}

proof fn lemma_count_upto_only_tail(m: u16, v: int, d: int)
    requires
        1 <= v <= d,
        digit_in(m, v),
        count_upto(m, v - 1) == 0,
        forall|t: int| v < t <= d ==> !digit_in(m, t),
    ensures
        count_upto(m, d) == 1,
    decreases d,
{
    if v < d {
        lemma_count_upto_only_tail(m, v, d - 1);
    }
}

/// Counts above a removed digit drop by exactly the removed amount.
proof fn lemma_count_upto_agree_shifted(m1: u16, m2: u16, v: int)
    requires
        1 <= v <= 9,
        count_upto(m1, v - 1) == count_upto(m2, v - 1),
        forall|t: int| v < t <= 9 ==> (digit_in(m1, t) <==> digit_in(m2, t)),
    ensures
        count_digits(m2) == count_digits(m1) + (if digit_in(m2, v) { 1int } else { 0int }) - (
        if digit_in(m1, v) {
            1int
        } else {
            0int
        }),
{
    lemma_count_upto_shifted_rec(m1, m2, v, 9);
}

proof fn lemma_count_upto_shifted_rec(m1: u16, m2: u16, v: int, d: int)
    requires
        1 <= v <= d,
        count_upto(m1, v - 1) == count_upto(m2, v - 1),
        forall|t: int| v < t <= d ==> (digit_in(m1, t) <==> digit_in(m2, t)),
    ensures
        count_upto(m2, d) == count_upto(m1, d) + (if digit_in(m2, v) { 1int } else { 0int }) - (
        if digit_in(m1, v) {
            1int
        } else {
            0int
        }),
    decreases d,
{
    if v < d {
        lemma_count_upto_shifted_rec(m1, m2, v, d - 1);
    }
}


/// Error returned when a fixed-size collection is built from a slice of the
/// wrong length.
#[derive(Clone, Copy, Debug, PartialEq, Eq, Structural)]
pub struct IncorrectSize {
    /// The length the collection requires.
    pub expected: usize,
    /// The length that was supplied.
    pub actual: usize,
}

/// A multiset over the digits 1..=9: how many of each digit is still
/// available across the cells of one zone.
#[derive(Clone, Debug, PartialEq, Eq, Hash)]
pub struct AvailCounter {
    counts: Vec<u8>,
}

impl AvailCounter {
    /// Nine counts are stored, one per digit.
    pub closed spec fn wf(self) -> bool {
        self.counts@.len() == 9
    }

    /// The count of digit `d` (1..=9).
    pub closed spec fn count_of(self, d: int) -> int {
        self.counts@[d - 1] as int
    }

    /// Create an AvailCounter with zero of every digit.
    pub fn new() -> (r: AvailCounter)
        ensures
            r.wf(),
            forall|d: int| 1 <= d <= 9 ==> r.count_of(d) == 0,
    {
        AvailCounter::with_count(0)
    }

    /// Create an AvailCounter with the given count for every digit.
    pub fn with_count(count: u8) -> (r: AvailCounter)
        ensures
            r.wf(),
            forall|d: int| 1 <= d <= 9 ==> r.count_of(d) == count,
    {
        let mut counts: Vec<u8> = Vec::new();
        let mut i: usize = 0;
        while i < 9
            invariant
                i <= 9,
                counts@.len() == i,
                forall|j: int| 0 <= j < i ==> counts@[j] == count,
            decreases 9 - i,
        {
            counts.push(count);
            i = i + 1;
        }
        AvailCounter { counts }
    }

    /// Build a counter from nine explicit per-digit counts, smallest digit
    /// first.
    pub fn from_counts(counts: Vec<u8>) -> (r: Result<AvailCounter, IncorrectSize>)
        ensures
            match r {
                Ok(c) => counts@.len() == 9 && c.wf() && forall|d: int|
                    1 <= d <= 9 ==> c.count_of(d) == counts@[d - 1],
                Err(e) => counts@.len() != 9 && e.expected == 9 && e.actual == counts@.len(),
            },
    {
        if counts.len() == 9 {
            Ok(AvailCounter { counts })
        } else {
            Err(IncorrectSize { expected: 9, actual: counts.len() })
        }
    }

    /// The count of the given digit.
    pub fn get(&self, val: Val) -> (r: u8)
        requires
            self.wf(),
            val.wf(),
        ensures
            r == self.count_of(val.spec_val()),
    {
        self.counts[val.idx()]
    }

    /// Add one of the given digit to the counter. Return the updated count.
    pub fn add(&mut self, val: Val) -> (r: u8)
        requires
            old(self).wf(),
            val.wf(),
            old(self).count_of(val.spec_val()) < 255,
        ensures
            final(self).wf(),
            r == final(self).count_of(val.spec_val()),
            final(self).count_of(val.spec_val()) == old(self).count_of(val.spec_val()) + 1,
            forall|d: int|
                1 <= d <= 9 && d != val.spec_val() ==> final(self).count_of(d) == old(
                    self,
                ).count_of(d),
    {
        let i = val.idx();
        let updated = self.counts[i] + 1;
        self.counts.set(i, updated);
        updated
    }

    /// Add every digit of the given set to the counter, once each.
    pub fn add_all(&mut self, vals: AvailSet)
        requires
            old(self).wf(),
            vals.wf(),
            forall|d: int| vals.has(d) ==> old(self).count_of(d) < 255,
        ensures
            final(self).wf(),
            forall|d: int|
                1 <= d <= 9 ==> final(self).count_of(d) == old(self).count_of(d) + if vals.has(d) {
                    1int
                } else {
                    0int
                },
    {
        let mut dd: u8 = 1;
        while dd <= 9
            invariant
                self.wf(),
                vals.wf(),
                1 <= dd <= 10,
                forall|d: int|
                    1 <= d < dd ==> self.count_of(d) == old(self).count_of(d) + if vals.has(d) {
                        1int
                    } else {
                        0int
                    },
                forall|d: int| dd <= d <= 9 ==> self.count_of(d) == old(self).count_of(d),
                forall|d: int| vals.has(d) ==> old(self).count_of(d) < 255,
            decreases 10 - dd,
        {
            let v = Val::new(dd);
            if vals.contains(v) {
                self.add(v);
            }
            dd = dd + 1;
        }
    }

    /// Remove one of the given digit from the counter. If the count was
    /// already zero, return `None` and change nothing. Otherwise return the
    /// updated count.
    pub fn remove(&mut self, val: Val) -> (r: Option<u8>)
        requires
            old(self).wf(),
            val.wf(),
        ensures
            final(self).wf(),
            match r {
                Some(n) => {
                    &&& old(self).count_of(val.spec_val()) > 0
                    &&& n == old(self).count_of(val.spec_val()) - 1
                    &&& final(self).count_of(val.spec_val()) == n
                },
                None => old(self).count_of(val.spec_val()) == 0 && *final(self) == *old(self),
            },
            forall|d: int|
                1 <= d <= 9 && d != val.spec_val() ==> final(self).count_of(d) == old(
                    self,
                ).count_of(d),
    {
        let i = val.idx();
        let count = self.counts[i];
        if count == 0 {
            proof {
                assert(self.counts@ =~= old(self).counts@);
            }
            None
        } else {
            self.counts.set(i, count - 1);
            Some(count - 1)
        }
    }

    /// Remove one of every digit except the given one, saturating at zero.
    pub fn remove_except(&mut self, val: Val)
        requires
            old(self).wf(),
            val.wf(),
        ensures
            final(self).wf(),
            final(self).count_of(val.spec_val()) == old(self).count_of(val.spec_val()),
            forall|d: int|
                1 <= d <= 9 && d != val.spec_val() ==> final(self).count_of(d) == if old(
                    self,
                ).count_of(d) > 0 {
                    old(self).count_of(d) - 1
                } else {
                    0int
                },
    {
        let keep = val.val();
        let mut dd: u8 = 1;
        while dd <= 9
            invariant
                self.wf(),
                val.wf(),
                keep == val.spec_val(),
                1 <= dd <= 10,
                self.count_of(keep as int) == old(self).count_of(keep as int),
                forall|d: int|
                    1 <= d < dd && d != keep ==> self.count_of(d) == if old(self).count_of(d) > 0 {
                        old(self).count_of(d) - 1
                    } else {
                        0int
                    },
                forall|d: int| dd <= d <= 9 ==> self.count_of(d) == old(self).count_of(d),
            decreases 10 - dd,
        {
            if dd != keep {
                self.remove(Val::new(dd));
            }
            dd = dd + 1;
        }
    }

    /// Remove one of every digit in the given set, saturating at zero.
    #[verifier::spinoff_prover]
    #[verifier::rlimit(50)]
    pub fn sub_all(&mut self, vals: AvailSet)
        requires
            old(self).wf(),
            vals.wf(),
        ensures
            final(self).wf(),
            forall|d: int|
                1 <= d <= 9 ==> #[trigger] final(self).count_of(d) == if vals.has(d) && old(
                    self,
                ).count_of(d) > 0 {
                    old(self).count_of(d) - 1
                } else {
                    old(self).count_of(d)
                },
    {
        let mut dd: u8 = 1;
        while dd <= 9
            invariant
                self.wf(),
                vals.wf(),
                1 <= dd <= 10,
                forall|d: int|
                    1 <= d < dd ==> #[trigger] self.count_of(d) == if vals.has(d) && old(
                        self,
                    ).count_of(d) > 0 {
                        old(self).count_of(d) - 1
                    } else {
                        old(self).count_of(d)
                    },
                forall|d: int| dd <= d <= 9 ==> #[trigger] self.count_of(d) == old(self).count_of(d),
            decreases 10 - dd,
        {
            let v = Val::new(dd);
            let ghost pre = *self;
            if vals.contains(v) {
                self.remove(v);
            }
            proof {
                assert(self.count_of(dd as int) == if vals.has(dd as int) && pre.count_of(
                    dd as int,
                ) > 0 {
                    pre.count_of(dd as int) - 1
                } else {
                    pre.count_of(dd as int)
                });
                assert(forall|d: int|
                    1 <= d <= 9 && d != dd ==> self.count_of(d) == pre.count_of(d));
            }
            dd = dd + 1;
        }
    }

    /// The set of digits whose count is above zero.
    pub fn avail(&self) -> (r: AvailSet)
        requires
            self.wf(),
        ensures
            r.wf(),
            forall|d: int| r.has(d) <==> 1 <= d <= 9 && self.count_of(d) > 0,
    {
        let mut avail = AvailSet::none();
        let mut dd: u8 = 1;
        while dd <= 9
            invariant
                self.wf(),
                avail.wf(),
                1 <= dd <= 10,
                forall|d: int| avail.has(d) <==> 1 <= d < dd && self.count_of(d) > 0,
            decreases 10 - dd,
        {
            let v = Val::new(dd);
            if self.get(v) > 0 {
                avail.add(v);
            }
            dd = dd + 1;
        }
        avail
    }

    /// The set of digits whose count is exactly one.
    pub fn singles(&self) -> (r: AvailSet)
        requires
            self.wf(),
        ensures
            r.wf(),
            forall|d: int| r.has(d) <==> 1 <= d <= 9 && self.count_of(d) == 1,
    {
        let mut singles = AvailSet::none();
        let mut dd: u8 = 1;
        while dd <= 9
            invariant
                self.wf(),
                singles.wf(),
                1 <= dd <= 10,
                forall|d: int| singles.has(d) <==> 1 <= d < dd && self.count_of(d) == 1,
            decreases 10 - dd,
        {
            let v = Val::new(dd);
            if self.get(v) == 1 {
                singles.add(v);
            }
            dd = dd + 1;
        }
        singles
    }

    /// Per-digit counts are never negative.
    pub proof fn lemma_count_of_nonneg(c: AvailCounter, d: int)
        ensures
            c.count_of(d) >= 0,
    {
    }

    /// An identical copy of this counter.
    pub fn duplicate(&self) -> (r: AvailCounter)
        requires
            self.wf(),
        ensures
            r.wf(),
            forall|d: int| 1 <= d <= 9 ==> r.count_of(d) == self.count_of(d),
    {
        let counts = self.counts();
        match AvailCounter::from_counts(counts) {
            Ok(c) => c,
            Err(_) => {
                proof {
                    assert(false);
                }
                AvailCounter::new()
            },
        }
    }

    /// The nine per-digit counts, smallest digit first.
    pub fn counts(&self) -> (r: Vec<u8>)
        requires
            self.wf(),
        ensures
            r@.len() == 9,
            forall|d: int| 1 <= d <= 9 ==> r@[d - 1] == self.count_of(d),
    {
        let mut out: Vec<u8> = Vec::new();
        let mut i: usize = 0;
        while i < 9
            invariant
                self.wf(),
                i <= 9,
                out@.len() == i,
                forall|j: int| 0 <= j < i ==> out@[j] == self.count_of(j + 1),
            decreases 9 - i,
        {
            out.push(self.counts[i]);
            i = i + 1;
        }
        out
    }
}

} // verus!
