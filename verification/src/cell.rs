//! The candidate set of a single cell.

use vstd::prelude::*;

verus! {

/// Whether bit `d` of `bits` is set.
spec fn has_bit(bits: u16, d: u16) -> bool {
    (bits >> d) & 1 == 1
}

/// Whether `bits` marks the digit `d` as possible.
spec fn allows(bits: u16, d: nat) -> bool {
    d < 9 && has_bit(bits, d as u16)
}

/// 1 if `s` holds `d`, else 0.
pub open spec fn indicator(s: Set<nat>, d: nat) -> nat {
    if s.contains(d) {
        1
    } else {
        0
    }
}

/// How many of the nine digits `0..9` the set `s` holds.
pub open spec fn digit_count(s: Set<nat>) -> nat {
    indicator(s, 0) + indicator(s, 1) + indicator(s, 2) + indicator(s, 3) + indicator(s, 4)
        + indicator(s, 5) + indicator(s, 6) + indicator(s, 7) + indicator(s, 8)
}

/// The set of all nine digits.
pub open spec fn all_digits() -> Set<nat> {
    Set::new(|d: nat| d < 9)
}

/// Stores all the possible numbers for this cell, one bit per digit `0..9`.
#[derive(Debug, Clone, Copy, PartialEq, Eq)]
pub struct CellState {
    possibilities: u16,
}

impl View for CellState {
    type V = Set<nat>;

    /// The digits that are still possible for the cell.
    closed spec fn view(&self) -> Set<nat> {
        Set::new(|d: nat| allows(self.possibilities, d))
    }
}

impl CellState {
    /// Only the bits of the nine digits are ever set.
    #[verifier::type_invariant]
    closed spec fn only_digit_bits(self) -> bool {
        self.possibilities < 512
    }

    /// The number of digits that are still possible.
    pub open spec fn possibility_count(self) -> nat {
        digit_count(self@)
    }

    /// A cell for which every digit is still possible.
    pub fn completely_uncertain() -> (cell: Self)
        ensures
            cell@ == all_digits(),
    {
        let cell = Self { possibilities: 0b111111111 };
        proof {
            assert forall|d: nat| d < 9 implies allows(0b111111111u16, d) by {
                let k = d as u16;
                assert(k < 9 ==> (0b111111111u16 >> k) & 1 == 1) by (bit_vector);
            }
            assert(cell@ =~= all_digits());
        }
        cell
    }

    /// A cell whose only possible digit is `number`.
    pub fn certain(number: usize) -> (cell: Self)
        requires
            number < 9,
        ensures
            cell@ == set![number as nat],
    {
        let shift = number as u16;
        let bits: u16 = 1u16 << shift;
        proof {
            assert(bits < 512) by (bit_vector)
                requires
                    shift < 9,
                    bits == 1u16 << shift,
            ;
            assert forall|d: nat| d < 9 implies (allows(bits, d) <==> d == number) by {
                let k = d as u16;
                assert(((bits >> k) & 1 == 1) <==> k == shift) by (bit_vector)
                    requires
                        shift < 9,
                        k < 9,
                        bits == 1u16 << shift,
                ;
            }
        }
        let cell = Self { possibilities: bits };
        assert(cell@ =~= set![number as nat]);
        cell
    }

    /// Removes `number` from the possible digits. Returns false if the given
    /// number was already eliminated.
    pub fn eliminate(&mut self, number: usize) -> (changed: bool)
        ensures
            final(self)@ == old(self)@.remove(number as nat),
            changed == old(self)@.contains(number as nat),
    {
        proof {
            use_type_invariant(&*self);
        }
        if number >= 9 {
            assert(self@ =~= self@.remove(number as nat));
            return false;
        }
        let shift = number as u16;
        let prev = self.possibilities;
        let next = prev & !(1u16 << shift);
        proof {
            assert(next < 512 && (next != prev <==> (prev >> shift) & 1 == 1)) by (bit_vector)
                requires
                    shift < 9,
                    prev < 512,
                    next == prev & !(1u16 << shift),
            ;
            assert forall|d: nat| d < 9 implies (allows(next, d) <==> (allows(prev, d) && d
                != number)) by {
                let k = d as u16;
                assert(((next >> k) & 1 == 1) <==> ((prev >> k) & 1 == 1 && k != shift))
                    by (bit_vector)
                    requires
                        shift < 9,
                        k < 9,
                        next == prev & !(1u16 << shift),
                ;
            }
        }
        self.possibilities = next;
        assert(self@ =~= old(self)@.remove(number as nat));
        next != prev
    }

    /// Whether `number` is still possible.
    pub fn could_contain(&self, number: usize) -> (possible: bool)
        ensures
            possible == self@.contains(number as nat),
    {
        if number >= 9 {
            return false;
        }
        let shift = number as u16;
        let bits = self.possibilities;
        assert((bits & (1u16 << shift) > 0) <==> (bits >> shift) & 1 == 1) by (bit_vector)
            requires
                shift < 9,
        ;
        bits & (1u16 << shift) > 0
    }

    /// Whether exactly one digit is still possible.
    pub fn is_certain(&self) -> (single: bool)
        ensures
            single == (self.possibility_count() == 1),
    {
        proof {
            use_type_invariant(self);
            lemma_count_of_bits(self.possibilities);
            lemma_single_bit(self.possibilities);
        }
        let bits = self.possibilities;
        bits != 0 && bits & (bits - 1) == 0
    }

    /// Whether no digit is possible any more: the cell holds a contradiction.
    pub fn is_impossible(&self) -> (none: bool)
        ensures
            none == (self.possibility_count() == 0),
            none == (self@ == Set::<nat>::empty()),
    {
        proof {
            use_type_invariant(self);
            lemma_count_of_bits(self.possibilities);
            lemma_single_bit(self.possibilities);
            if digit_count(self@) == 0 {
                assert(self@ =~= Set::<nat>::empty()) by {
                    assert forall|d: nat| !self@.contains(d) by {
                        if self@.contains(d) {
                            assert(allows(self.possibilities, d));
                            lemma_member_counts(self@, d);
                        }
                    }
                }
            }
        }
        self.possibilities == 0
    }

    /// If this cell is certain, return the number of the cell.
    pub fn get_certain(&self) -> (number: Option<usize>)
        ensures
            match number {
                Some(n) => n < 9 && self@ == set![n as nat],
                None => self.possibility_count() != 1,
            },
    {
        if self.is_certain() {
            let bits = self.possibilities;
            let zeros = bits.trailing_zeros();
            proof {
                use_type_invariant(self);
                lemma_count_of_bits(bits);
                lemma_single_bit(bits);
                vstd::std_specs::bits::axiom_u16_trailing_zeros(bits);
                let shift = zeros as u16;
                assert(shift < 9 && bits == 1u16 << shift) by (bit_vector)
                    requires
                        bits < 512,
                        bits != 0,
                        bits & ((bits - 1) as u16) == 0,
                        shift < 16,
                        (bits >> shift) & 1 == 1,
                ;
                assert forall|d: nat| d < 9 implies (allows(bits, d) <==> d == zeros) by {
                    let k = d as u16;
                    assert(((bits >> k) & 1 == 1) <==> k == shift) by (bit_vector)
                        requires
                            shift < 9,
                            k < 9,
                            bits == 1u16 << shift,
                    ;
                }
                assert(self@ =~= set![zeros as nat]);
            }
            Some(zeros as usize)
        } else {
            None
        }
    }
}

impl Default for CellState {
    /// A cell for which every digit is still possible.
    fn default() -> (cell: Self)
        ensures
            cell@ == all_digits(),
    {
        Self::completely_uncertain()
    }
}

/// 1 if bit `d` of `bits` is set, else 0.
spec fn bit_value(bits: u16, d: u16) -> nat {
    if has_bit(bits, d) {
        1
    } else {
        0
    }
}

/// The number of set bits among the nine lowest of `bits`.
spec fn bits_set(bits: u16) -> nat {
    bit_value(bits, 0) + bit_value(bits, 1) + bit_value(bits, 2) + bit_value(bits, 3) + bit_value(
        bits,
        4,
    ) + bit_value(bits, 5) + bit_value(bits, 6) + bit_value(bits, 7) + bit_value(bits, 8)
}

/// The count of the digits that `bits` marks is the number of its set bits.
proof fn lemma_count_of_bits(bits: u16)
    ensures
        digit_count(Set::new(|d: nat| allows(bits, d))) == bits_set(bits),
{
}

/// How to tell from `bits` whether none or one of its bits is set.
proof fn lemma_single_bit(bits: u16)
    by (bit_vector)
    requires
        bits < 512,
    ensures
        bits == 0 <==> bits_set(bits) == 0,
        bits != 0 ==> (bits & ((bits - 1) as u16) == 0 <==> bits_set(bits) == 1),
{
}

/// A digit that a set holds is counted.
pub proof fn lemma_member_counts(s: Set<nat>, d: nat)
    requires
        d < 9,
        s.contains(d),
    ensures
        digit_count(s) >= 1,
{
}

/// Taking a digit that a set holds out of it lowers the count by one;
/// taking out anything else leaves the count as it is.
pub proof fn lemma_count_remove(s: Set<nat>, d: nat)
    ensures
        d < 9 && s.contains(d) ==> digit_count(s.remove(d)) + 1 == digit_count(s),
        !(d < 9 && s.contains(d)) ==> digit_count(s.remove(d)) == digit_count(s),
{
    let t = s.remove(d);
    assert forall|e: nat| e != d implies indicator(t, e) == indicator(s, e) by {}
    assert(indicator(t, d) == 0);
    if d < 9 && s.contains(d) {
        assert(indicator(s, d) == 1);
        if d == 0 {
        } else if d == 1 {
        } else if d == 2 {
        } else if d == 3 {
        } else if d == 4 {
        } else if d == 5 {
        } else if d == 6 {
        } else if d == 7 {
        } else {
            assert(d == 8);
        }
    } else if d < 9 {
        assert(indicator(s, d) == 0);
    }
}

/// How many of the digits below `n` the set `s` holds.
spec fn count_below(s: Set<nat>, n: nat) -> nat
    decreases n,
{
    if n == 0 {
        0
    } else {
        count_below(s, (n - 1) as nat) + indicator(s, (n - 1) as nat)
    }
}

/// The members of `s` below `n`.
spec fn members_below(s: Set<nat>, n: nat) -> Set<nat> {
    Set::new(|d: nat| d < n && s.contains(d))
}

/// The members of `s` below `n` are as many as `count_below` says.
proof fn lemma_members_below(s: Set<nat>, n: nat)
    ensures
        members_below(s, n).finite(),
        members_below(s, n).len() == count_below(s, n),
    decreases n,
{
    if n == 0 {
        assert(members_below(s, n) =~= Set::<nat>::empty());
    } else {
        let m = (n - 1) as nat;
        lemma_members_below(s, m);
        if s.contains(m) {
            assert(members_below(s, n) =~= members_below(s, m).insert(m));
        } else {
            assert(members_below(s, n) =~= members_below(s, m));
        }
    }
}

/// The count of a set of digits is the number of its members.
pub proof fn lemma_count_is_cardinality(s: Set<nat>)
    requires
        forall|d: nat| s.contains(d) ==> d < 9,
    ensures
        s.finite(),
        s.len() == digit_count(s),
{
    lemma_members_below(s, 9);
    assert(members_below(s, 9) =~= s);
    assert(count_below(s, 9) == digit_count(s)) by {
        reveal_with_fuel(count_below, 10);
    }
}

/// The count of possible digits never exceeds nine, only digits are
/// possible, and the count is the number of possible digits.
pub proof fn lemma_possibility_count_bound(cell: CellState)
    ensures
        cell.possibility_count() <= 9,
        forall|d: nat| cell@.contains(d) ==> d < 9,
        cell@.finite(),
        cell@.len() == cell.possibility_count(),
{
    lemma_count_is_cardinality(cell@);
}

/// Eliminating a digit twice leaves the same candidates as eliminating it
/// once, and the second elimination finds nothing to change.
pub proof fn lemma_eliminate_idempotent(s: Set<nat>, d: nat)
    ensures
        s.remove(d).remove(d) == s.remove(d),
        !s.remove(d).contains(d),
{
    assert(s.remove(d).remove(d) =~= s.remove(d));
}

} // verus!
