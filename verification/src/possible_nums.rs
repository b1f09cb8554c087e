use vstd::prelude::*;
use crate::number::Number;

verus! {

/// True iff bit `k` of `b` is set. Bit `k` stands for the digit `k + 1`.
pub open spec fn has_bit(b: u16, k: u16) -> bool {
    b & (1u16 << k) != 0
}

/// How many of the nine digit bits of `b` are set.
pub open spec fn count9(b: u16) -> int {
    (if has_bit(b, 0) { 1int } else { 0int }) + (if has_bit(b, 1) { 1int } else { 0int })
        + (if has_bit(b, 2) { 1int } else { 0int }) + (if has_bit(b, 3) { 1int } else { 0int })
        + (if has_bit(b, 4) { 1int } else { 0int }) + (if has_bit(b, 5) { 1int } else { 0int })
        + (if has_bit(b, 6) { 1int } else { 0int }) + (if has_bit(b, 7) { 1int } else { 0int })
        + (if has_bit(b, 8) { 1int } else { 0int })
}

/// The position of the lowest bit of `b` that is set at position `k` or
/// above but below 9; or 9 if there is none.
pub open spec fn next_set(b: u16, k: int) -> int
    decreases 9 - k,
{
    if k < 0 || k >= 9 {
        9
    } else if has_bit(b, k as u16) {
        k
    } else {
        next_set(b, k + 1)
    }
}

/// The digits of `b` whose bit position is `k` or above, in ascending order.
pub open spec fn remaining_digits(b: u16, k: int) -> Seq<int>
    decreases 9 - k,
{
    if k < 0 || k >= 9 {
        Seq::empty()
    } else if has_bit(b, k as u16) {
        seq![k + 1].add(remaining_digits(b, k + 1))
    } else {
        remaining_digits(b, k + 1)
    }
}

/// A set of digits, stored in the lowest-order 9 bits: bit (d - 1) is set
/// iff digit d is a member.
#[derive(Clone, Copy, Debug, PartialEq, Eq, Hash, Structural)]
pub struct PossibleNums {
    pub bits: u16,
}

impl PossibleNums {
    /// A well-formed set uses only the nine digit bits.
    pub open spec fn wf(self) -> bool {
        self.bits < 0x200
    }

    /// Digit `n` is a member of the set.
    pub open spec fn contains(self, n: Number) -> bool {
        has_bit(self.bits, (n.as_int() - 1) as u16)
    }

    /// The set after deleting digit `n`.
    pub open spec fn spec_remove(self, n: Number) -> PossibleNums {
        PossibleNums { bits: self.bits & !(1u16 << ((n.as_int() - 1) as u16)) }
    }

    /// The set holding every digit.
    pub fn all() -> (r: PossibleNums)
        ensures
            r.bits == 0x1ffu16,
            r.wf(),
            forall|n: Number| r.contains(n),
    {
        let r = PossibleNums { bits: 0b111111111 };
        proof {
            assert forall|n: Number| r.contains(n) by {
                let k = (n.as_int() - 1) as u16;
                assert(k < 9 ==> 0x1ffu16 & (1u16 << k) != 0) by (bit_vector);
            }
        }
        r
    }

    pub fn remove(&mut self, num: Number)
        ensures
            *final(self) == old(self).spec_remove(num),
            old(self).wf() ==> final(self).wf(),
            forall|n: Number| final(self).contains(n) <==> (old(self).contains(n) && n != num),
            count9(final(self).bits) == count9(old(self).bits) - (if old(self).contains(num) {
                1int
            } else {
                0int
            }),
    {
        let k: u16 = (num.to_u8() - 1) as u16;
        self.bits &= !(1 << k);
        proof {
            let b = old(self).bits;
            assert(k < 9 ==> (b & !(1u16 << k)) < 0x200 || b >= 0x200) by (bit_vector);
            assert forall|n: Number|
                has_bit(b & !(1u16 << k), (n.as_int() - 1) as u16) <==> (has_bit(
                    b,
                    (n.as_int() - 1) as u16,
                ) && n != num) by {
                let j = (n.as_int() - 1) as u16;
                assert(j < 9 && k < 9 ==> (has_bit(b & !(1u16 << k), j) <==> (has_bit(b, j) && j
                    != k))) by (bit_vector);
                assert(n != num <==> n.as_int() != num.as_int());
            }
            assert(k < 9 ==> count9(b & !(1u16 << k)) == count9(b) - (if has_bit(b, k) {
                1int
            } else {
                0int
            })) by (bit_vector);
        }
    }

    pub fn single(&self) -> (r: Option<Number>)
        requires
            self.wf(),
        ensures
            match r {
                Some(n) => self.bits == 1u16 << ((n.as_int() - 1) as u16),
                None => forall|n: Number| self.bits != 1u16 << ((n.as_int() - 1) as u16),
            },
    {
        proof {
            assert((1u16 << 0u16) == 1 && (1u16 << 1u16) == 2 && (1u16 << 2u16) == 4 && (1u16
                << 3u16) == 8 && (1u16 << 4u16) == 16 && (1u16 << 5u16) == 32 && (1u16 << 6u16)
                == 64 && (1u16 << 7u16) == 128 && (1u16 << 8u16) == 256) by (bit_vector);
        }
        match self.bits {
            1 => Some(Number::One),
            2 => Some(Number::Two),
            4 => Some(Number::Three),
            8 => Some(Number::Four),
            16 => Some(Number::Five),
            32 => Some(Number::Six),
            64 => Some(Number::Seven),
            128 => Some(Number::Eight),
            256 => Some(Number::Nine),
            _ => None,
        }
    }

    pub fn iter(&self) -> (r: PossibleNumsIterator)
        ensures
            r.bits == self.bits,
            r.index == 0,
    {
        PossibleNumsIterator { bits: self.bits, index: 0 }
    }

    /// Consuming counterpart of `iter`.
    pub fn into_iter(self) -> (r: PossibleNumsIterator)
        ensures
            r.bits == self.bits,
            r.index == 0,
    {
        PossibleNumsIterator { bits: self.bits, index: 0 }
    }
}

/// Walks the digits of a snapshot of a `PossibleNums`, in ascending order.
#[derive(Clone, Copy, Debug, PartialEq, Eq, Structural)]
pub struct PossibleNumsIterator {
    pub bits: u16,
    pub index: u8,
}

impl PossibleNumsIterator {
    pub fn next(&mut self) -> (r: Option<Number>)
        ensures
            final(self).bits == old(self).bits,
            final(self).index >= old(self).index,
            r is Some ==> final(self).index > old(self).index,
            match r {
                Some(n) => {
                    let k = next_set(old(self).bits, old(self).index as int);
                    &&& k < 9
                    &&& n.as_int() == k + 1
                    &&& final(self).index == k + 1
                    &&& remaining_digits(old(self).bits, old(self).index as int) == seq![
                        n.as_int(),
                    ].add(remaining_digits(final(self).bits, final(self).index as int))
                },
                None => {
                    &&& next_set(old(self).bits, old(self).index as int) == 9
                    &&& remaining_digits(old(self).bits, old(self).index as int) == Seq::<
                        int,
                    >::empty()
                    &&& final(self).index == if old(self).index >= 9 {
                        old(self).index
                    } else {
                        9
                    }
                },
            },
    {
        while self.index < 9
            invariant
                self.bits == old(self).bits,
                self.index >= old(self).index,
                if old(self).index >= 9 {
                    self.index == old(self).index
                } else {
                    self.index <= 9
                },
                next_set(self.bits, old(self).index as int) == next_set(
                    self.bits,
                    self.index as int,
                ),
                remaining_digits(self.bits, old(self).index as int) == remaining_digits(
                    self.bits,
                    self.index as int,
                ),
            decreases 9 - self.index,
        {
            let k: u16 = self.index as u16;
            let mask: u16 = 1 << k;
            self.index += 1;
            if self.bits & mask != 0 {
                proof {
                    assert(has_bit(self.bits, k));
                    assert(next_set(self.bits, k as int) == k as int);
                }
                return Some(Number::from_u8_normalize(self.index));
            }
            proof {
                assert(!has_bit(self.bits, k));
                assert(next_set(self.bits, k as int) == next_set(self.bits, k as int + 1));
                assert(remaining_digits(self.bits, k as int) == remaining_digits(
                    self.bits,
                    k as int + 1,
                ));
            }
        }
        None
    }
}

/// An iterator yields at most the nine digits.
pub proof fn lemma_remaining_len(b: u16, k: int)
    ensures
        remaining_digits(b, k).len() <= if 0 <= k <= 9 {
            9 - k
        } else {
            0
        },
    decreases 9 - k,
{
    if k < 0 || k >= 9 {
    } else {
        lemma_remaining_len(b, k + 1);
    }
}

/// Every digit the iterator will still yield lies at bit `k` or above.
proof fn lemma_remaining_lower_bound(b: u16, k: int)
    ensures
        forall|i: int|
            0 <= i < remaining_digits(b, k).len() ==> #[trigger] remaining_digits(b, k)[i] >= k
                + 1,
    decreases 9 - k,
{
    if k < 0 || k >= 9 {
    } else {
        lemma_remaining_lower_bound(b, k + 1);
        let r = remaining_digits(b, k);
        let r1 = remaining_digits(b, k + 1);
        if has_bit(b, k as u16) {
            assert forall|i: int| 0 <= i < r.len() implies #[trigger] r[i] >= k + 1 by {
                if i > 0 {
                    assert(r[i] == r1[i - 1]);
                }
            }
        } else {
            assert forall|i: int| 0 <= i < r.len() implies #[trigger] r[i] >= k + 1 by {
                assert(r[i] == r1[i]);
            }
        }
    }
}

/// The digits a `PossibleNumsIterator` yields from any starting point are
/// strictly ascending, so each is yielded at most once.
pub proof fn lemma_remaining_ascending(b: u16, k: int)
    ensures
        forall|i: int, j: int|
            0 <= i < j < remaining_digits(b, k).len() ==> remaining_digits(b, k)[i]
                < remaining_digits(b, k)[j],
    decreases 9 - k,
{
    if k < 0 || k >= 9 {
    } else {
        lemma_remaining_ascending(b, k + 1);
        lemma_remaining_lower_bound(b, k + 1);
        let r = remaining_digits(b, k);
        let r1 = remaining_digits(b, k + 1);
        if has_bit(b, k as u16) {
            assert forall|i: int, j: int| 0 <= i < j < r.len() implies r[i] < r[j] by {
                assert(r[j] == r1[j - 1]);
                if i > 0 {
                    assert(r[i] == r1[i - 1]);
                }
            }
        } else {
            assert forall|i: int, j: int| 0 <= i < j < r.len() implies r[i] < r[j] by {
                assert(r[i] == r1[i] && r[j] == r1[j]);
            }
        }
    }
}

/// Deleting a digit is idempotent: a second deletion changes nothing.
pub proof fn lemma_remove_idempotent(s: PossibleNums, n: Number)
    ensures
        s.spec_remove(n).spec_remove(n) == s.spec_remove(n),
{
    let b = s.bits;
    let k = (n.as_int() - 1) as u16;
    assert((b & !(1u16 << k)) & !(1u16 << k) == b & !(1u16 << k)) by (bit_vector);
}

/// `single` answers `Some(n)` exactly on the set whose one member is `n`:
/// the bit pattern `1 << (n - 1)` is the set that contains `n` and no
/// other digit.
pub proof fn lemma_single_iff(s: PossibleNums, n: Number)
    requires
        s.wf(),
    ensures
        (s.bits == 1u16 << ((n.as_int() - 1) as u16)) <==> (forall|m: Number|
            s.contains(m) <==> m == n),
{
    let b = s.bits;
    let k = (n.as_int() - 1) as u16;
    if b == 1u16 << k {
        assert forall|m: Number| s.contains(m) <==> m == n by {
            let j = (m.as_int() - 1) as u16;
            assert(j < 9 && k < 9 ==> (has_bit(1u16 << k, j) <==> j == k)) by (bit_vector);
            assert(m == n <==> m.as_int() == n.as_int());
        }
    }
    if forall|m: Number| s.contains(m) <==> m == n {
        assert(has_bit(b, k)) by {
            assert(s.contains(n));
        }
        assert forall|j: u16| j < 9 && j != k implies !has_bit(b, j) by {
            let m = digit_of(j);
            assert((m.as_int() - 1) as u16 == j);
            assert(!s.contains(m));
        }
        assert(count9(b) == 1);
        assert(b == 1u16 << k) by (bit_vector)
            requires
                b < 0x200,
                k < 9,
                has_bit(b, k),
                count9(b) == 1,
        ;
    }
}

/// Every digit of `b1` is a digit of `b2`.
pub open spec fn subset9(b1: u16, b2: u16) -> bool {
    forall|k: u16| k < 9 && has_bit(b1, k) ==> has_bit(b2, k)
}

/// The bits of `b` after deleting every digit of `ns`, first to last.
pub open spec fn remove_all(b: u16, ns: Seq<Number>) -> u16
    decreases ns.len(),
{
    if ns.len() == 0 {
        b
    } else {
        remove_all(b & !(1u16 << ((ns[0].as_int() - 1) as u16)), ns.drop_first())
    }
}

/// The one digit of a one-digit set, if the set is one.
pub open spec fn singleton_digit(b: u16) -> Option<Number> {
    if b == 1 {
        Some(Number::One)
    } else if b == 2 {
        Some(Number::Two)
    } else if b == 4 {
        Some(Number::Three)
    } else if b == 8 {
        Some(Number::Four)
    } else if b == 16 {
        Some(Number::Five)
    } else if b == 32 {
        Some(Number::Six)
    } else if b == 64 {
        Some(Number::Seven)
    } else if b == 128 {
        Some(Number::Eight)
    } else if b == 256 {
        Some(Number::Nine)
    } else {
        None
    }
}

pub proof fn lemma_shift_values()
    ensures
        (1u16 << 0u16) == 1u16 && (1u16 << 1u16) == 2u16 && (1u16 << 2u16) == 4u16 && (1u16
            << 3u16) == 8u16 && (1u16 << 4u16) == 16u16 && (1u16 << 5u16) == 32u16 && (1u16
            << 6u16) == 64u16 && (1u16 << 7u16) == 128u16 && (1u16 << 8u16) == 256u16,
{
    assert((1u16 << 0u16) == 1u16 && (1u16 << 1u16) == 2u16 && (1u16 << 2u16) == 4u16 && (1u16
        << 3u16) == 8u16 && (1u16 << 4u16) == 16u16 && (1u16 << 5u16) == 32u16 && (1u16 << 6u16)
        == 64u16 && (1u16 << 7u16) == 128u16 && (1u16 << 8u16) == 256u16) by (bit_vector);
}

/// `singleton_digit` answers `Some(n)` exactly on the bit pattern with the
/// one bit `n - 1` set.
pub proof fn lemma_singleton_digit(b: u16)
    ensures
        match singleton_digit(b) {
            Some(n) => b == 1u16 << ((n.as_int() - 1) as u16),
            None => forall|n: Number| b != 1u16 << ((n.as_int() - 1) as u16),
        },
{
    lemma_shift_values();
}

/// Deleting digits never adds one, keeps the set well formed, and shrinks
/// the digit count exactly when it changes the set.
pub proof fn lemma_remove_all_props(b: u16, ns: Seq<Number>)
    ensures
        b < 0x200 ==> remove_all(b, ns) < 0x200,
        subset9(remove_all(b, ns), b),
        count9(remove_all(b, ns)) <= count9(b),
        remove_all(b, ns) != b ==> count9(remove_all(b, ns)) < count9(b),
    decreases ns.len(),
{
    if ns.len() == 0 {
    } else {
        let kk = (ns[0].as_int() - 1) as u16;
        let b1 = b & !(1u16 << kk);
        lemma_clear_step(b, kk);
        lemma_remove_all_props(b1, ns.drop_first());
    }
}

/// What clearing one digit bit does to the set and to its count.
proof fn lemma_clear_step(b: u16, kk: u16)
    by (bit_vector)
    requires
        kk < 9,
    ensures
        b < 0x200 ==> (b & !(1u16 << kk)) < 0x200,
        (b & !(1u16 << kk)) != b ==> b & (1u16 << kk) != 0,
        forall|k: u16|
            k < 9 && ((b & !(1u16 << kk)) & (1u16 << k) != 0) ==> b & (1u16 << k) != 0,
        count9(b & !(1u16 << kk)) == count9(b) - (if b & (1u16 << kk) != 0 {
            1int
        } else {
            0int
        }),
{
}

/// Clearing bit `kk` clears that bit and no other.
proof fn lemma_clear_bit(b: u16, kk: u16, k: u16)
    by (bit_vector)
    requires
        k < 9,
        kk < 9,
    ensures
        ((b & !(1u16 << kk)) & (1u16 << k) != 0) <==> (b & (1u16 << k) != 0 && k != kk),
{
}

/// Which digits survive `remove_all`: those of `b` that `ns` does not name.
pub proof fn lemma_remove_all_has_bit(b: u16, ns: Seq<Number>, k: u16)
    requires
        k < 9,
    ensures
        has_bit(remove_all(b, ns), k) <==> (has_bit(b, k) && !ns.contains(digit_of(k))),
    decreases ns.len(),
{
    if ns.len() == 0 {
    } else {
        let kk = (ns[0].as_int() - 1) as u16;
        let b1 = b & !(1u16 << kk);
        lemma_clear_bit(b, kk, k);
        lemma_remove_all_has_bit(b1, ns.drop_first(), k);
        assert((digit_of(k).as_int() - 1) as u16 == k);
        assert(ns[0] == digit_of(k) <==> kk == k);
        if ns.contains(digit_of(k)) {
            let i = choose|i: int| 0 <= i < ns.len() && ns[i] == digit_of(k);
            if i > 0 {
                assert(ns.drop_first()[i - 1] == digit_of(k));
                assert(ns.drop_first().contains(digit_of(k)));
            }
        }
        if ns.drop_first().contains(digit_of(k)) {
            let i = choose|i: int| 0 <= i < ns.drop_first().len() && ns.drop_first()[i]
                == digit_of(k);
            assert(ns[i + 1] == digit_of(k));
            assert(ns.contains(digit_of(k)));
        }
    }
}

/// The digit whose bit position is `k`, for `k < 9`.
pub open spec fn digit_of(k: u16) -> Number {
    if k == 0 {
        Number::One
    } else if k == 1 {
        Number::Two
    } else if k == 2 {
        Number::Three
    } else if k == 3 {
        Number::Four
    } else if k == 4 {
        Number::Five
    } else if k == 5 {
        Number::Six
    } else if k == 6 {
        Number::Seven
    } else if k == 7 {
        Number::Eight
    } else {
        Number::Nine
    }
}

} // verus!
