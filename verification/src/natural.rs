//! Natural numbers of any size.
use vstd::prelude::*;

verus! {

/// The base of the digits that a [`Natural`] is made of (2^32).
pub const LIMB_BASE: u64 = 0x1_0000_0000;

/// The weight of the digit at position `i`.
pub open spec fn weight(i: nat) -> nat
    decreases i,
{
    if i == 0 {
        1
    } else {
        LIMB_BASE as nat * weight((i - 1) as nat)
    }
}

/// The digit at position `i`: zero beyond those that are stored.
pub open spec fn limb(limbs: Seq<u32>, i: int) -> nat {
    if 0 <= i < limbs.len() {
        limbs[i] as nat
    } else {
        0
    }
}

/// The number that the lowest `n` digits make up.
pub open spec fn low_value(limbs: Seq<u32>, n: nat) -> nat
    decreases n,
{
    if n == 0 {
        0
    } else {
        low_value(limbs, (n - 1) as nat) + limb(limbs, n - 1) * weight((n - 1) as nat)
    }
}

proof fn lemma_weight_positive(i: nat)
    ensures
        weight(i) > 0,
    decreases i,
{
    if i > 0 {
        lemma_weight_positive((i - 1) as nat);
        assert(LIMB_BASE as nat * weight((i - 1) as nat) > 0) by (nonlinear_arith)
            requires
                weight((i - 1) as nat) > 0,
        ;
    }
}

proof fn lemma_low_value_bound(limbs: Seq<u32>, n: nat)
    ensures
        low_value(limbs, n) < weight(n),
    decreases n,
{
    if n > 0 {
        let m = (n - 1) as nat;
        lemma_low_value_bound(limbs, m);
        assert(low_value(limbs, m) + limb(limbs, m as int) * weight(m) < LIMB_BASE as nat * weight(
            m,
        )) by (nonlinear_arith)
            requires
                low_value(limbs, m) < weight(m),
                limb(limbs, m as int) + 1 <= LIMB_BASE,
        ;
    }
}

proof fn lemma_low_value_same(a: Seq<u32>, b: Seq<u32>, n: nat)
    requires
        forall|i: int| 0 <= i < n ==> limb(a, i) == limb(b, i),
    ensures
        low_value(a, n) == low_value(b, n),
    decreases n,
{
    if n > 0 {
        lemma_low_value_same(a, b, (n - 1) as nat);
    }
}

/// Digits beyond those that are stored add nothing.
proof fn lemma_low_value_beyond(limbs: Seq<u32>, n: nat)
    requires
        n >= limbs.len(),
    ensures
        low_value(limbs, n) == low_value(limbs, limbs.len()),
    decreases n,
{
    if n > limbs.len() {
        lemma_low_value_beyond(limbs, (n - 1) as nat);
        assert(0 * weight((n - 1) as nat) == 0);
    }
}

/// The first difference from the top decides.
proof fn lemma_low_value_order(a: Seq<u32>, b: Seq<u32>, i: nat, n: nat)
    requires
        i < n,
        limb(a, i as int) < limb(b, i as int),
        forall|j: int| i < j < n ==> limb(a, j) == limb(b, j),
    ensures
        low_value(a, n) < low_value(b, n),
    decreases n,
{
    if n == i + 1 {
        lemma_low_value_bound(a, i);
        assert(low_value(a, i) + limb(a, i as int) * weight(i) < low_value(b, i) + limb(
            b,
            i as int,
        ) * weight(i)) by (nonlinear_arith)
            requires
                low_value(a, i) < weight(i),
                limb(a, i as int) + 1 <= limb(b, i as int),
        ;
    } else {
        lemma_low_value_order(a, b, i, (n - 1) as nat);
    }
}

/// A natural number.
pub struct Natural {
    limbs: Vec<u32>,
}

impl View for Natural {
    type V = nat;

    closed spec fn view(&self) -> nat {
        low_value(self.limbs@, self.limbs@.len())
    }
}

impl Natural {
    /// The number `n`.
    pub fn from_small(n: u32) -> (result: Natural)
        ensures
            result@ == n,
    {
        let mut limbs: Vec<u32> = Vec::new();
        limbs.push(n);
        proof {
            reveal_with_fuel(low_value, 2);
            reveal_with_fuel(weight, 2);
            assert(limb(limbs@, 0) * weight(0) == n) by (nonlinear_arith)
                requires
                    weight(0) == 1,
                    limb(limbs@, 0) == n,
            ;
        }
        Natural { limbs }
    }

    /// A second copy of the number.
    pub fn copy(&self) -> (result: Natural)
        ensures
            result@ == self@,
    {
        let mut limbs: Vec<u32> = Vec::new();
        let mut i: usize = 0;
        while i < self.limbs.len()
            invariant
                i <= self.limbs.len(),
                limbs@ == self.limbs@.take(i as int),
            decreases self.limbs.len() - i,
        {
            limbs.push(self.limbs[i]);
            i += 1;
            assert(limbs@ == self.limbs@.take(i as int));
        }
        assert(limbs@ == self.limbs@);
        Natural { limbs }
    }

    /// Multiplies by `factor`, then adds `summand`.
    pub fn mul_add(&mut self, factor: u32, summand: u32)
        ensures
            final(self)@ == old(self)@ * factor + summand,
    {
        let ghost before = self.limbs@;
        let count: usize = self.limbs.len();
        let mut carry: u32 = summand;
        let mut i: usize = 0;
        proof {
            assert(summand * weight(0) == summand) by (nonlinear_arith)
                requires
                    weight(0) == 1,
            ;
            assert(low_value(before, 0) * factor == 0) by (nonlinear_arith)
                requires
                    low_value(before, 0) == 0,
            ;
        }
        while i < count
            invariant
                i <= count,
                count == before.len(),
                self.limbs@.len() == before.len(),
                forall|j: int| i <= j < count ==> self.limbs@[j] == before[j],
                low_value(self.limbs@, i as nat) + carry * weight(i as nat) == low_value(
                    before,
                    i as nat,
                ) * factor + summand,
            decreases count - i,
        {
            let digit: u32 = self.limbs[i];
            proof {
                assert(digit as u64 * factor as u64 + carry as u64 <= 0xffff_ffff * 0xffff_ffff
                    + 0xffff_ffff) by (nonlinear_arith)
                    requires
                        digit <= 0xffff_ffff,
                        factor <= 0xffff_ffff,
                        carry <= 0xffff_ffff,
                ;
            }
            let product: u64 = digit as u64 * factor as u64;
            let total: u64 = product + carry as u64;
            let low: u32 = (total % LIMB_BASE) as u32;
            let high: u32 = (total / LIMB_BASE) as u32;
            let ghost prior = self.limbs@;
            self.limbs.set(i, low);
            proof {
                lemma_low_value_same(prior, self.limbs@, i as nat);
                let w = weight(i as nat);
                assert(weight((i + 1) as nat) == LIMB_BASE as nat * w);
                assert(total == low + high * LIMB_BASE);
                assert(low * w + high * (LIMB_BASE as nat * w) == (digit * factor) * w + carry * w)
                    by (nonlinear_arith)
                    requires
                        low + high * LIMB_BASE == digit * factor + carry,
                ;
                let lb = low_value(before, i as nat);
                assert((lb + digit * w) * factor == lb * factor + (digit * factor) * w)
                    by (nonlinear_arith);
            }
            carry = high;
            i += 1;
        }
        if carry > 0 {
            let ghost prior = self.limbs@;
            self.limbs.push(carry);
            proof {
                lemma_low_value_same(prior, self.limbs@, count as nat);
            }
        } else {
            assert(carry * weight(count as nat) == 0);
        }
    }

    /// Whether the number is below `other`.
    pub fn is_below(&self, other: &Natural) -> (result: bool)
        ensures
            result == (self@ < other@),
    {
        let a: usize = self.limbs.len();
        let b: usize = other.limbs.len();
        let top: usize = if a < b {
            b
        } else {
            a
        };
        proof {
            lemma_low_value_beyond(self.limbs@, top as nat);
            lemma_low_value_beyond(other.limbs@, top as nat);
        }
        let mut i: usize = top;
        while i > 0
            invariant
                i <= top,
                a == self.limbs@.len(),
                b == other.limbs@.len(),
                self@ == low_value(self.limbs@, top as nat),
                other@ == low_value(other.limbs@, top as nat),
                forall|j: int| i <= j < top ==> limb(self.limbs@, j) == limb(other.limbs@, j),
            decreases i,
        {
            let x: u32 = if i - 1 < a {
                self.limbs[i - 1]
            } else {
                0
            };
            let y: u32 = if i - 1 < b {
                other.limbs[i - 1]
            } else {
                0
            };
            if x < y {
                proof {
                    lemma_low_value_order(self.limbs@, other.limbs@, (i - 1) as nat, top as nat);
                }
                return true;
            }
            if y < x {
                proof {
                    lemma_low_value_order(other.limbs@, self.limbs@, (i - 1) as nat, top as nat);
                }
                return false;
            }
            i -= 1;
        }
        proof {
            lemma_low_value_same(self.limbs@, other.limbs@, top as nat);
        }
        false
    }

    /// Whether the number is zero.
    pub fn is_zero(&self) -> (result: bool)
        ensures
            result == (self@ == 0),
    {
        let zero = Natural::from_small(0);
        !zero.is_below(self)
    }

    /// Subtracts `other`.
    pub fn subtract(&mut self, other: &Natural)
        requires
            other@ <= old(self)@,
        ensures
            final(self)@ == old(self)@ - other@,
    {
        let ghost before = self.limbs@;
        let count: usize = self.limbs.len();
        let others: usize = other.limbs.len();
        let mut borrow: u64 = 0;
        let mut i: usize = 0;
        while i < count
            invariant
                i <= count,
                count == before.len(),
                others == other.limbs@.len(),
                self.limbs@.len() == before.len(),
                borrow <= 1,
                forall|j: int| i <= j < count ==> self.limbs@[j] == before[j],
                low_value(self.limbs@, i as nat) + low_value(other.limbs@, i as nat) == low_value(
                    before,
                    i as nat,
                ) + borrow * weight(i as nat),
            decreases count - i,
        {
            let x: u64 = self.limbs[i] as u64;
            let y: u64 = if i < others {
                other.limbs[i] as u64
            } else {
                0
            };
            let taken: u64 = y + borrow;
            let next: u64 = if x < taken {
                1
            } else {
                0
            };
            let rest: u32 = (x + next * LIMB_BASE - taken) as u32;
            let ghost prior = self.limbs@;
            self.limbs.set(i, rest);
            proof {
                lemma_low_value_same(prior, self.limbs@, i as nat);
                let w = weight(i as nat);
                assert(rest * w + y * w + borrow * w == x * w + next * (LIMB_BASE as nat * w))
                    by (nonlinear_arith)
                    requires
                        rest + y + borrow == x + next * LIMB_BASE,
                ;
            }
            borrow = next;
            i += 1;
        }
        proof {
            // What `other` holds beyond the digits of the number is zero, or it would be greater.
            let n = count as nat;
            lemma_low_value_bound(self.limbs@, n);
            lemma_low_value_whole(other.limbs@, n);
            assert(borrow * weight(n) == 0 || borrow * weight(n) == weight(n)) by (nonlinear_arith)
                requires
                    borrow == 0 || borrow == 1,
            ;
            lemma_low_value_cut(other.limbs@, n);
            if low_value(other.limbs@, n) != other@ {
                lemma_low_value_bound(before, n);
            }
        }
    }

    /// Divides by `divisor` and returns the remainder.
    pub fn divide(&mut self, divisor: u32) -> (rest: u32)
        requires
            divisor > 0,
        ensures
            old(self)@ == final(self)@ * divisor + rest,
            rest < divisor,
    {
        let ghost before = self.limbs@;
        let count: usize = self.limbs.len();
        let mut rest: u32 = 0;
        let mut i: usize = count;
        proof {
            assert(high_value(before, count as nat, count as nat) == 0);
        }
        while i > 0
            invariant
                i <= count,
                divisor > 0,
                rest < divisor,
                count == before.len(),
                self.limbs@.len() == before.len(),
                forall|j: int| 0 <= j < i ==> self.limbs@[j] == before[j],
                high_value(before, i as nat, count as nat) == high_value(
                    self.limbs@,
                    i as nat,
                    count as nat,
                ) * divisor + rest * weight(i as nat),
            decreases i,
        {
            i -= 1;
            proof {
                assert(rest as u64 * LIMB_BASE + 0xffff_ffff <= 0xffff_ffff_ffff_ffff)
                    by (nonlinear_arith)
                    requires
                        rest <= 0xffff_fffe,
                ;
            }
            let dividend: u64 = rest as u64 * LIMB_BASE + self.limbs[i] as u64;
            let quotient: u64 = dividend / divisor as u64;
            let remainder: u64 = dividend % divisor as u64;
            proof {
                vstd::arithmetic::div_mod::lemma_fundamental_div_mod(
                    dividend as int,
                    divisor as int,
                );
                assert(quotient * divisor == divisor * quotient) by (nonlinear_arith);
                assert(quotient < LIMB_BASE) by (nonlinear_arith)
                    requires
                        dividend == quotient * divisor + remainder,
                        dividend < (rest + 1) * LIMB_BASE,
                        rest + 1 <= divisor,
                        remainder >= 0,
                ;
            }
            let ghost prior = self.limbs@;
            let digit: u32 = self.limbs[i];
            self.limbs.set(i, quotient as u32);
            proof {
                let w = weight(i as nat);
                let n = count as nat;
                lemma_high_value_same(prior, self.limbs@, (i + 1) as nat, n);
                let hp = high_value(prior, (i + 1) as nat, n);
                assert(weight((i + 1) as nat) == LIMB_BASE as nat * w);
                assert(digit * w + rest * (LIMB_BASE as nat * w) == (quotient * divisor) * w
                    + remainder * w) by (nonlinear_arith)
                    requires
                        rest * LIMB_BASE + digit == quotient * divisor + remainder,
                ;
                assert((quotient * w + hp) * divisor == (quotient * divisor) * w + hp * divisor)
                    by (nonlinear_arith);
            }
            rest = remainder as u32;
        }
        proof {
            lemma_high_value_all(before, 0, count as nat);
            lemma_high_value_all(self.limbs@, 0, count as nat);
            assert(rest * weight(0) == rest) by (nonlinear_arith)
                requires
                    weight(0) == 1,
            ;
        }
        rest
    }
}

/// The number that the digits from position `i` up to `n` make up.
spec fn high_value(limbs: Seq<u32>, i: nat, n: nat) -> nat
    decreases n - i,
{
    if i >= n {
        0
    } else {
        limb(limbs, i as int) * weight(i) + high_value(limbs, i + 1, n)
    }
}

proof fn lemma_high_value_same(a: Seq<u32>, b: Seq<u32>, i: nat, n: nat)
    requires
        forall|j: int| i <= j < n ==> limb(a, j) == limb(b, j),
    ensures
        high_value(a, i, n) == high_value(b, i, n),
    decreases n - i,
{
    if i < n {
        lemma_high_value_same(a, b, i + 1, n);
    }
}

proof fn lemma_high_value_all(limbs: Seq<u32>, i: nat, n: nat)
    requires
        i <= n,
    ensures
        low_value(limbs, i) + high_value(limbs, i, n) == low_value(limbs, n),
    decreases n - i,
{
    if i < n {
        lemma_high_value_all(limbs, i + 1, n);
    }
}

/// The lowest digits make up no more than all digits.
proof fn lemma_low_value_whole(limbs: Seq<u32>, n: nat)
    ensures
        low_value(limbs, n) <= low_value(limbs, limbs.len()),
{
    if n <= limbs.len() {
        lemma_high_value_all(limbs, n, limbs.len());
    } else {
        lemma_low_value_beyond(limbs, n);
    }
}

/// Either the lowest `n` digits are the whole number, or it reaches the weight of the next.
proof fn lemma_low_value_cut(limbs: Seq<u32>, n: nat)
    ensures
        low_value(limbs, n) == low_value(limbs, limbs.len()) || low_value(limbs, n) + weight(n)
            <= low_value(limbs, limbs.len()),
{
    if n < limbs.len() {
        lemma_high_value_all(limbs, n, limbs.len());
        lemma_high_value_cut(limbs, n, limbs.len());
    } else {
        lemma_low_value_beyond(limbs, n);
    }
}

proof fn lemma_high_value_cut(limbs: Seq<u32>, i: nat, n: nat)
    ensures
        high_value(limbs, i, n) == 0 || high_value(limbs, i, n) >= weight(i),
    decreases n - i,
{
    if i < n {
        lemma_high_value_cut(limbs, i + 1, n);
        let d = limb(limbs, i as int);
        assert(d * weight(i) == 0 || d * weight(i) >= weight(i)) by (nonlinear_arith)
            requires
                d >= 0,
        ;
        assert(weight(i + 1) >= weight(i)) by (nonlinear_arith)
            requires
                weight(i + 1) == LIMB_BASE as nat * weight(i),
        ;
    }
}

} // verus!
