//! Unsigned integers of arbitrary size, for exact product comparison.
//!
//! The classifier's decision rule compares two products of many integer
//! factors. Such a product does not fit a machine word, so it is
//! accumulated here in base-2^64 limbs, least significant limb first.

use vstd::prelude::*;
use vstd::arithmetic::div_mod::lemma_fundamental_div_mod;
use vstd::arithmetic::div_mod::lemma_mod_division_less_than_divisor;

verus! {

/// An unsigned integer of arbitrary size: base-2^64 limbs, least
/// significant first. Leading zero limbs are allowed and do not change
/// the denoted number.
pub struct BigNat {
    pub limbs: Vec<u64>,
}

/// The radix of the limb representation.
pub open spec fn base() -> int {
    0x1_0000_0000_0000_0000
}

/// `base()` to the power `n`.
spec fn pow_base(n: nat) -> int
    decreases n,
{
    if n == 0 {
        1
    } else {
        base() * pow_base((n - 1) as nat)
    }
}

/// The number a limb sequence denotes.
pub open spec fn nat_of(limbs: Seq<u64>) -> int
    decreases limbs.len(),
{
    if limbs.len() == 0 {
        0
    } else {
        limbs[0] + base() * nat_of(limbs.drop_first())
    }
}

/// The limb at position `i`, reading 0 beyond the end.
spec fn limb_at(s: Seq<u64>, i: int) -> u64 {
    if 0 <= i < s.len() {
        s[i]
    } else {
        0u64
    }
}

/// `s` extended with zero limbs to length `n`.
spec fn zero_ext(s: Seq<u64>, n: int) -> Seq<u64> {
    s + Seq::new((n - s.len()) as nat, |i: int| 0u64)
}

proof fn lemma_pow_base_pos(n: nat)
    ensures
        pow_base(n) > 0,
    decreases n,
{
    if n > 0 {
        lemma_pow_base_pos((n - 1) as nat);
        assert(base() * pow_base((n - 1) as nat) > 0) by (nonlinear_arith)
            requires
                pow_base((n - 1) as nat) > 0,
        ;
    }
}

proof fn lemma_nat_of_nonneg(s: Seq<u64>)
    ensures
        nat_of(s) >= 0,
    decreases s.len(),
{
    if s.len() > 0 {
        lemma_nat_of_nonneg(s.drop_first());
        assert(base() * nat_of(s.drop_first()) >= 0) by (nonlinear_arith)
            requires
                nat_of(s.drop_first()) >= 0,
        ;
    }
}

/// Appending a limb adds its value at the next position.
proof fn lemma_nat_of_snoc(s: Seq<u64>, x: u64)
    ensures
        nat_of(s.push(x)) == nat_of(s) + x * pow_base(s.len()),
    decreases s.len(),
{
    assert(nat_of(Seq::<u64>::empty()) == 0);
    if s.len() == 0 {
        assert(s.push(x).drop_first() =~= Seq::<u64>::empty());
        assert(nat_of(s.push(x)) == s.push(x)[0] + base() * nat_of(s.push(x).drop_first()));
        assert(s.push(x)[0] == x);
    } else {
        assert(s.push(x).drop_first() =~= s.drop_first().push(x));
        assert(nat_of(s.push(x)) == s.push(x)[0] + base() * nat_of(s.push(x).drop_first()));
        assert(s.push(x)[0] == s[0]);
        lemma_nat_of_snoc(s.drop_first(), x);
        assert(base() * (nat_of(s.drop_first()) + x * pow_base((s.len() - 1) as nat)) == base()
            * nat_of(s.drop_first()) + x * (base() * pow_base((s.len() - 1) as nat)))
            by (nonlinear_arith);
    }
}

/// A limb sequence denotes less than the radix power of its length.
proof fn lemma_nat_of_bound(s: Seq<u64>)
    ensures
        nat_of(s) < pow_base(s.len()),
    decreases s.len(),
{
    if s.len() > 0 {
        lemma_nat_of_bound(s.drop_first());
        let d = nat_of(s.drop_first());
        let p = pow_base((s.len() - 1) as nat);
        assert(base() * d <= base() * (p - 1)) by (nonlinear_arith)
            requires
                d <= p - 1,
        ;
    }
}

/// The value splits at any position into a low part and a shifted high part.
proof fn lemma_nat_of_split(s: Seq<u64>, i: int)
    requires
        0 <= i <= s.len(),
    ensures
        nat_of(s) == nat_of(s.take(i)) + pow_base(i as nat) * nat_of(s.skip(i)),
    decreases i,
{
    if i == 0 {
        assert(s.take(0) =~= Seq::<u64>::empty());
        assert(s.skip(0) =~= s);
    } else {
        lemma_nat_of_split(s, i - 1);
        assert(s.take(i) =~= s.take(i - 1).push(s[i - 1]));
        lemma_nat_of_snoc(s.take(i - 1), s[i - 1]);
        assert(s.skip(i - 1).drop_first() =~= s.skip(i));
        assert(s.skip(i - 1).len() > 0);
        assert(nat_of(s.skip(i - 1)) == s[i - 1] + base() * nat_of(s.skip(i)));
        let p = pow_base((i - 1) as nat);
        let h = nat_of(s.skip(i));
        let x = s[i - 1];
        assert(p * (x + base() * h) == x * p + (base() * p) * h) by (nonlinear_arith);
        assert(pow_base(i as nat) == base() * pow_base((i - 1) as nat));
    }
}

/// Zero-extension does not change the denoted number.
proof fn lemma_zero_ext_value(s: Seq<u64>, n: int)
    requires
        s.len() <= n,
    ensures
        zero_ext(s, n).len() == n,
        nat_of(zero_ext(s, n)) == nat_of(s),
    decreases n - s.len(),
{
    if n == s.len() {
        assert(zero_ext(s, n) =~= s);
    } else {
        lemma_zero_ext_value(s, n - 1);
        assert(zero_ext(s, n) =~= zero_ext(s, n - 1).push(0u64));
        lemma_nat_of_snoc(zero_ext(s, n - 1), 0u64);
    }
}

/// If two limb sequences agree above position `i` and differ at `i`, the one
/// with the smaller limb there denotes the smaller number.
proof fn lemma_lt_from_limbs(a: Seq<u64>, b: Seq<u64>, i: int, n: int)
    requires
        a.len() <= n,
        b.len() <= n,
        0 <= i < n,
        forall|j: int| i < j < n ==> limb_at(a, j) == limb_at(b, j),
        limb_at(a, i) < limb_at(b, i),
    ensures
        nat_of(a) < nat_of(b),
{
    let av = zero_ext(a, n);
    let bv = zero_ext(b, n);
    lemma_zero_ext_value(a, n);
    lemma_zero_ext_value(b, n);
    assert(forall|j: int| 0 <= j < n ==> av[j] == limb_at(a, j));
    assert(forall|j: int| 0 <= j < n ==> bv[j] == limb_at(b, j));
    lemma_nat_of_split(av, i + 1);
    lemma_nat_of_split(bv, i + 1);
    assert(av.skip(i + 1) =~= bv.skip(i + 1));
    let tail = nat_of(av.skip(i + 1));
    assert(av.take(i + 1) =~= av.take(i).push(av[i]));
    assert(bv.take(i + 1) =~= bv.take(i).push(bv[i]));
    lemma_nat_of_snoc(av.take(i), av[i]);
    lemma_nat_of_snoc(bv.take(i), bv[i]);
    lemma_nat_of_bound(av.take(i));
    lemma_nat_of_nonneg(bv.take(i));
    let p = pow_base(i as nat);
    lemma_pow_base_pos(i as nat);
    assert((av[i] + 1) * p <= bv[i] * p) by (nonlinear_arith)
        requires
            av[i] + 1 <= bv[i],
            p > 0,
    ;
    assert(nat_of(av.take(i + 1)) < (av[i] + 1) * p) by (nonlinear_arith)
        requires
            nat_of(av.take(i + 1)) == nat_of(av.take(i)) + av[i] * p,
            nat_of(av.take(i)) < p,
    ;
    assert(bv[i] * p <= nat_of(bv.take(i + 1)));
}

/// If two limb sequences agree at every position below `n`, they denote the
/// same number.
proof fn lemma_eq_from_limbs(a: Seq<u64>, b: Seq<u64>, n: int)
    requires
        a.len() <= n,
        b.len() <= n,
        forall|j: int| 0 <= j < n ==> limb_at(a, j) == limb_at(b, j),
    ensures
        nat_of(a) == nat_of(b),
{
    lemma_zero_ext_value(a, n);
    lemma_zero_ext_value(b, n);
    assert forall|j: int| 0 <= j < n implies zero_ext(a, n)[j] == zero_ext(b, n)[j] by {
        assert(zero_ext(a, n)[j] == limb_at(a, j));
        assert(zero_ext(b, n)[j] == limb_at(b, j));
    }
    assert(zero_ext(a, n) =~= zero_ext(b, n));
}

/// The limb at position `i`, with 0 beyond the end.
fn limb(v: &Vec<u64>, i: usize) -> (r: u64)
    ensures
        r == limb_at(v@, i as int),
{
    if i < v.len() {
        v[i]
    } else {
        0
    }
}

impl BigNat {
    /// The number 1.
    pub fn one() -> (r: BigNat)
        ensures
            nat_of(r.limbs@) == 1,
    {
        let mut v: Vec<u64> = Vec::new();
        v.push(1);
        proof {
            assert(v@.drop_first() =~= Seq::<u64>::empty());
            assert(nat_of(Seq::<u64>::empty()) == 0);
            assert(v@[0] == 1u64);
            assert(nat_of(v@) == v@[0] + base() * nat_of(v@.drop_first()));
        }
        BigNat { limbs: v }
    }

    /// Multiplies the number in place by `f + 1`.
    ///
    /// The factor is the successor of the argument because every factor of
    /// the decision rule is a stored count plus one, and the sum may not
    /// fit the count's own type.
    pub fn mul_succ(&mut self, f: u64)
        ensures
            nat_of(final(self).limbs@) == nat_of(old(self).limbs@) * (f + 1),
    {
        let factor: u128 = (f as u128) + 1;
        let n: usize = self.limbs.len();
        let mut out: Vec<u64> = Vec::new();
        let mut carry: u64 = 0;
        let mut i: usize = 0;
        proof {
            assert(self.limbs@.take(0) =~= Seq::<u64>::empty());
            assert(nat_of(Seq::<u64>::empty()) == 0);
        }
        while i < n
            invariant
                n == self.limbs@.len(),
                i <= n,
                out@.len() == i,
                factor == f + 1,
                nat_of(out@) + pow_base(i as nat) * (carry as int) == nat_of(
                    self.limbs@.take(i as int),
                ) * (f + 1),
            decreases n - i,
        {
            let limb_i: u64 = self.limbs[i];
            proof {
                assert((limb_i as int) * (factor as int) + (carry as int) < 0x1_0000_0000_0000_0000_0000_0000_0000_0000)
                    by (nonlinear_arith)
                    requires
                        limb_i <= 0xffff_ffff_ffff_ffffu64,
                        factor <= 0x1_0000_0000_0000_0000u128,
                        carry <= 0xffff_ffff_ffff_ffffu64,
                ;
            }
            let prod: u128 = (limb_i as u128) * factor + (carry as u128);
            proof {
                lemma_fundamental_div_mod(prod as int, base());
                lemma_mod_division_less_than_divisor(prod as int, base());
                assert((prod as int) / base() < base()) by (nonlinear_arith)
                    requires
                        prod < 0x1_0000_0000_0000_0000_0000_0000_0000_0000,
                        (prod as int) == base() * ((prod as int) / base()) + (prod as int)
                            % base(),
                        0 <= (prod as int) % base(),
                ;
            }
            let lo: u64 = (prod % 0x1_0000_0000_0000_0000u128) as u64;
            let hi: u64 = (prod / 0x1_0000_0000_0000_0000u128) as u64;
            let ghost out_before = out@;
            out.push(lo);
            proof {
                lemma_nat_of_snoc(out_before, lo);
                assert(self.limbs@.take(i + 1) =~= self.limbs@.take(i as int).push(limb_i));
                lemma_nat_of_snoc(self.limbs@.take(i as int), limb_i);
                assert(nat_of(out@) + pow_base((i + 1) as nat) * (hi as int) == nat_of(
                    self.limbs@.take(i + 1),
                ) * (f + 1)) by (nonlinear_arith)
                    requires
                        nat_of(out@) == nat_of(out_before) + (lo as int) * pow_base(i as nat),
                        pow_base((i + 1) as nat) == base() * pow_base(i as nat),
                        nat_of(out_before) + pow_base(i as nat) * (carry as int) == nat_of(
                            self.limbs@.take(i as int),
                        ) * (f + 1),
                        nat_of(self.limbs@.take(i + 1)) == nat_of(self.limbs@.take(i as int)) + (
                        limb_i as int) * pow_base(i as nat),
                        (prod as int) == (limb_i as int) * ((f as int) + 1) + (carry as int),
                        (prod as int) == base() * (hi as int) + (lo as int),
                ;
            }
            carry = hi;
            i += 1;
        }
        proof {
            assert(self.limbs@.take(n as int) =~= self.limbs@);
        }
        if carry > 0 {
            let ghost out_before = out@;
            out.push(carry);
            proof {
                lemma_nat_of_snoc(out_before, carry);
                assert((carry as int) * pow_base(n as nat) == pow_base(n as nat) * (carry as int))
                    by (nonlinear_arith);
            }
        }
        proof {
            assert(pow_base(n as nat) * 0 == 0) by (nonlinear_arith);
        }
        self.limbs = out;
    }

    /// Whether this number is strictly smaller than `other`.
    pub fn lt(&self, other: &BigNat) -> (r: bool)
        ensures
            r == (nat_of(self.limbs@) < nat_of(other.limbs@)),
    {
        let al: usize = self.limbs.len();
        let bl: usize = other.limbs.len();
        let n: usize = if al > bl {
            al
        } else {
            bl
        };
        let mut i: usize = n;
        while i > 0
            invariant
                i <= n,
                self.limbs@.len() <= n,
                other.limbs@.len() <= n,
                forall|j: int|
                    i <= j < n ==> limb_at(self.limbs@, j) == limb_at(other.limbs@, j),
            decreases i,
        {
            i -= 1;
            let x: u64 = limb(&self.limbs, i);
            let y: u64 = limb(&other.limbs, i);
            if x < y {
                proof {
                    lemma_lt_from_limbs(self.limbs@, other.limbs@, i as int, n as int);
                }
                return true;
            }
            if y < x {
                proof {
                    lemma_lt_from_limbs(other.limbs@, self.limbs@, i as int, n as int);
                    lemma_nat_of_nonneg(self.limbs@);
                }
                return false;
            }
        }
        proof {
            lemma_eq_from_limbs(self.limbs@, other.limbs@, n as int);
        }
        false
    }
}

} // verus!
