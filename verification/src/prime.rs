//! Arithmetic in the field of integers modulo a prime, and the sequence of primes.
use vstd::prelude::*;

verus! {

/// `n` is a prime number.
pub open spec fn spec_is_prime(n: nat) -> bool {
    n > 1 && forall|d: nat| 2 <= d < n ==> #[trigger] (n % d) != 0
}

/// Tests whether `n` is prime by trial division up to its square root.
pub fn is_prime(n: usize) -> (r: bool)
    ensures
        r == spec_is_prime(n as nat),
{
    if n <= 1 {
        return false;
    }
    let mut i: usize = 2;
    loop
        invariant
            n > 1,
            2 <= i <= n,
            forall|d: nat| 2 <= d < i ==> #[trigger] (n as nat % d) != 0,
        decreases n - i,
    {
        if i > n / i {
            proof {
                let nn = n as nat;
                let ii = i as nat;
                assert forall|d: nat| 2 <= d < nn implies #[trigger] (nn % d) != 0 by {
                    if nn % d == 0 && d >= ii {
                        let e = nn / d;
                        vstd::arithmetic::div_mod::lemma_fundamental_div_mod(nn as int, d as int);
                        assert(nn == d * e);
                        assert(e * d == nn) by (nonlinear_arith)
                            requires
                                nn == d * e,
                        ;
                        vstd::arithmetic::div_mod::lemma_mod_multiples_basic(d as int, e as int);
                        assert(nn % e == 0);
                        vstd::arithmetic::div_mod::lemma_fundamental_div_mod(nn as int, ii as int);
                        vstd::arithmetic::div_mod::lemma_mod_bound(nn as int, ii as int);
                        let q = nn / ii;
                        let r = nn % ii;
                        assert(ii > q);
                        assert(e < ii) by (nonlinear_arith)
                            requires
                                nn == d * e,
                                d >= ii,
                                ii > q,
                                ii >= 2,
                                r < ii,
                                nn == ii * q + r,
                        {
                            assert(q + 1 <= ii);
                            assert(nn < ii * (q + 1));
                            assert(ii * (q + 1) <= ii * ii);
                            assert(nn < ii * ii);
                            assert(d * e < d * ii || e < ii);
                        }
                        assert(e >= 2) by (nonlinear_arith)
                            requires
                                nn == d * e,
                                d < nn,
                                d >= 2,
                        ;
                        assert(nn % e != 0);
                    }
                }
            }
            return true;
        }
        proof {
            vstd::arithmetic::div_mod::lemma_fundamental_div_mod(n as int, i as int);
            vstd::arithmetic::div_mod::lemma_mod_bound(n as int, i as int);
            let q = n as int / i as int;
            assert(i * i <= n) by (nonlinear_arith)
                requires
                    i <= q,
                    n as int == i * q + n as int % i as int,
                    n as int % i as int >= 0,
                    i >= 2,
            ;
            assert(i < n) by (nonlinear_arith)
                requires
                    i * i <= n,
                    i >= 2,
            ;
        }
        if n % i == 0 {
            assert(n as nat % (i as nat) == 0);
            return false;
        }
        i = i + 1;
    }
}

/// An element of the field of integers modulo the prime `p`.
#[derive(Debug, PartialEq, Eq, Structural)]
pub struct PrimeField {
    n: usize,
    p: usize,
}

impl PrimeField {
    /// The residue, in `0..p`.
    pub closed spec fn value(&self) -> int {
        self.n as int
    }

    /// The modulus.
    pub closed spec fn modulus(&self) -> int {
        self.p as int
    }

    /// The residue lies below the modulus, which is prime.
    #[verifier::type_invariant]
    pub open spec fn in_field(self) -> bool {
        0 <= self.value() < self.modulus() && spec_is_prime(self.modulus() as nat)
    }

    /// `n mod p`; `p` must be prime.
    pub fn new(n: usize, p: usize) -> (r: PrimeField)
        requires
            spec_is_prime(p as nat),
        ensures
            r.value() == n as int % p as int,
            r.modulus() == p,
    {
        PrimeField { n: n % p, p }
    }

    /// Reduces the residue modulo the prime (it is already reduced).
    fn clear(&mut self)
        ensures
            final(self).value() == old(self).value(),
            final(self).modulus() == old(self).modulus(),
    {
        proof {
            use_type_invariant(&*self);
            vstd::arithmetic::div_mod::lemma_small_mod(self.n as nat, self.p as nat);
            assert(self.n % self.p == self.n);
        }
        let p = self.p;
        let n = self.n % p;
        *self = PrimeField { n, p };
    }

    /// The residue.
    pub fn get_value(&self) -> (r: usize)
        ensures
            r == self.value(),
    {
        self.n
    }

    /// The modulus.
    pub fn get_prime(&self) -> (r: usize)
        ensures
            r == self.modulus(),
            spec_is_prime(r as nat),
    {
        proof {
            use_type_invariant(self);
        }
        self.p
    }

    /// The residue is zero.
    pub fn is_zero(&self) -> (r: bool)
        ensures
            r == (self.value() == 0),
    {
        self.n == 0
    }

    /// `self + rhs` modulo the prime.
    pub fn add(self, rhs: PrimeField) -> (r: PrimeField)
        requires
            self.modulus() == rhs.modulus(),
            self.value() + rhs.value() <= usize::MAX,
        ensures
            r.value() == (self.value() + rhs.value()) % self.modulus(),
            r.modulus() == self.modulus(),
    {
        proof {
            use_type_invariant(&self);
            vstd::arithmetic::div_mod::lemma_mod_twice((self.n + rhs.n) as int, self.p as int);
        }
        let mut result = PrimeField::new((self.n + rhs.n) % self.p, self.p);
        result.clear();
        result
    }

    /// `self += rhs` modulo the prime.
    pub fn add_assign(&mut self, rhs: PrimeField)
        requires
            old(self).modulus() == rhs.modulus(),
            old(self).value() + rhs.value() <= usize::MAX,
        ensures
            final(self).value() == (old(self).value() + rhs.value()) % old(self).modulus(),
            final(self).modulus() == old(self).modulus(),
    {
        proof {
            use_type_invariant(&*self);
            vstd::arithmetic::div_mod::lemma_mod_bound((self.n + rhs.n) as int, self.p as int);
        }
        let p = self.p;
        let n = (self.n + rhs.n) % p;
        *self = PrimeField { n, p };
        self.clear();
    }

    /// `-self` modulo the prime.
    pub fn neg(self) -> (r: PrimeField)
        ensures
            r.value() == (self.modulus() - self.value()) % self.modulus(),
            r.modulus() == self.modulus(),
    {
        proof {
            use_type_invariant(&self);
            vstd::arithmetic::div_mod::lemma_mod_twice((self.p - self.n) as int, self.p as int);
        }
        PrimeField::new((self.p - self.n) % self.p, self.p)
    }

    /// `self - rhs` modulo the prime, computed as `self + (-rhs)`.
    pub fn sub(self, rhs: PrimeField) -> (r: PrimeField)
        requires
            self.modulus() == rhs.modulus(),
            self.value() + self.modulus() <= usize::MAX,
        ensures
            r.value() == (self.value() + (self.modulus() - rhs.value()) % self.modulus()) % self.modulus(),
            r.modulus() == self.modulus(),
    {
        proof {
            use_type_invariant(&rhs);
        }
        let m = rhs.neg();
        proof {
            vstd::arithmetic::div_mod::lemma_mod_bound((rhs.modulus() - rhs.value()) as int, rhs.modulus() as int);
        }
        self.add(m)
    }

    /// `self -= rhs` modulo the prime.
    pub fn sub_assign(&mut self, rhs: PrimeField)
        requires
            old(self).modulus() == rhs.modulus(),
            old(self).value() + old(self).modulus() <= usize::MAX,
        ensures
            final(self).value() == (old(self).value() + (old(self).modulus() - rhs.value()) % old(self).modulus()) % old(
                self,
            ).modulus(),
            final(self).modulus() == old(self).modulus(),
    {
        proof {
            use_type_invariant(&rhs);
        }
        let m = rhs.neg();
        proof {
            vstd::arithmetic::div_mod::lemma_mod_bound((rhs.modulus() - rhs.value()) as int, rhs.modulus() as int);
        }
        self.add_assign(m);
    }

    /// `self * rhs` modulo the prime.
    pub fn mul(self, rhs: PrimeField) -> (r: PrimeField)
        requires
            self.modulus() == rhs.modulus(),
            self.value() * rhs.value() <= usize::MAX,
        ensures
            r.value() == (self.value() * rhs.value()) % self.modulus(),
            r.modulus() == self.modulus(),
    {
        proof {
            use_type_invariant(&self);
            vstd::arithmetic::div_mod::lemma_mod_twice((self.n * rhs.n) as int, self.p as int);
        }
        PrimeField::new((self.n * rhs.n) % self.p, self.p)
    }
}

/// Produces the primes in increasing order.
pub struct PrimeIter {
    current: usize,
}

impl PrimeIter {
    /// The last number examined.
    pub closed spec fn position(&self) -> nat {
        self.current as nat
    }

    /// An iterator that starts before 2.
    pub fn new() -> (r: PrimeIter)
        ensures
            r.position() == 1,
    {
        PrimeIter { current: 1 }
    }

    /// The next prime after the last one returned; `None` only when no prime
    /// below `usize::MAX` remains.
    pub fn next(&mut self) -> (r: Option<usize>)
        ensures
            r matches Some(p) ==> spec_is_prime(p as nat) && old(self).position() < p && final(self).position() == p
                && forall|q: nat| old(self).position() < q < p ==> !spec_is_prime(q),
            r is None ==> forall|q: nat| old(self).position() < q <= usize::MAX ==> !spec_is_prime(q),
    {
        let ghost start = self.current as nat;
        loop
            invariant
                start == old(self).position(),
                start <= self.current,
                forall|q: nat| start < q <= self.current ==> !spec_is_prime(q),
            decreases usize::MAX - self.current,
        {
            if self.current == usize::MAX {
                return None;
            }
            self.current += 1;
            if is_prime(self.current) {
                return Some(self.current);
            }
        }
    }
}

impl Clone for PrimeField {
    /// A copy with the same residue and modulus.
    fn clone(&self) -> (r: PrimeField)
        ensures
            r == *self,
    {
        proof {
            use_type_invariant(self);
        }
        PrimeField { n: self.n, p: self.p }
    }
}

/// In the field of a prime `p`, subtracting what was added gives back the
/// value: the value of `(a + b) - b`, by the formulas of `add` and `sub`, is
/// the value of `a`.
pub proof fn lemma_add_sub_cancel(a: PrimeField, b: PrimeField)
    requires
        a.in_field(),
        b.in_field(),
        a.modulus() == b.modulus(),
    ensures
        ({
            let p = a.modulus();
            let s = (a.value() + b.value()) % p;
            (s + (p - b.value()) % p) % p == a.value()
        }),
{
    let p = a.modulus();
    let x = a.value();
    let y = b.value();
    vstd::arithmetic::div_mod::lemma_small_mod(x as nat, p as nat);
    if y == 0 {
        vstd::arithmetic::div_mod::lemma_mod_self_0(p);
        vstd::arithmetic::div_mod::lemma_small_mod(x as nat, p as nat);
    } else {
        vstd::arithmetic::div_mod::lemma_small_mod((p - y) as nat, p as nat);
        if x + y < p {
            vstd::arithmetic::div_mod::lemma_small_mod((x + y) as nat, p as nat);
            vstd::arithmetic::div_mod::lemma_mod_add_multiples_vanish(x, p);
        } else {
            vstd::arithmetic::div_mod::lemma_mod_sub_multiples_vanish(x + y, p);
            vstd::arithmetic::div_mod::lemma_small_mod((x + y - p) as nat, p as nat);
        }
    }
}

} // verus!
