//! Polynomials in one variable with coefficients modulo a prime.
use crate::nonempty::{field_vec1_as_slice, field_vec1_elems, field_vec1_from_vec};
use crate::prime::{spec_is_prime, PrimeField};
use vec1::Vec1;
use vstd::prelude::*;

verus! {

/// The residues of a list of field elements.
pub open spec fn field_values(s: Seq<PrimeField>) -> Seq<int> {
    s.map_values(|x: PrimeField| x.value())
}

/// The coefficients with trailing zeros removed, down to one coefficient.
pub open spec fn clean_ints(s: Seq<int>) -> Seq<int>
    decreases s.len(),
{
    if s.len() > 1 && s.last() == 0 {
        clean_ints(s.drop_last())
    } else {
        s
    }
}

/// Every element lies in the field of the prime `p`.
pub open spec fn all_mod(s: Seq<PrimeField>, p: int) -> bool {
    forall|i: int| 0 <= i < s.len() ==> (#[trigger] s[i]).modulus() == p
}

/// A polynomial with coefficients modulo a prime, lowest degree first, with
/// no zero leading coefficient beyond the constant one.
pub struct PrimeModPoly {
    terms: Vec1<PrimeField>,
    prime: usize,
}

impl View for PrimeModPoly {
    type V = Seq<int>;

    /// The residues of the coefficients, lowest degree first.
    closed spec fn view(&self) -> Seq<int> {
        field_values(field_vec1_elems(self.terms))
    }
}

impl PrimeModPoly {
    /// The prime.
    pub closed spec fn modulus(&self) -> int {
        self.prime as int
    }

    /// The modulus is prime, every coefficient is modulo it, there is at least
    /// one, and the leading one is not zero unless it is the only one.
    #[verifier::type_invariant]
    closed spec fn wf(&self) -> bool {
        &&& spec_is_prime(self.prime as nat)
        &&& field_vec1_elems(self.terms).len() >= 1
        &&& all_mod(field_vec1_elems(self.terms), self.prime as int)
        &&& clean_ints(self@) == self@
    }
}

/// Removing trailing zeros keeps a non-empty prefix, is idempotent, and
/// leaves no zero leading coefficient beyond the constant one.
pub proof fn lemma_clean_ints(s: Seq<int>)
    ensures
        clean_ints(s).len() <= s.len(),
        s.len() >= 1 ==> clean_ints(s).len() >= 1,
        clean_ints(s) == s.subrange(0, clean_ints(s).len() as int),
        clean_ints(clean_ints(s)) == clean_ints(s),
        clean_ints(s).len() > 1 ==> clean_ints(s).last() != 0,
    decreases s.len(),
{
    if s.len() > 1 && s.last() == 0 {
        lemma_clean_ints(s.drop_last());
        let c = clean_ints(s.drop_last());
        assert(s.drop_last().subrange(0, c.len() as int) =~= s.subrange(0, c.len() as int));
    } else {
        assert(s.subrange(0, s.len() as int) =~= s);
    }
}

/// A copy of the elements of a slice.
fn copy_fields(s: &[PrimeField]) -> (r: Vec<PrimeField>)
    ensures
        r@ == s@,
{
    let mut v: Vec<PrimeField> = Vec::new();
    let mut i: usize = 0;
    while i < s.len()
        invariant
            i <= s@.len(),
            v@ == s@.subrange(0, i as int),
        decreases s@.len() - i,
    {
        v.push(s[i].clone());
        i = i + 1;
        assert(v@ =~= s@.subrange(0, i as int));
    }
    assert(s@.subrange(0, s@.len() as int) =~= s@);
    v
}

/// The polynomial with the coefficients `v` modulo `prime`, trailing zeros
/// removed.
pub fn from_fields(v: Vec<PrimeField>, prime: usize) -> (r: PrimeModPoly)
    requires
        spec_is_prime(prime as nat),
        v@.len() >= 1,
        all_mod(v@, prime as int),
    ensures
        r@ == clean_ints(field_values(v@)),
        r.modulus() == prime,
{
    let ghost s0 = field_values(v@);
    let mut v = v;
    while v.len() > 1 && v[v.len() - 1].is_zero()
        invariant
            v@.len() >= 1,
            all_mod(v@, prime as int),
            clean_ints(field_values(v@)) == clean_ints(s0),
        decreases v@.len(),
    {
        let ghost prev = v@;
        v.pop();
        proof {
            assert(v@ =~= prev.drop_last());
            assert(field_values(v@) =~= field_values(prev).drop_last());
            assert(field_values(prev).last() == prev.last().value());
        }
    }
    proof {
        if v@.len() > 1 {
            assert(field_values(v@).last() == v@.last().value());
        }
        assert(clean_ints(field_values(v@)) == field_values(v@));
        lemma_clean_ints(s0);
    }
    let t = field_vec1_from_vec(v).unwrap();
    PrimeModPoly { terms: t, prime }
}

impl PrimeModPoly {
    /// The polynomial with the coefficients `terms` modulo `prime`, trailing
    /// zero coefficients removed.
    pub fn new(terms: Vec1<PrimeField>, prime: usize) -> (r: PrimeModPoly)
        requires
            spec_is_prime(prime as nat),
            all_mod(field_vec1_elems(terms), prime as int),
        ensures
            r@ == clean_ints(field_values(field_vec1_elems(terms))),
            r.modulus() == prime,
    {
        let v = copy_fields(field_vec1_as_slice(&terms));
        from_fields(v, prime)
    }

    /// The degree: the number of coefficients minus one.
    pub fn degree(&self) -> (r: usize)
        ensures
            r == self@.len() - 1,
    {
        let s = field_vec1_as_slice(&self.terms);
        s.len() - 1
    }

    /// The coefficients, lowest degree first.
    pub fn iter(&self) -> (r: &[PrimeField])
        ensures
            field_values(r@) == self@,
            all_mod(r@, self.modulus()),
            r@.len() >= 1,
            spec_is_prime(self.modulus() as nat),
            clean_ints(self@) == self@,
    {
        proof {
            use_type_invariant(self);
        }
        field_vec1_as_slice(&self.terms)
    }

    /// Every coefficient is zero.
    pub fn is_zero(&self) -> (r: bool)
        ensures
            r == forall|i: int| 0 <= i < self@.len() ==> #[trigger] self@[i] == 0,
    {
        let s = self.iter();
        let mut i: usize = 0;
        while i < s.len()
            invariant
                field_values(s@) == self@,
                i <= s@.len(),
                forall|j: int| 0 <= j < i ==> #[trigger] self@[j] == 0,
            decreases s@.len() - i,
        {
            assert(self@[i as int] == s@[i as int].value());
            if !s[i].is_zero() {
                return false;
            }
            i = i + 1;
        }
        true
    }

    /// The leading coefficient.
    pub fn lt(&self) -> (r: &PrimeField)
        ensures
            r.value() == self@.last(),
            r.modulus() == self.modulus(),
    {
        let s = self.iter();
        assert(self@[s@.len() - 1] == s@[s@.len() - 1].value());
        &s[s.len() - 1]
    }

    /// The prime.
    pub fn get_prime(&self) -> (r: usize)
        ensures
            r == self.modulus(),
    {
        self.prime
    }

    /// The coefficients as the non-empty vector that holds them.
    pub fn get_terms(&self) -> (r: &Vec1<PrimeField>)
        ensures
            field_values(field_vec1_elems(*r)) == self@,
    {
        &self.terms
    }

    /// The polynomial plus the constant `constant`.
    pub fn add_const(&self, constant: &PrimeField) -> (r: PrimeModPoly)
        requires
            constant.modulus() == self.modulus(),
            2 * self.modulus() <= usize::MAX,
        ensures
            r.modulus() == self.modulus(),
            r@ == clean_ints(self@.update(0, (self@[0] + constant.value()) % self.modulus())),
    {
        proof {
            use_type_invariant(self);
        }
        let mut v = copy_fields(self.iter());
        let ghost before = v@;
        let a0 = v[0].clone();
        proof {
            use_type_invariant(constant);
            use_type_invariant(&a0);
        }
        let first = a0.add(constant.clone());
        v.set(0, first);
        proof {
            assert(field_values(v@) =~= self@.update(0, (self@[0] + constant.value()) % self.modulus()));
        }
        from_fields(v, self.prime)
    }

    /// The polynomial times the constant `constant`.
    pub fn mul_const(&self, constant: &PrimeField) -> (r: PrimeModPoly)
        requires
            constant.modulus() == self.modulus(),
            self.modulus() * self.modulus() <= usize::MAX,
        ensures
            r.modulus() == self.modulus(),
            r@ == clean_ints(self@.map_values(|c: int| (c * constant.value()) % self.modulus())),
    {
        proof {
            use_type_invariant(self);
        }
        let s = self.iter();
        let mut v: Vec<PrimeField> = Vec::new();
        let mut i: usize = 0;
        while i < s.len()
            invariant
                field_values(s@) == self@,
                all_mod(s@, self.modulus()),
                constant.modulus() == self.modulus(),
                self.modulus() * self.modulus() <= usize::MAX,
                i <= s@.len(),
                all_mod(v@, self.modulus()),
                field_values(v@) == self@.map_values(|c: int| (c * constant.value()) % self.modulus()).subrange(0, i as int),
            decreases s@.len() - i,
        {
            let ghost prev = v@;
            let ai = s[i].clone();
            proof {
                use_type_invariant(constant);
                use_type_invariant(&ai);
                let a = ai.value();
                let b = constant.value();
                let m = self.modulus();
                assert(a * b <= m * m) by (nonlinear_arith)
                    requires
                        0 <= a < m,
                        0 <= b < m,
                ;
            }
            let x = ai.mul(constant.clone());
            v.push(x);
            proof {
                assert(self@[i as int] == s@[i as int].value());
                assert(field_values(v@) =~= field_values(prev).push(x.value()));
                assert(field_values(v@) =~= self@.map_values(|c: int| (c * constant.value()) % self.modulus()).subrange(
                    0,
                    i + 1,
                ));
            }
            i = i + 1;
        }
        assert(self@.map_values(|c: int| (c * constant.value()) % self.modulus()).subrange(0, s@.len() as int)
            =~= self@.map_values(|c: int| (c * constant.value()) % self.modulus()));
        from_fields(v, self.prime)
    }
}

/// The derivative modulo `p`: coefficient `i` times `i`, for `i` from 1; the
/// zero polynomial for a constant.
pub open spec fn mod_derivative(s: Seq<int>, p: int) -> Seq<int> {
    if s.len() <= 1 {
        seq![0]
    } else {
        Seq::new((s.len() - 1) as nat, |i: int| (s[i + 1] * ((i + 1) % p)) % p)
    }
}

/// The derivative of a polynomial modulo a prime.
pub fn mod_poly_derivative(poly: &PrimeModPoly) -> (r: PrimeModPoly)
    requires
        poly.modulus() * poly.modulus() <= usize::MAX,
    ensures
        r.modulus() == poly.modulus(),
        r@ == clean_ints(mod_derivative(poly@, poly.modulus())),
{
    proof {
        use_type_invariant(poly);
    }
    let s = poly.iter();
    let p = poly.get_prime();
    let mut v: Vec<PrimeField> = Vec::new();
    let mut i: usize = 1;
    while i < s.len()
        invariant
            field_values(s@) == poly@,
            all_mod(s@, p as int),
            p == poly.modulus(),
            p * p <= usize::MAX,
            spec_is_prime(p as nat),
            1 <= i <= s@.len(),
            v@.len() == i - 1,
            all_mod(v@, p as int),
            forall|j: int| 0 <= j < i - 1 ==> #[trigger] v@[j].value() == (poly@[j + 1] * ((j + 1) % p as int)) % p as int,
        decreases s@.len() - i,
    {
        assert(poly@[i as int] == s@[i as int].value());
        let k = PrimeField::new(i, p);
        let ai = s[i].clone();
        proof {
            use_type_invariant(&k);
            use_type_invariant(&ai);
            let a = ai.value();
            let b = k.value();
            assert(a * b <= p * p) by (nonlinear_arith)
                requires
                    0 <= a < p,
                    0 <= b < p,
            ;
        }
        let x = ai.mul(k);
        v.push(x);
        i = i + 1;
    }
    if v.len() == 0 {
        let z = vec![PrimeField::new(0, p)];
        proof {
            assert(field_values(z@) =~= seq![0int]);
            assert(mod_derivative(poly@, p as int) =~= seq![0int]);
        }
        return from_fields(z, p);
    }
    proof {
        assert(field_values(v@) =~= mod_derivative(poly@, p as int));
    }
    from_fields(v, p)
}

} // verus!
