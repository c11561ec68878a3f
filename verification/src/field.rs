//! Elements of the BN254 scalar field.
//!
//! A field element is held as the four little-endian 64-bit limbs of its
//! canonical representative in `[0, p)`. Its mathematical model (`@`) is the
//! residue in `[0, p)` that the limbs denote. Addition, subtraction and
//! multiplication are carried out by `ark-ff`; everything else is verified
//! here.

use ark_ff::PrimeField;
use vstd::prelude::*;
use vstd::string::StringExecFns;

verus! {

/// `2^64`, the radix of the limb representation.
pub open spec fn limb_radix() -> int {
    18446744073709551616int
}

/// The BN254 scalar field modulus `p`.
pub open spec fn field_modulus() -> int {
    21888242871839275222246405745257275088548364400416034343698204186575808495617int
}

/// Reduction of an integer into `[0, p)`.
pub open spec fn fmod(x: int) -> int {
    x % field_modulus()
}

/// The integer whose little-endian base-`2^64` digits are the four limbs.
pub open spec fn limbs_value(l0: u64, l1: u64, l2: u64, l3: u64) -> int {
    l0 + limb_radix() * (l1 + limb_radix() * (l2 + limb_radix() * l3))
}

/// The models of a sequence of field elements.
pub open spec fn vals(s: Seq<Fr>) -> Seq<int> {
    Seq::new(s.len(), |i: int| s[i]@)
}

/// `p` is positive, so reduction lands in `[0, p)`.
pub proof fn lemma_fmod_range(x: int)
    ensures
        0 <= fmod(x) < field_modulus(),
{
}

/// Reduction leaves values in `[0, p)` unchanged.
pub proof fn lemma_fmod_small(x: int)
    requires
        0 <= x < field_modulus(),
    ensures
        fmod(x) == x,
{
    vstd::arithmetic::div_mod::lemma_small_mod(x as nat, field_modulus() as nat);
}

/// Reduction commutes with addition.
pub proof fn lemma_fmod_add(a: int, b: int)
    ensures
        fmod(fmod(a) + fmod(b)) == fmod(a + b),
        fmod(a + fmod(b)) == fmod(a + b),
        fmod(fmod(a) + b) == fmod(a + b),
{
    vstd::arithmetic::div_mod::lemma_add_mod_noop(a, b, field_modulus());
    vstd::arithmetic::div_mod::lemma_add_mod_noop_right(a, b, field_modulus());
    vstd::arithmetic::div_mod::lemma_add_mod_noop_right(b, a, field_modulus());
}

/// Reduction commutes with subtraction.
pub proof fn lemma_fmod_sub(a: int, b: int)
    ensures
        fmod(fmod(a) - fmod(b)) == fmod(a - b),
{
    vstd::arithmetic::div_mod::lemma_sub_mod_noop(a, b, field_modulus());
}

/// Reduction commutes with multiplication.
pub proof fn lemma_fmod_mul(a: int, b: int)
    ensures
        fmod(fmod(a) * fmod(b)) == fmod(a * b),
        fmod(a * fmod(b)) == fmod(a * b),
        fmod(fmod(a) * b) == fmod(a * b),
{
    vstd::arithmetic::div_mod::lemma_mul_mod_noop(a, b, field_modulus());
    vstd::arithmetic::div_mod::lemma_mul_mod_noop_right(a, b, field_modulus());
    vstd::arithmetic::div_mod::lemma_mul_mod_noop_left(a, b, field_modulus());
}

/// The character of the decimal digit `d < 10`.
pub open spec fn digit_char(d: nat) -> char {
    (48 + d) as char
}

/// The decimal numeral of `x`: its digits, most significant first, with no
/// leading zeros (`"0"` for zero).
pub open spec fn decimal(x: nat) -> Seq<char>
    decreases x,
{
    if x < 10 {
        seq![digit_char(x)]
    } else {
        decimal(x / 10).push(digit_char(x % 10))
    }
}

/// The one-character string of the digit `d < 10`.
fn digit_str(d: usize) -> (s: &'static str)
    requires
        d < 10,
    ensures
        s@ == seq![digit_char(d as nat)],
{
    proof {
        reveal_strlit("0");
        reveal_strlit("1");
        reveal_strlit("2");
        reveal_strlit("3");
        reveal_strlit("4");
        reveal_strlit("5");
        reveal_strlit("6");
        reveal_strlit("7");
        reveal_strlit("8");
        reveal_strlit("9");
    }
    match d {
        0 => "0",
        1 => "1",
        2 => "2",
        3 => "3",
        4 => "4",
        5 => "5",
        6 => "6",
        7 => "7",
        8 => "8",
        _ => "9",
    }
}

/// The decimal numeral of a word: digits are split off by `% 10` and `/ 10`
/// and put in front of those already written.
pub fn usize_decimal(x: usize) -> (s: String)
    ensures
        s@ == decimal(x as nat),
{
    let mut y = x;
    let mut s = String::from_str("");
    proof {
        reveal_strlit("");
    }
    while y >= 10
        invariant
            decimal(x as nat) == decimal(y as nat) + s@,
        decreases y,
    {
        let mut t = String::from_str(digit_str(y % 10));
        t.append(s.as_str());
        proof {
            assert(decimal(y as nat) == decimal((y / 10) as nat).push(digit_char((y % 10) as nat)));
            assert(decimal(y as nat) + s@ =~= decimal((y / 10) as nat) + t@);
        }
        s = t;
        y = y / 10;
    }
    let mut t = String::from_str(digit_str(y));
    t.append(s.as_str());
    t
}

/// An element of the BN254 scalar field, kept in canonical form.
#[derive(Clone, Copy, Debug, Eq)]
pub struct Fr {
    l0: u64,
    l1: u64,
    l2: u64,
    l3: u64,
}

impl View for Fr {
    type V = int;

    closed spec fn view(&self) -> int {
        fmod(limbs_value(self.l0, self.l1, self.l2, self.l3))
    }
}

/// Two limb vectors denote the same integer only if they are equal.
proof fn lemma_limbs_injective(
    a0: u64, a1: u64, a2: u64, a3: u64,
    b0: u64, b1: u64, b2: u64, b3: u64,
)
    requires
        limbs_value(a0, a1, a2, a3) == limbs_value(b0, b1, b2, b3),
    ensures
        a0 == b0 && a1 == b1 && a2 == b2 && a3 == b3,
{
    let r = limb_radix();
    let x1 = a1 + r * (a2 + r * a3);
    let y1 = b1 + r * (b2 + r * b3);
    assert(a0 == b0 && x1 == y1) by (nonlinear_arith)
        requires a0 + r * x1 == b0 + r * y1, 0 <= a0 < r, 0 <= b0 < r, r > 0;
    let x2 = a2 + r * a3;
    let y2 = b2 + r * b3;
    assert(a1 == b1 && x2 == y2) by (nonlinear_arith)
        requires a1 + r * x2 == b1 + r * y2, 0 <= a1 < r, 0 <= b1 < r, r > 0;
    assert(a2 == b2 && a3 == b3) by (nonlinear_arith)
        requires a2 + r * a3 == b2 + r * b3, 0 <= a2 < r, 0 <= b2 < r, r > 0;
}

proof fn lemma_limbs_nonneg(l0: u64, l1: u64, l2: u64, l3: u64)
    ensures
        0 <= limbs_value(l0, l1, l2, l3),
{
    let r = limb_radix();
    assert(0 <= l2 + r * l3) by (nonlinear_arith)
        requires 0 <= l2, 0 <= l3, r > 0;
    assert(0 <= l1 + r * (l2 + r * l3)) by (nonlinear_arith)
        requires 0 <= l1, 0 <= l2 + r * l3, r > 0;
    assert(0 <= l0 + r * (l1 + r * (l2 + r * l3))) by (nonlinear_arith)
        requires 0 <= l0, 0 <= l1 + r * (l2 + r * l3), r > 0;
}

impl Fr {
    /// Every element is the canonical representative of its class mod `p`.
    #[verifier::type_invariant]
    spec fn canonical(self) -> bool {
        limbs_value(self.l0, self.l1, self.l2, self.l3) < field_modulus()
    }

    spec fn raw(self) -> int {
        limbs_value(self.l0, self.l1, self.l2, self.l3)
    }

    /// The model of every element lies in `[0, p)`.
    pub proof fn lemma_range(self)
        ensures
            0 <= self@ < field_modulus(),
    {
    }

    /// For a canonical element the model is the limb value itself.
    proof fn lemma_raw(self)
        requires
            self.canonical(),
        ensures
            self@ == self.raw(),
    {
        lemma_limbs_nonneg(self.l0, self.l1, self.l2, self.l3);
        vstd::arithmetic::div_mod::lemma_small_mod(self.raw() as nat, field_modulus() as nat);
    }

    /// The additive identity.
    pub fn zero() -> (r: Fr)
        ensures
            r@ == 0,
    {
        Fr { l0: 0, l1: 0, l2: 0, l3: 0 }
    }

    /// The multiplicative identity.
    pub fn one() -> (r: Fr)
        ensures
            r@ == 1,
    {
        Fr { l0: 1, l1: 0, l2: 0, l3: 0 }
    }

    /// The element `x mod p` (here `x < p`, so the element is `x` itself).
    pub fn from_u64(x: u64) -> (r: Fr)
        ensures
            r@ == x as int,
    {
        let r = Fr { l0: x, l1: 0, l2: 0, l3: 0 };
        proof {
            r.lemma_raw();
        }
        r
    }

    /// Builds an element from the little-endian limbs of its representative;
    /// `None` when those limbs denote a value that is not below `p`.
    pub fn from_canonical_limbs(limbs: [u64; 4]) -> (r: Option<Fr>)
        ensures
            r is Some <==> limbs_value(limbs[0], limbs[1], limbs[2], limbs[3]) < field_modulus(),
            r matches Some(x) ==> x@ == limbs_value(limbs[0], limbs[1], limbs[2], limbs[3]),
    {
        let l0 = limbs[0];
        let l1 = limbs[1];
        let l2 = limbs[2];
        let l3 = limbs[3];
        let p0: u64 = 4891460686036598785;
        let p1: u64 = 2896914383306846353;
        let p2: u64 = 13281191951274694749;
        let p3: u64 = 3486998266802970665;
        proof {
            assert(limbs_value(p0, p1, p2, p3) == field_modulus());
            lemma_limbs_lex(l0, l1, l2, l3, p0, p1, p2, p3);
        }
        let below = l3 < p3 || (l3 == p3 && (l2 < p2 || (l2 == p2 && (l1 < p1 || (l1 == p1
            && l0 < p0)))));
        if below {
            let r = Fr { l0, l1, l2, l3 };
            proof {
                r.lemma_raw();
            }
            Some(r)
        } else {
            None
        }
    }

    /// The little-endian limbs of the canonical representative.
    pub fn to_limbs(&self) -> (r: [u64; 4])
        ensures
            limbs_value(r[0], r[1], r[2], r[3]) == self@,
    {
        proof {
            use_type_invariant(self);
            self.lemma_raw();
        }
        [self.l0, self.l1, self.l2, self.l3]
    }

    /// `true` exactly when the element is zero.
    pub fn is_zero(&self) -> (r: bool)
        ensures
            r == (self@ == 0),
    {
        proof {
            use_type_invariant(self);
            self.lemma_raw();
            if self@ == 0 {
                lemma_limbs_injective(self.l0, self.l1, self.l2, self.l3, 0, 0, 0, 0);
            }
        }
        self.l0 == 0 && self.l1 == 0 && self.l2 == 0 && self.l3 == 0
    }

    /// Field equality: `true` exactly when both elements are the same residue.
    pub fn equals(&self, other: &Fr) -> (r: bool)
        ensures
            r == (self@ == other@),
    {
        proof {
            use_type_invariant(self);
            use_type_invariant(other);
            self.lemma_raw();
            other.lemma_raw();
            if self@ == other@ {
                lemma_limbs_injective(
                    self.l0, self.l1, self.l2, self.l3, other.l0, other.l1, other.l2, other.l3,
                );
            }
        }
        self.l0 == other.l0 && self.l1 == other.l1 && self.l2 == other.l2 && self.l3 == other.l3
    }

    /// The decimal numeral of the element's representative in `[0, p)`, by
    /// `ark_bn254::Fr`'s `Display`.
    ///
    /// Trusted: `ark-ff` displays a prime field element as the `BigUint` of
    /// its canonical representative (`into_bigint`), which `num-bigint` writes
    /// in base ten without leading zeros.
    #[verifier::external_body]
    pub(crate) fn to_decimal(&self) -> (s: String)
        ensures
            s@ == decimal(self@ as nat),
    {
        let a = ark_bn254::Fr::from_bigint(ark_ff::BigInt::new([self.l0, self.l1, self.l2, self.l3]));
        format!("{}", a.unwrap())
    }

    /// Field addition, computed by `ark_bn254::Fr`'s `+`.
    ///
    /// Trusted: `ark-ff`'s `Add` for a prime field returns the sum reduced
    /// modulo `p`; the limbs go in and out through `from_bigint` and
    /// `into_bigint`, which map canonical representatives one to one.
    #[verifier::external_body]
    pub(crate) fn add(&self, other: &Fr) -> (r: Fr)
        ensures
            r@ == fmod(self@ + other@),
    {
        let a = ark_bn254::Fr::from_bigint(ark_ff::BigInt::new([self.l0, self.l1, self.l2, self.l3]));
        let b = ark_bn254::Fr::from_bigint(ark_ff::BigInt::new([other.l0, other.l1, other.l2, other.l3]));
        let s = (a.unwrap() + b.unwrap()).into_bigint().0;
        Fr { l0: s[0], l1: s[1], l2: s[2], l3: s[3] }
    }

    /// Field subtraction, computed by `ark_bn254::Fr`'s `-`.
    ///
    /// Trusted: `ark-ff`'s `Sub` for a prime field returns the difference
    /// reduced into `[0, p)`; the limbs go in and out through `from_bigint`
    /// and `into_bigint`.
    #[verifier::external_body]
    pub(crate) fn sub(&self, other: &Fr) -> (r: Fr)
        ensures
            r@ == fmod(self@ - other@),
    {
        let a = ark_bn254::Fr::from_bigint(ark_ff::BigInt::new([self.l0, self.l1, self.l2, self.l3]));
        let b = ark_bn254::Fr::from_bigint(ark_ff::BigInt::new([other.l0, other.l1, other.l2, other.l3]));
        let s = (a.unwrap() - b.unwrap()).into_bigint().0;
        Fr { l0: s[0], l1: s[1], l2: s[2], l3: s[3] }
    }

    /// Field multiplication, computed by `ark_bn254::Fr`'s `*`.
    ///
    /// Trusted: `ark-ff`'s `Mul` for a prime field returns the product
    /// reduced modulo `p`; the limbs go in and out through `from_bigint` and
    /// `into_bigint`.
    #[verifier::external_body]
    pub(crate) fn mul(&self, other: &Fr) -> (r: Fr)
        ensures
            r@ == fmod(self@ * other@),
    {
        let a = ark_bn254::Fr::from_bigint(ark_ff::BigInt::new([self.l0, self.l1, self.l2, self.l3]));
        let b = ark_bn254::Fr::from_bigint(ark_ff::BigInt::new([other.l0, other.l1, other.l2, other.l3]));
        let s = (a.unwrap() * b.unwrap()).into_bigint().0;
        Fr { l0: s[0], l1: s[1], l2: s[2], l3: s[3] }
    }
}

/// Lexicographic comparison of limbs decides the order of the values.
proof fn lemma_limbs_lex(
    a0: u64, a1: u64, a2: u64, a3: u64,
    b0: u64, b1: u64, b2: u64, b3: u64,
)
    ensures
        limbs_value(a0, a1, a2, a3) < limbs_value(b0, b1, b2, b3) <==> (a3 < b3 || (a3 == b3 && (
        a2 < b2 || (a2 == b2 && (a1 < b1 || (a1 == b1 && a0 < b0)))))),
{
    let r = limb_radix();
    assert(a0 + r * (a1 + r * (a2 + r * a3)) == a0 + r * a1 + r * r * a2 + r * r * r * a3)
        by (nonlinear_arith);
    assert(b0 + r * (b1 + r * (b2 + r * b3)) == b0 + r * b1 + r * r * b2 + r * r * r * b3)
        by (nonlinear_arith);
    let rr = r * r;
    let rrr = r * r * r;
    assert(rr == 340282366920938463463374607431768211456int) by (nonlinear_arith)
        requires r == 18446744073709551616int, rr == r * r;
    assert(rrr == 6277101735386680763835789423207666416102355444464034512896int)
        by (nonlinear_arith)
        requires r == 18446744073709551616int, rrr == r * r * r;
    let av = a0 + r * a1 + rr * a2 + rrr * a3;
    let bv = b0 + r * b1 + rr * b2 + rrr * b3;
    assert(av < bv <==> (a3 < b3 || (a3 == b3 && (a2 < b2 || (a2 == b2 && (a1 < b1 || (a1 == b1
        && a0 < b0))))))) by (nonlinear_arith)
        requires
            av == a0 + r * a1 + rr * a2 + rrr * a3,
            bv == b0 + r * b1 + rr * b2 + rrr * b3,
            r == 18446744073709551616int,
            rr == 340282366920938463463374607431768211456int,
            rrr == 6277101735386680763835789423207666416102355444464034512896int,
            0 <= a0 < r, 0 <= a1 < r, 0 <= a2 < r, 0 <= a3 < r,
            0 <= b0 < r, 0 <= b1 < r, 0 <= b2 < r, 0 <= b3 < r,
    ;
}

impl PartialEq for Fr {
    fn eq(&self, other: &Fr) -> (r: bool) {
        self.equals(other)
    }
}

impl vstd::std_specs::cmp::PartialEqSpecImpl for Fr {
    open spec fn obeys_eq_spec() -> bool {
        true
    }

    open spec fn eq_spec(&self, other: &Fr) -> bool {
        self@ == other@
    }
}

} // verus!
