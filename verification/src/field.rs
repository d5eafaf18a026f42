//! The Pallas base field, modelled as plain integers.
//!
//! A field element is kept in canonical form: four little-endian 64-bit
//! limbs whose combined value is below the field modulus.  The gadget logic
//! only ever needs the handful of operations defined here — comparison,
//! modular addition and subtraction, halving, and powers of two — each
//! specified against the mathematical value of the element.

use vstd::prelude::*;
use vstd::arithmetic::div_mod::{
    lemma_add_mod_noop, lemma_fundamental_div_mod, lemma_fundamental_div_mod_converse,
    lemma_mul_mod_noop_right, lemma_small_mod,
};
use vstd::arithmetic::power2::{lemma2_to64, lemma_pow2_adds, lemma_pow2_unfold, pow2};

verus! {

/// Little-endian 64-bit limbs of the Pallas base field modulus.
pub const MODULUS_LIMB_0: u64 = 0x992d30ed00000001;
/// Second limb of the modulus.
pub const MODULUS_LIMB_1: u64 = 0x224698fc094cf91b;
/// Third limb of the modulus.
pub const MODULUS_LIMB_2: u64 = 0x0000000000000000;
/// Highest limb of the modulus.
pub const MODULUS_LIMB_3: u64 = 0x4000000000000000;

/// The Pallas base field modulus as a mathematical integer.
pub open spec fn modulus() -> nat {
    (MODULUS_LIMB_0 as nat)
        + (MODULUS_LIMB_1 as nat) * 0x10000000000000000
        + (MODULUS_LIMB_2 as nat) * 0x100000000000000000000000000000000
        + (MODULUS_LIMB_3 as nat) * 0x1000000000000000000000000000000000000000000000000
}

/// A Pallas base field element in canonical little-endian limb form.
#[derive(Clone, Copy, Debug, PartialEq, Eq, Structural)]
pub struct Fe {
    /// Least significant limb.
    pub l0: u64,
    /// Second limb.
    pub l1: u64,
    /// Third limb.
    pub l2: u64,
    /// Most significant limb.
    pub l3: u64,
}

impl Fe {
    /// The integer this element stands for.
    pub open spec fn as_nat(&self) -> nat {
        (self.l0 as nat)
            + (self.l1 as nat) * 0x10000000000000000
            + (self.l2 as nat) * 0x100000000000000000000000000000000
            + (self.l3 as nat) * 0x1000000000000000000000000000000000000000000000000
    }

    /// Canonical form: the value is reduced below the modulus.
    pub open spec fn wf(&self) -> bool {
        self.as_nat() < modulus()
    }

    /// The additive identity.
    pub fn zero() -> (r: Fe)
        ensures
            r.as_nat() == 0,
            r.wf(),
    {
        Fe { l0: 0, l1: 0, l2: 0, l3: 0 }
    }

    /// The multiplicative identity.
    pub fn one() -> (r: Fe)
        ensures
            r.as_nat() == 1,
            r.wf(),
    {
        Fe { l0: 1, l1: 0, l2: 0, l3: 0 }
    }

    /// Embeds a machine word into the field.
    pub fn from_u64(x: u64) -> (r: Fe)
        ensures
            r.as_nat() == x,
            r.wf(),
    {
        Fe { l0: x, l1: 0, l2: 0, l3: 0 }
    }

    /// Whether this element is the additive identity.
    pub fn is_zero(&self) -> (r: bool)
        ensures
            r <==> self.as_nat() == 0,
    {
        self.l0 == 0 && self.l1 == 0 && self.l2 == 0 && self.l3 == 0
    }
}

/// The modulus in limb form; not a canonical element, only a subtrahend
/// for the reduction steps below.
fn modulus_limbs() -> (r: Fe)
    ensures
        r.as_nat() == modulus(),
{
    Fe { l0: MODULUS_LIMB_0, l1: MODULUS_LIMB_1, l2: MODULUS_LIMB_2, l3: MODULUS_LIMB_3 }
}

/// One step of a carry chain: adds two limbs and an incoming carry.
fn limb_add(a: u64, b: u64, carry: u64) -> (r: (u64, u64))
    requires
        carry <= 1,
    ensures
        (r.0 as nat) + (r.1 as nat) * 0x10000000000000000 == a + b + carry,
        r.1 <= 1,
{
    let s: u128 = a as u128 + b as u128 + carry as u128;
    let lo: u64 = (s % 0x10000000000000000u128) as u64;
    let hi: u64 = (s / 0x10000000000000000u128) as u64;
    proof {
        lemma_fundamental_div_mod(s as int, 0x10000000000000000);
        assert(s < 2 * 0x10000000000000000) by {
            assert(a as nat <= 0xffffffffffffffff);
        };
    }
    (lo, hi)
}

/// One step of a borrow chain: subtracts a limb and an incoming borrow.
fn limb_sub(a: u64, b: u64, borrow: u64) -> (r: (u64, u64))
    requires
        borrow <= 1,
    ensures
        a as int - b - borrow == r.0 as int - (r.1 as int) * 0x10000000000000000,
        r.1 <= 1,
{
    let d: u128 = 0x10000000000000000u128 + a as u128 - b as u128 - borrow as u128;
    let lo: u64 = (d % 0x10000000000000000u128) as u64;
    let q: u64 = (d / 0x10000000000000000u128) as u64;
    proof {
        lemma_fundamental_div_mod(d as int, 0x10000000000000000);
        assert(d < 2 * 0x10000000000000000) by {
            assert(a as nat <= 0xffffffffffffffff);
        };
    }
    (lo, 1 - q)
}

/// Adds two limb vectors, reporting the outgoing carry.
fn add_limbs(a: &Fe, b: &Fe) -> (r: (Fe, u64))
    ensures
        r.0.as_nat() + (r.1 as nat)
            * 0x10000000000000000000000000000000000000000000000000000000000000000 == a.as_nat()
            + b.as_nat(),
        r.1 <= 1,
{
    let (s0, c1) = limb_add(a.l0, b.l0, 0);
    let (s1, c2) = limb_add(a.l1, b.l1, c1);
    let (s2, c3) = limb_add(a.l2, b.l2, c2);
    let (s3, c4) = limb_add(a.l3, b.l3, c3);
    (Fe { l0: s0, l1: s1, l2: s2, l3: s3 }, c4)
}

/// Subtracts two limb vectors, reporting the outgoing borrow.
fn sub_limbs(a: &Fe, b: &Fe) -> (r: (Fe, u64))
    ensures
        a.as_nat() - b.as_nat() == r.0.as_nat() - (r.1 as nat)
            * 0x10000000000000000000000000000000000000000000000000000000000000000,
        r.1 <= 1,
{
    let (d0, w1) = limb_sub(a.l0, b.l0, 0);
    let (d1, w2) = limb_sub(a.l1, b.l1, w1);
    let (d2, w3) = limb_sub(a.l2, b.l2, w2);
    let (d3, w4) = limb_sub(a.l3, b.l3, w3);
    (Fe { l0: d0, l1: d1, l2: d2, l3: d3 }, w4)
}

impl Fe {
    /// Exact sum; the caller guarantees it fits in four limbs.
    fn add_raw(&self, o: &Fe) -> (r: Fe)
        requires
            self.as_nat() + o.as_nat()
                < 0x10000000000000000000000000000000000000000000000000000000000000000,
        ensures
            r.as_nat() == self.as_nat() + o.as_nat(),
    {
        let (r, carry) = add_limbs(self, o);
        r
    }

    /// Exact difference; the caller guarantees it is not negative.
    fn sub_raw(&self, o: &Fe) -> (r: Fe)
        requires
            o.as_nat() <= self.as_nat(),
        ensures
            r.as_nat() == self.as_nat() - o.as_nat(),
    {
        let (r, borrow) = sub_limbs(self, o);
        r
    }

    /// Strict comparison of the underlying integers.
    pub fn below(&self, o: &Fe) -> (r: bool)
        ensures
            r <==> self.as_nat() < o.as_nat(),
    {
        let (_, borrow) = sub_limbs(self, o);
        borrow == 1
    }

    /// Modular addition of canonical elements.
    pub fn add_mod(&self, o: &Fe) -> (r: Fe)
        requires
            self.wf(),
            o.wf(),
        ensures
            r.wf(),
            r.as_nat() == (self.as_nat() + o.as_nat()) % modulus(),
    {
        let s = self.add_raw(o);
        let m = modulus_limbs();
        if s.below(&m) {
            proof {
                lemma_small_mod(s.as_nat(), modulus());
            }
            s
        } else {
            let r = s.sub_raw(&m);
            proof {
                lemma_fundamental_div_mod_converse(
                    s.as_nat() as int,
                    modulus() as int,
                    1,
                    r.as_nat() as int,
                );
            }
            r
        }
    }

    /// Modular subtraction of canonical elements.
    pub fn sub_mod(&self, o: &Fe) -> (r: Fe)
        requires
            self.wf(),
            o.wf(),
        ensures
            r.wf(),
            r.as_nat() == ((self.as_nat() + modulus() - o.as_nat()) as nat) % modulus(),
    {
        if !self.below(o) {
            let r = self.sub_raw(o);
            proof {
                lemma_fundamental_div_mod_converse(
                    (self.as_nat() + modulus() - o.as_nat()) as int,
                    modulus() as int,
                    1,
                    r.as_nat() as int,
                );
            }
            r
        } else {
            let m = modulus_limbs();
            let gap = m.sub_raw(o);
            let r = self.add_raw(&gap);
            proof {
                lemma_small_mod(r.as_nat(), modulus());
            }
            r
        }
    }

    /// Exact halving of the underlying integer (rounds down).
    fn shr1(&self) -> (r: Fe)
        ensures
            r.as_nat() == self.as_nat() / 2,
    {
        let r = Fe {
            l0: self.l0 / 2 + (self.l1 % 2) * 0x8000000000000000,
            l1: self.l1 / 2 + (self.l2 % 2) * 0x8000000000000000,
            l2: self.l2 / 2 + (self.l3 % 2) * 0x8000000000000000,
            l3: self.l3 / 2,
        };
        proof {
            assert(self.as_nat() == 2 * r.as_nat() + (self.l0 % 2));
            lemma_fundamental_div_mod_converse(
                self.as_nat() as int,
                2,
                r.as_nat() as int,
                (self.l0 % 2) as int,
            );
        }
        r
    }

    /// Division by two in the field: the unique element that doubles back
    /// to this one.
    pub fn halve(&self) -> (r: Fe)
        requires
            self.wf(),
        ensures
            r.wf(),
            r.as_nat() == halve_spec(self.as_nat()),
    {
        proof {
            assert(self.as_nat() % 2 == self.l0 % 2) by {
                lemma_fundamental_div_mod_converse(
                    self.as_nat() as int,
                    2,
                    (self.l1 as nat * 0x8000000000000000 + self.l2 as nat
                        * 0x80000000000000000000000000000000 + self.l3 as nat
                        * 0x800000000000000000000000000000000000000000000000 + self.l0 as nat
                        / 2) as int,
                    (self.l0 % 2) as int,
                );
            };
        }
        if self.l0 % 2 == 0 {
            self.shr1()
        } else {
            let s = self.add_raw(&modulus_limbs());
            s.shr1()
        }
    }

    /// The canonical residue of a power of two.
    pub fn pow2_mod(e: usize) -> (r: Fe)
        ensures
            r.wf(),
            r.as_nat() == pow2(e as nat) % modulus(),
    {
        let mut x = Fe::one();
        proof {
            vstd::arithmetic::power::lemma_pow0(2);
            lemma_small_mod(1, modulus());
        }
        let mut i: usize = 0;
        while i < e
            invariant
                i <= e,
                x.wf(),
                x.as_nat() == pow2(i as nat) % modulus(),
            decreases e - i,
        {
            let d = x.add_mod(&x);
            proof {
                lemma_add_mod_noop(pow2(i as nat) as int, pow2(i as nat) as int, modulus() as int);
                lemma_pow2_unfold((i + 1) as nat);
            }
            x = d;
            i = i + 1;
        }
        x
    }
}

/// Division by two in the field, on the canonical residues: an even value
/// is simply halved, an odd one is lifted by the (odd) modulus first.
pub open spec fn halve_spec(x: nat) -> nat {
    if x % 2 == 0 {
        x / 2
    } else {
        (x + modulus()) / 2
    }
}

/// Repeated field halving: division by a power of two on canonical residues.
pub open spec fn halve_iter(x: nat, k: nat) -> nat
    decreases k,
{
    if k == 0 {
        x
    } else {
        halve_iter(halve_spec(x), (k - 1) as nat)
    }
}

impl Fe {
    /// Builds a canonical element from little-endian limbs, refusing a
    /// value at or above the modulus.
    pub fn from_limbs(l0: u64, l1: u64, l2: u64, l3: u64) -> (r: Option<Fe>)
        ensures
            ({
                let c = Fe { l0, l1, l2, l3 };
                match r {
                    Some(f) => f == c && f.wf(),
                    None => c.as_nat() >= modulus(),
                }
            }),
    {
        let c = Fe { l0, l1, l2, l3 };
        let m = modulus_limbs();
        if c.below(&m) {
            Some(c)
        } else {
            None
        }
    }
}

/// The concrete values of the limb boundary powers of two.
pub proof fn lemma_pow2_limbs()
    ensures
        pow2(64) == 0x10000000000000000,
        pow2(128) == 0x100000000000000000000000000000000,
        pow2(192) == 0x1000000000000000000000000000000000000000000000000,
        pow2(256) == 0x10000000000000000000000000000000000000000000000000000000000000000,
{
    lemma2_to64();
    lemma_pow2_adds(64, 64);
    lemma_pow2_adds(128, 64);
    lemma_pow2_adds(192, 64);
}

/// The modulus is odd.
pub proof fn lemma_modulus_odd()
    ensures
        modulus() % 2 == 1,
{
    lemma_fundamental_div_mod_converse(
        modulus() as int,
        2,
        ((MODULUS_LIMB_0 / 2) as nat + (MODULUS_LIMB_1 as nat) * 0x8000000000000000
            + (MODULUS_LIMB_2 as nat) * 0x80000000000000000000000000000000
            + (MODULUS_LIMB_3 as nat)
            * 0x800000000000000000000000000000000000000000000000) as int,
        1,
    );
}

/// One field halving of a canonical residue stays canonical, vanishes only
/// at zero, and doubles back to its argument.
pub proof fn lemma_halve_spec_props(x: nat)
    requires
        x < modulus(),
    ensures
        halve_spec(x) < modulus(),
        halve_spec(x) == 0 <==> x == 0,
        (2 * halve_spec(x)) % modulus() == x,
{
    lemma_modulus_odd();
    if x % 2 == 0 {
        lemma_fundamental_div_mod(x as int, 2);
        lemma_small_mod(x, modulus());
    } else {
        lemma_add_mod_noop(x as int, modulus() as int, 2);
        lemma_fundamental_div_mod((x + modulus()) as int, 2);
        assert((x + modulus()) % 2 == 0);
        assert(2 * halve_spec(x) == x + modulus());
        lemma_fundamental_div_mod_converse(
            (x + modulus()) as int,
            modulus() as int,
            1,
            x as int,
        );
    }
}

/// Iterated field halving stays canonical, vanishes only at zero, and
/// multiplies back by the matching power of two.
pub proof fn lemma_halve_iter_props(x: nat, k: nat)
    requires
        x < modulus(),
    ensures
        halve_iter(x, k) < modulus(),
        halve_iter(x, k) == 0 <==> x == 0,
        (pow2(k) * halve_iter(x, k)) % modulus() == x,
    decreases k,
{
    if k == 0 {
        vstd::arithmetic::power::lemma_pow0(2);
        assert(pow2(0) == 1);
        assert(pow2(0) * halve_iter(x, 0) == x);
        lemma_small_mod(x, modulus());
    } else {
        lemma_halve_spec_props(x);
        let y = halve_spec(x);
        lemma_halve_iter_props(y, (k - 1) as nat);
        let h = halve_iter(y, (k - 1) as nat);
        lemma_pow2_unfold(k);
        assert(pow2(k) * h == 2 * (pow2((k - 1) as nat) * h)) by {
            assert(pow2(k) == 2 * pow2((k - 1) as nat));
            vstd::arithmetic::mul::lemma_mul_is_associative(
                2,
                pow2((k - 1) as nat) as int,
                h as int,
            );
        };
        lemma_mul_mod_noop_right(2, (pow2((k - 1) as nat) * h) as int, modulus() as int);
        assert((2 * (pow2((k - 1) as nat) * h)) % modulus() == (2 * y) % modulus());
        assert(halve_iter(x, k) == h);
        assert((pow2(k) * h) % modulus() == x);
    }
}

/// A value divisible by a power of two halves down exactly.
pub proof fn lemma_halve_iter_exact(x: nat, k: nat)
    requires
        x < modulus(),
        x % pow2(k) == 0,
    ensures
        halve_iter(x, k) == x / pow2(k),
    decreases k,
{
    vstd::arithmetic::power2::lemma_pow2_pos(k);
    if k == 0 {
        vstd::arithmetic::power::lemma_pow0(2);
        assert(halve_iter(x, 0) == x);
        assert(x / 1 == x) by {
            lemma_fundamental_div_mod_converse(x as int, 1, x as int, 0);
        };
    } else {
        lemma_pow2_unfold(k);
        vstd::arithmetic::power2::lemma_pow2_pos((k - 1) as nat);
        let q = x / pow2(k);
        lemma_fundamental_div_mod(x as int, pow2(k) as int);
        assert(x == pow2(k) * q);
        assert(x == 2 * (pow2((k - 1) as nat) * q)) by {
            vstd::arithmetic::mul::lemma_mul_is_associative(
                2,
                pow2((k - 1) as nat) as int,
                q as int,
            );
        };
        assert(x % 2 == 0) by {
            lemma_fundamental_div_mod_converse(
                x as int,
                2,
                (pow2((k - 1) as nat) * q) as int,
                0,
            );
        };
        assert(halve_spec(x) == pow2((k - 1) as nat) * q) by {
            lemma_fundamental_div_mod_converse(
                x as int,
                2,
                (pow2((k - 1) as nat) * q) as int,
                0,
            );
        };
        assert((pow2((k - 1) as nat) * q) % pow2((k - 1) as nat) == 0) by {
            vstd::arithmetic::div_mod::lemma_mod_multiples_basic(
                q as int,
                pow2((k - 1) as nat) as int,
            );
            vstd::arithmetic::mul::lemma_mul_is_commutative(q as int, pow2((k - 1) as nat) as int);
        };
        lemma_halve_iter_exact(pow2((k - 1) as nat) * q, (k - 1) as nat);
        assert((pow2((k - 1) as nat) * q) / pow2((k - 1) as nat) == q) by {
            lemma_fundamental_div_mod_converse(
                (pow2((k - 1) as nat) * q) as int,
                pow2((k - 1) as nat) as int,
                q as int,
                0,
            );
        };
    }
}

/// Halving steps compose.
pub proof fn lemma_halve_iter_adds(x: nat, a: nat, b: nat)
    ensures
        halve_iter(x, a + b) == halve_iter(halve_iter(x, a), b),
    decreases a,
{
    if a > 0 {
        lemma_halve_iter_adds(halve_spec(x), (a - 1) as nat, b);
    }
}

} // verus!
