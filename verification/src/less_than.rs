//! Less-than comparator built on the range check.
//!
//! A finite field has no native ordering, so `a < b` is reduced to
//! boundedness: with `m = num_bits`, the gadget binds an offset cell to
//! `a_offset = a + 2^m − b` through one linear gate, then range-checks
//! `a` and `a_offset` to `m` bits.  When both operands are in range,
//! `a_offset` stays below `2^m` exactly when `a < b`; the comparison
//! therefore holds exactly when the offset's strict range check does.

use vstd::prelude::*;
use vstd::arithmetic::div_mod::{
    lemma_add_mod_noop_right, lemma_fundamental_div_mod_converse_mod,
    lemma_mod_add_multiples_vanish,
};
use vstd::arithmetic::power2::pow2;

use crate::field::{modulus, Fe};
use crate::native_range_check::{
    chain_spec, lemma_chain_last, ConfigError, NativeRangeCheckChip, NativeRangeCheckConfig,
    RangeCheckWitness,
};

verus! {

/// The canonical residue of `a + 2^num_bits − b`: the value the offset
/// cell is bound to by the comparison gate.
pub open spec fn offset_val(a: nat, b: nat, num_bits: nat) -> nat {
    ((a + pow2(num_bits) + modulus() - b) as nat) % modulus()
}

/// Validated shape of a comparison: one range-check configuration for
/// each of the two bounded operands, over the same shared table.
#[derive(Clone, Copy, Debug, PartialEq, Eq, Structural)]
pub struct LessThanConfig {
    /// Shape of the range check bounding `a`.
    pub range_a_config: NativeRangeCheckConfig,
    /// Shape of the range check bounding `a_offset`.
    pub range_a_offset_config: NativeRangeCheckConfig,
}

impl LessThanConfig {
    /// Both sub-shapes are accepted and identical.
    pub open spec fn wf(&self) -> bool {
        &&& self.range_a_config.wf()
        &&& self.range_a_offset_config == self.range_a_config
    }
}

/// The witness data of one comparison: the three operand cells and the
/// two range-check decompositions.
#[derive(Clone, Debug)]
pub struct LessThanWitness {
    /// The left operand.
    pub a: Fe,
    /// The right operand.
    pub b: Fe,
    /// The offset cell, `a + 2^num_bits − b` in the field.
    pub a_offset: Fe,
    /// Decomposition bounding `a`.
    pub range_a: RangeCheckWitness,
    /// Decomposition bounding `a_offset`.
    pub range_a_offset: RangeCheckWitness,
}

impl LessThanWitness {
    /// The constraints the backend evaluates against this witness: the
    /// linear gate `a_offset − 2^num_bits + b − a = 0` in the field, the
    /// copies tying each decomposition to its operand, and the two
    /// range-check constraint sets.
    pub open spec fn constraints_hold(&self, cfg: LessThanConfig) -> bool {
        &&& (self.a_offset.as_nat() + self.b.as_nat()) % modulus() == (self.a.as_nat() + pow2(
            cfg.range_a_config.num_bits as nat,
        )) % modulus()
        &&& self.range_a.z@.len() > 0 && self.range_a.z@[0] == self.a
        &&& self.range_a_offset.z@.len() > 0 && self.range_a_offset.z@[0] == self.a_offset
        &&& self.range_a.constraints_hold(cfg.range_a_config)
        &&& self.range_a_offset.constraints_hold(cfg.range_a_offset_config)
    }

    /// Whether the assignment this witness describes satisfies the
    /// comparator's constraints.  Only the strict remainders can fail.
    pub fn satisfied(&self) -> (r: bool)
        requires
            self.range_a.z@.len() > 0,
            self.range_a_offset.z@.len() > 0,
        ensures
            r <==> ((self.range_a.strict ==> self.range_a.z@.last().as_nat() == 0)
                && (self.range_a_offset.strict ==> self.range_a_offset.z@.last().as_nat() == 0)),
    {
        let ra = self.range_a.satisfied();
        let ro = self.range_a_offset.satisfied();
        ra && ro
    }
}

/// The less-than gadget.
#[derive(Clone, Copy, Debug, PartialEq, Eq, Structural)]
pub struct LessThanChip {
    /// The validated shape this instance compares against.
    pub config: LessThanConfig,
}

impl LessThanChip {
    /// Wraps a validated configuration.
    pub fn construct(config: LessThanConfig) -> (r: Self)
        ensures
            r.config == config,
    {
        LessThanChip { config }
    }

    /// Validates a requested shape by validating the two identical
    /// range-check shapes it contains, rejecting eagerly with the first
    /// flaw found.
    pub fn configure(window_size: usize, num_bits: usize, num_windows: usize) -> (r: Result<
        LessThanConfig,
        ConfigError,
    >)
        ensures
            r is Ok <==> (NativeRangeCheckConfig { window_size, num_bits, num_windows }).wf(),
            r matches Ok(c) ==> c.wf() && c.range_a_config == (NativeRangeCheckConfig {
                window_size,
                num_bits,
                num_windows,
            }),
            r matches Err(e) ==> e == crate::native_range_check::config_flaw(
                window_size as nat,
                num_bits as nat,
                num_windows as nat,
            ),
    {
        let range_a_config = match NativeRangeCheckChip::configure(
            window_size,
            num_bits,
            num_windows,
        ) {
            Ok(c) => c,
            Err(e) => {
                return Err(e);
            },
        };
        let range_a_offset_config = match NativeRangeCheckChip::configure(
            window_size,
            num_bits,
            num_windows,
        ) {
            Ok(c) => c,
            Err(e) => {
                return Err(e);
            },
        };
        Ok(LessThanConfig { range_a_config, range_a_offset_config })
    }

    /// Computes the offset cell `a + (2^num_bits − b)` in the field —
    /// the value the comparison gate binds to the operands.
    pub fn less_than(&self, a: &Fe, b: &Fe) -> (r: Fe)
        requires
            self.config.wf(),
            a.wf(),
            b.wf(),
        ensures
            r.wf(),
            r.as_nat() == offset_val(
                a.as_nat(),
                b.as_nat(),
                self.config.range_a_config.num_bits as nat,
            ),
            (r.as_nat() + b.as_nat()) % modulus() == (a.as_nat() + pow2(
                self.config.range_a_config.num_bits as nat,
            )) % modulus(),
    {
        let nb = self.config.range_a_config.num_bits;
        let pm = Fe::pow2_mod(nb);
        let gap = pm.sub_mod(b);
        let r = a.add_mod(&gap);
        proof {
            let av = a.as_nat();
            let bv = b.as_nat();
            let p2 = pow2(nb as nat);
            let m = modulus();
            // fold the reduced power of two back into one residue
            assert(gap.as_nat() == ((p2 + m - bv) as nat) % m) by {
                lemma_add_mod_noop_right(((m - bv) as nat) as int, p2 as int, m as int);
            };
            assert(r.as_nat() == ((av + p2 + m - bv) as nat) % m) by {
                lemma_add_mod_noop_right(av as int, (p2 + m - bv) as int, m as int);
            };
            // adding b to the offset yields a + 2^num_bits in the field
            assert((r.as_nat() + bv) % m == (av + p2) % m) by {
                lemma_add_mod_noop_right(bv as int, (av + p2 + m - bv) as int, m as int);
                assert((r.as_nat() + bv) % m == ((av + p2 + m) as nat) % m);
                lemma_mod_add_multiples_vanish((av + p2) as int, m as int);
            };
        }
        r
    }

    /// Range-checks the two bounded operands of a comparison, both to
    /// the same exact bound, against the shared table.
    pub fn less_than_range_check(&self, a: &Fe, a_offset: &Fe, strict: bool) -> (r: (
        RangeCheckWitness,
        RangeCheckWitness,
    ))
        requires
            self.config.wf(),
            a.wf(),
            a_offset.wf(),
        ensures
            r.0.strict == strict,
            r.1.strict == strict,
            r.0.z@.len() > 0 && r.0.z@[0] == *a,
            r.1.z@.len() > 0 && r.1.z@[0] == *a_offset,
            r.0.constraints_hold(self.config.range_a_config) <==> (strict ==> a.as_nat() < pow2(
                self.config.range_a_config.num_bits as nat,
            )),
            r.1.constraints_hold(self.config.range_a_offset_config) <==> (strict
                ==> a_offset.as_nat() < pow2(self.config.range_a_config.num_bits as nat)),
    {
        let range_a_chip = NativeRangeCheckChip::construct(self.config.range_a_config);
        let range_a_offset_chip = NativeRangeCheckChip::construct(
            self.config.range_a_offset_config,
        );
        let wa = range_a_chip.copy_range_check(a, strict);
        let wo = range_a_offset_chip.copy_range_check(a_offset, strict);
        (wa, wo)
    }

    /// Witnesses a full comparison of two fresh operands: assigns `a`,
    /// `b` and the bound offset cell, then range-checks `a` and the
    /// offset.  The whole constraint set is satisfied exactly when, in
    /// strict mode, both `a` and the offset lie below the exact bound.
    pub fn witness_less_than(&self, a: &Fe, b: &Fe, strict: bool) -> (r: LessThanWitness)
        requires
            self.config.wf(),
            a.wf(),
            b.wf(),
        ensures
            r.a == *a,
            r.b == *b,
            r.a_offset.as_nat() == offset_val(
                a.as_nat(),
                b.as_nat(),
                self.config.range_a_config.num_bits as nat,
            ),
            r.range_a.strict == strict,
            r.range_a_offset.strict == strict,
            r.range_a.z@.len() > 0,
            r.range_a_offset.z@.len() > 0,
            r.constraints_hold(self.config) <==> (strict ==> (a.as_nat() < pow2(
                self.config.range_a_config.num_bits as nat,
            ) && r.a_offset.as_nat() < pow2(self.config.range_a_config.num_bits as nat))),
    {
        let a_offset = self.less_than(a, b);
        let (range_a, range_a_offset) = self.less_than_range_check(a, &a_offset, strict);
        LessThanWitness { a: *a, b: *b, a_offset, range_a, range_a_offset }
    }

    /// Witnesses a comparison whose operands are already assigned
    /// elsewhere and reach this gadget through equality-preserving
    /// copies; the witness data is identical to a fresh witness of the
    /// same values.
    pub fn copy_less_than(&self, a: &Fe, b: &Fe, strict: bool) -> (r: LessThanWitness)
        requires
            self.config.wf(),
            a.wf(),
            b.wf(),
        ensures
            r.a == *a,
            r.b == *b,
            r.a_offset.as_nat() == offset_val(
                a.as_nat(),
                b.as_nat(),
                self.config.range_a_config.num_bits as nat,
            ),
            r.range_a.strict == strict,
            r.range_a_offset.strict == strict,
            r.range_a.z@.len() > 0,
            r.range_a_offset.z@.len() > 0,
            r.constraints_hold(self.config) <==> (strict ==> (a.as_nat() < pow2(
                self.config.range_a_config.num_bits as nat,
            ) && r.a_offset.as_nat() < pow2(self.config.range_a_config.num_bits as nat))),
    {
        let a_offset = self.less_than(a, b);
        let (range_a, range_a_offset) = self.less_than_range_check(a, &a_offset, strict);
        LessThanWitness { a: *a, b: *b, a_offset, range_a, range_a_offset }
    }
}

/// An ordered pair of in-range values has a satisfiable strict
/// comparison: the offset lands exactly on `a + 2^num_bits − b`, which is
/// itself in range, so both decomposition chains vanish.
pub proof fn lemma_less_than_satisfiable(a: nat, b: nat, cfg: NativeRangeCheckConfig)
    requires
        cfg.wf(),
        a < b,
        b < pow2(cfg.num_bits as nat),
        pow2(cfg.num_bits as nat) <= modulus(),
    ensures
        offset_val(a, b, cfg.num_bits as nat) == a + pow2(cfg.num_bits as nat) - b,
        offset_val(a, b, cfg.num_bits as nat) < pow2(cfg.num_bits as nat),
        chain_spec(a, cfg, cfg.num_windows as nat) == 0,
        chain_spec(offset_val(a, b, cfg.num_bits as nat), cfg, cfg.num_windows as nat) == 0,
{
    let p2 = pow2(cfg.num_bits as nat);
    let ov = (a + p2 - b) as nat;
    lemma_fundamental_div_mod_converse_mod(
        (a + p2 + modulus() - b) as int,
        modulus() as int,
        1,
        ov as int,
    );
    lemma_chain_last(a, cfg);
    lemma_chain_last(ov, cfg);
}

/// For operands within the exact bound, a strict comparison decides the
/// ordering: both decomposition chains vanish exactly when `a < b`.
pub proof fn lemma_less_than_decides_order(a: nat, b: nat, cfg: NativeRangeCheckConfig)
    requires
        cfg.wf(),
        a < pow2(cfg.num_bits as nat),
        b < pow2(cfg.num_bits as nat),
        2 * pow2(cfg.num_bits as nat) <= modulus(),
    ensures
        (chain_spec(a, cfg, cfg.num_windows as nat) == 0 && chain_spec(
            offset_val(a, b, cfg.num_bits as nat),
            cfg,
            cfg.num_windows as nat,
        ) == 0) <==> a < b,
{
    if a < b {
        lemma_less_than_satisfiable(a, b, cfg);
    } else {
        lemma_less_than_unsatisfiable(a, b, cfg);
    }
}

/// An out-of-order pair of in-range values has an unsatisfiable strict
/// comparison: the offset lands at or above `2^num_bits`, so its chain
/// remainder cannot vanish.  This needs the bound to leave headroom —
/// `2^(num_bits+1)` at most the modulus — so the offset cannot wrap.
pub proof fn lemma_less_than_unsatisfiable(a: nat, b: nat, cfg: NativeRangeCheckConfig)
    requires
        cfg.wf(),
        b <= a,
        a < pow2(cfg.num_bits as nat),
        2 * pow2(cfg.num_bits as nat) <= modulus(),
    ensures
        offset_val(a, b, cfg.num_bits as nat) == a + pow2(cfg.num_bits as nat) - b,
        offset_val(a, b, cfg.num_bits as nat) >= pow2(cfg.num_bits as nat),
        chain_spec(offset_val(a, b, cfg.num_bits as nat), cfg, cfg.num_windows as nat) != 0,
{
    let p2 = pow2(cfg.num_bits as nat);
    let ov = (a + p2 - b) as nat;
    lemma_fundamental_div_mod_converse_mod(
        (a + p2 + modulus() - b) as int,
        modulus() as int,
        1,
        ov as int,
    );
    lemma_chain_last(ov, cfg);
}

} // verus!
