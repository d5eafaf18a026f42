//! Window-based range check.
//!
//! A value is bounded to `NUM_BITS` bits by decomposing it into
//! `NUM_WINDOWS` windows of `WINDOW_SIZE` bits each.  The backend checks
//! one lookup per window — the running value minus `2^WINDOW_SIZE` times
//! its successor must be a table member — and, in strict mode, that the
//! final running value is zero.  This module validates the shape, builds
//! the lookup table, computes the decomposition chain a prover assigns,
//! and proves exactly when the resulting constraints are satisfiable.

use vstd::prelude::*;
use vstd::arithmetic::div_mod::{
    lemma_basic_div, lemma_div_denominator, lemma_div_nonincreasing, lemma_fundamental_div_mod,
    lemma_fundamental_div_mod_converse_div, lemma_fundamental_div_mod_converse_mod,
    lemma_add_mod_noop_right, lemma_mod_add_multiples_vanish, lemma_mod_bound,
    lemma_mod_breakdown, lemma_mod_decreases, lemma_mod_mod, lemma_mod_multiples_basic,
    lemma_mod_multiples_vanish, lemma_small_mod,
};
use vstd::arithmetic::mul::lemma_mul_is_commutative;
use vstd::arithmetic::power2::{
    lemma2_to64, lemma_pow2_adds, lemma_pow2_pos, lemma_pow2_strictly_increases,
    lemma_pow2_unfold, pow2,
};

use crate::field::{halve_iter, halve_spec, lemma_halve_iter_adds, lemma_halve_iter_exact,
    lemma_halve_iter_props, lemma_pow2_limbs, modulus, Fe};

verus! {

/// Why a requested range-check shape was refused.
#[derive(Clone, Copy, Debug, PartialEq, Eq, Structural)]
pub enum ConfigError {
    /// A window of zero bits makes no progress.
    WindowSizeZero,
    /// A window value must fit in a machine word.
    WindowSizeTooLarge,
    /// The bound may not exceed the four-limb representation.
    NumBitsTooLarge,
    /// The windows together cannot hold the requested bit length.
    NotEnoughWindows,
    /// A whole window of padding would be left over.
    TooManyWindows,
}

/// The first check a shape fails, in the order the checks run.
pub open spec fn config_flaw(window_size: nat, num_bits: nat, num_windows: nat) -> ConfigError {
    if window_size == 0 {
        ConfigError::WindowSizeZero
    } else if window_size > 63 {
        ConfigError::WindowSizeTooLarge
    } else if num_bits > 256 {
        ConfigError::NumBitsTooLarge
    } else if window_size * num_windows >= num_bits + window_size {
        ConfigError::TooManyWindows
    } else {
        ConfigError::NotEnoughWindows
    }
}

/// Validated shape of a range check: `num_bits` bits split into
/// `num_windows` windows of `window_size` bits, zero-padded at the top.
#[derive(Clone, Copy, Debug, PartialEq, Eq, Structural)]
pub struct NativeRangeCheckConfig {
    /// Bits per window.
    pub window_size: usize,
    /// The exact bound enforced in strict mode.
    pub num_bits: usize,
    /// Windows per decomposition.
    pub num_windows: usize,
}

impl NativeRangeCheckConfig {
    /// A shape the gadget accepts: windows fit a machine word, the bound
    /// fits the representation, the windows cover the bound, and less
    /// than one whole window of padding is left over.
    pub open spec fn wf(&self) -> bool {
        &&& 1 <= self.window_size <= 63
        &&& self.num_bits <= 256
        &&& self.num_bits <= self.window_size * self.num_windows
        &&& self.window_size * self.num_windows < self.num_bits + self.window_size
    }
}

/// The `i`-th window of a value: `window_size` bits starting at bit
/// `window_size * i` of the value truncated to `num_bits` bits.
pub open spec fn window_spec(v: nat, cfg: NativeRangeCheckConfig, i: nat) -> nat {
    ((v % pow2(cfg.num_bits as nat)) / pow2((cfg.window_size as nat) * i)) % pow2(
        cfg.window_size as nat,
    )
}

/// The decomposition chain: the value itself, then, step by step, the
/// field quotient of the running value minus its window by the window
/// radix.  This is exactly the sequence of cells a prover assigns.
pub open spec fn chain_spec(v: nat, cfg: NativeRangeCheckConfig, i: nat) -> nat
    decreases i,
{
    if i == 0 {
        v
    } else {
        halve_iter(
            sub_p(chain_spec(v, cfg, (i - 1) as nat), window_spec(v, cfg, (i - 1) as nat)),
            cfg.window_size as nat,
        )
    }
}

/// Field subtraction on canonical residues.
pub open spec fn sub_p(a: nat, b: nat) -> nat {
    ((a + modulus() - b) as nat) % modulus()
}

/// The sum of the first `n` windows, each at its radix position.
pub open spec fn windows_sum(v: nat, cfg: NativeRangeCheckConfig, n: nat) -> nat
    decreases n,
{
    if n == 0 {
        0
    } else {
        windows_sum(v, cfg, (n - 1) as nat) + window_spec(v, cfg, (n - 1) as nat) * pow2(
            (cfg.window_size as nat) * ((n - 1) as nat),
        )
    }
}

/// The range-check gadget.
#[derive(Clone, Copy, Debug, PartialEq, Eq, Structural)]
pub struct NativeRangeCheckChip {
    /// The validated shape this instance decomposes against.
    pub config: NativeRangeCheckConfig,
}

/// The witness data of one range check: the decomposition chain and the
/// window values, ready to be assigned to consecutive backend rows.
#[derive(Clone, Debug)]
pub struct RangeCheckWitness {
    /// Chain cells; `num_windows + 1` of them, the first being the value.
    pub z: Vec<Fe>,
    /// Window values; each is a lookup-table member.
    pub k: Vec<u64>,
    /// Whether the final chain cell is additionally constrained to zero.
    pub strict: bool,
}

impl RangeCheckWitness {
    /// The constraints the backend evaluates against this witness: one
    /// lookup per window row tying consecutive chain cells, and, in
    /// strict mode, the final cell pinned to zero.
    pub open spec fn constraints_hold(&self, cfg: NativeRangeCheckConfig) -> bool {
        &&& self.z@.len() == cfg.num_windows + 1
        &&& self.k@.len() == cfg.num_windows
        &&& forall|i: int|
            0 <= i < cfg.num_windows ==> (#[trigger] self.k@[i]) < pow2(cfg.window_size as nat)
        &&& forall|i: int|
            0 <= i < cfg.num_windows ==> (#[trigger] self.z@[i]).as_nat() == ((self.k@[i] as nat)
                + pow2(cfg.window_size as nat) * self.z@[i + 1].as_nat()) % modulus()
        &&& (self.strict ==> self.z@[cfg.num_windows as int].as_nat() == 0)
    }

    /// Whether the assignment this witness describes satisfies the
    /// gadget's constraints.  The lookups always hold of a computed
    /// witness, so only the strict remainder can fail.
    pub fn satisfied(&self) -> (r: bool)
        requires
            self.z@.len() > 0,
        ensures
            r <==> (self.strict ==> self.z@.last().as_nat() == 0),
    {
        if self.strict {
            self.z[self.z.len() - 1].is_zero()
        } else {
            true
        }
    }
}

impl NativeRangeCheckChip {
    /// Wraps a validated configuration.
    pub fn construct(config: NativeRangeCheckConfig) -> (r: Self)
        ensures
            r.config == config,
    {
        NativeRangeCheckChip { config }
    }

    /// Validates a requested shape, rejecting eagerly — before any
    /// witness work — with the first flaw found.
    pub fn configure(window_size: usize, num_bits: usize, num_windows: usize) -> (r: Result<
        NativeRangeCheckConfig,
        ConfigError,
    >)
        ensures
            r is Ok <==> (NativeRangeCheckConfig { window_size, num_bits, num_windows }).wf(),
            r matches Ok(c) ==> c == (NativeRangeCheckConfig { window_size, num_bits, num_windows }),
            r matches Err(e) ==> e == config_flaw(
                window_size as nat,
                num_bits as nat,
                num_windows as nat,
            ),
    {
        if window_size == 0 {
            Err(ConfigError::WindowSizeZero)
        } else if window_size > 63 {
            Err(ConfigError::WindowSizeTooLarge)
        } else if num_bits > 256 {
            Err(ConfigError::NumBitsTooLarge)
        } else if num_windows > 256 {
            proof {
                assert((window_size as nat) * (num_windows as nat) >= (num_bits as nat)
                    + (window_size as nat)) by (nonlinear_arith)
                    requires
                        num_windows as nat > 256,
                        1 <= window_size as nat,
                        num_bits as nat <= 256,
                ;
            }
            Err(ConfigError::TooManyWindows)
        } else {
            proof {
                assert((window_size as nat) * (num_windows as nat) <= 63 * 256)
                    by (nonlinear_arith)
                    requires
                        window_size as nat <= 63,
                        num_windows as nat <= 256,
                ;
            }
            let cap = window_size * num_windows;
            if cap >= num_bits + window_size {
                Err(ConfigError::TooManyWindows)
            } else if cap < num_bits {
                Err(ConfigError::NotEnoughWindows)
            } else {
                Ok(NativeRangeCheckConfig { window_size, num_bits, num_windows })
            }
        }
    }

    /// The shared lookup table: every legal window value exactly once,
    /// in order — the rows `0, 1, …, 2^window_size − 1`.
    pub fn load_k_table(config: &NativeRangeCheckConfig) -> (t: Vec<u64>)
        requires
            config.wf(),
            config.window_size < 32,
        ensures
            t@.len() == pow2(config.window_size as nat),
            forall|j: int| 0 <= j < t@.len() ==> t@[j] == j,
    {
        let w = config.window_size;
        let mut n: usize = 1;
        let mut i: usize = 0;
        proof {
            vstd::arithmetic::power::lemma_pow0(2);
        }
        while i < w
            invariant
                i <= w,
                w < 32,
                n == pow2(i as nat),
            decreases w - i,
        {
            proof {
                lemma2_to64();
                if (i as nat) < 31 {
                    lemma_pow2_strictly_increases(i as nat, 31);
                }
                lemma_pow2_unfold((i + 1) as nat);
            }
            n = n * 2;
            i = i + 1;
        }
        proof {
            lemma2_to64();
            if (w as nat) < 32 {
                lemma_pow2_strictly_increases(w as nat, 32);
            }
        }
        let mut t: Vec<u64> = Vec::new();
        let mut j: usize = 0;
        while j < n
            invariant
                t@.len() == j,
                j <= n,
                n < 0x100000000,
                forall|x: int| 0 <= x < j ==> t@[x] == x,
            decreases n - j,
        {
            t.push(j as u64);
            j = j + 1;
        }
        t
    }

    /// Splits a value into its window values: the bits of the value,
    /// truncated to `num_bits`, taken `window_size` at a time.
    fn decompose_value(&self, v: &Fe) -> (r: Vec<u64>)
        requires
            self.config.wf(),
        ensures
            r@.len() == self.config.num_windows,
            forall|i: int|
                0 <= i < r@.len() ==> (#[trigger] r@[i]) as nat == window_spec(
                    v.as_nat(),
                    self.config,
                    i as nat,
                ),
            forall|i: int|
                0 <= i < r@.len() ==> ((#[trigger] r@[i]) as nat) < pow2(
                    self.config.window_size as nat,
                ),
    {
        let w = self.config.window_size;
        let nb = self.config.num_bits;
        let nw = self.config.num_windows;
        let ghost l: nat = v.as_nat() % pow2(nb as nat);
        let mut ks: Vec<u64> = Vec::new();
        let mut i: usize = 0;
        while i < nw
            invariant
                self.config.wf(),
                w == self.config.window_size,
                nb == self.config.num_bits,
                nw == self.config.num_windows,
                l == v.as_nat() % pow2(nb as nat),
                ks@.len() == i,
                i <= nw,
                forall|x: int|
                    0 <= x < i ==> (#[trigger] ks@[x]) as nat == window_spec(
                        v.as_nat(),
                        self.config,
                        x as nat,
                    ),
                forall|x: int|
                    0 <= x < i ==> ((#[trigger] ks@[x]) as nat) < pow2(w as nat),
            decreases nw - i,
        {
            proof {
                assert((w as nat) * (i as nat) + (w as nat) <= (w as nat) * (nw as nat))
                    by (nonlinear_arith)
                    requires
                        (i as nat) < (nw as nat),
                ;
            }
            let mut k: u64 = 0;
            let mut t: usize = 0;
            proof {
                vstd::arithmetic::power::lemma_pow0(2);
                lemma_pow2_pos((w as nat) * (i as nat));
                lemma_small_mod(0, pow2((w as nat) * (i as nat)) as nat);
                assert((l / pow2((w as nat) * (i as nat))) % pow2(0) == 0) by {
                    lemma_fundamental_div_mod_converse_mod(
                        (l / pow2((w as nat) * (i as nat))) as int,
                        1,
                        (l / pow2((w as nat) * (i as nat))) as int,
                        0,
                    );
                };
            }
            while t < w
                invariant
                    self.config.wf(),
                    w == self.config.window_size,
                    nb == self.config.num_bits,
                    l == v.as_nat() % pow2(nb as nat),
                    i < nw,
                    nw == self.config.num_windows,
                    t <= w,
                    (w as nat) * (i as nat) + (w as nat) <= (w as nat) * (nw as nat),
                    k as nat == (l / pow2((w as nat) * (i as nat))) % pow2(t as nat),
                decreases w - t,
            {
                let ghost base: nat = (w as nat) * (i as nat);
                proof {
                    lemma2_to64();
                    vstd::arithmetic::power2::lemma2_to64_rest();
                    lemma_pow2_strictly_increases(w as nat, 64);
                }
                let j = w * i + t;
                proof {
                    assert(j as nat == base + t as nat);
                    lemma_window_bit_step(l, base, t as nat);
                }
                let b = if j < nb {
                    proof {
                        lemma_truncated_bit_low(v.as_nat(), nb as nat, j as nat);
                    }
                    bit_of(v, j)
                } else {
                    proof {
                        lemma_truncated_bit_high(v.as_nat(), nb as nat, j as nat);
                    }
                    false
                };
                proof {
                    lemma_pow2_pos(t as nat);
                    lemma_pow2_pos(j as nat);
                    lemma_mod_bound((l / pow2(base)) as int, pow2(t as nat) as int);
                    lemma_pow2_unfold((t + 1) as nat);
                    if ((t + 1) as nat) < (w as nat) {
                        lemma_pow2_strictly_increases((t + 1) as nat, w as nat);
                    }
                    lemma_mod_bound((v.as_nat() / pow2(j as nat)) as int, 2);
                    lemma_mod_bound((l / pow2(j as nat)) as int, 2);
                }
                if b {
                    let p = pow2_u64(t);
                    k = k + p;
                    proof {
                        assert(bit_spec(l, base + t as nat) == 1);
                        assert((l / pow2(base)) % pow2(t as nat + 1) == (l / pow2(base)) % pow2(
                            t as nat,
                        ) + pow2(t as nat) * 1);
                        assert(k as nat == (l / pow2(base)) % pow2((t + 1) as nat));
                    }
                } else {
                    proof {
                        assert(bit_spec(l, base + t as nat) == 0);
                        assert((l / pow2(base)) % pow2(t as nat + 1) == (l / pow2(base)) % pow2(
                            t as nat,
                        ) + pow2(t as nat) * 0);
                        assert(k as nat == (l / pow2(base)) % pow2((t + 1) as nat));
                    }
                }
                t = t + 1;
            }
            proof {
                assert(k as nat == window_spec(v.as_nat(), self.config, i as nat));
                lemma_pow2_pos(w as nat);
                lemma_mod_bound((l / pow2((w as nat) * (i as nat))) as int, pow2(w as nat) as int);
            }
            ks.push(k);
            i = i + 1;
        }
        ks
    }

    /// Computes the decomposition chain for `z0`: the chain starts at the
    /// value, each step strips the low window and divides by the window
    /// radix in the field, and the window values are recorded for the
    /// lookup rows.  Every lookup constraint holds of the returned
    /// witness; its strict constraint holds exactly when the value is
    /// below `2^num_bits`.
    #[verifier::rlimit(100)]
    pub fn decompose(&self, z0: &Fe, strict: bool) -> (r: RangeCheckWitness)
        requires
            self.config.wf(),
            z0.wf(),
        ensures
            r.strict == strict,
            r.z@.len() == self.config.num_windows + 1,
            r.k@.len() == self.config.num_windows,
            r.z@[0] == *z0,
            forall|i: int|
                0 <= i < r.z@.len() ==> (#[trigger] r.z@[i]).wf() && r.z@[i].as_nat() == chain_spec(
                    z0.as_nat(),
                    self.config,
                    i as nat,
                ),
            forall|i: int|
                0 <= i < r.k@.len() ==> (#[trigger] r.k@[i]) as nat == window_spec(
                    z0.as_nat(),
                    self.config,
                    i as nat,
                ),
            r.constraints_hold(self.config) <==> (strict ==> z0.as_nat() < pow2(
                self.config.num_bits as nat,
            )),
    {
        let w = self.config.window_size;
        let nw = self.config.num_windows;
        let ks = self.decompose_value(z0);
        let zs = self.chain_cells(z0, &ks);
        let r = RangeCheckWitness { z: zs, k: ks, strict };
        proof {
            lemma_chain_last(z0.as_nat(), self.config);
            assert forall|i: int| 0 <= i < nw implies (#[trigger] r.z@[i]).as_nat() == ((r.k@[
                i
            ] as nat) + pow2(w as nat) * r.z@[i + 1].as_nat()) % modulus() by {
                lemma_chain_link(z0.as_nat(), self.config, i as nat);
            };
        }
        r
    }

    /// Computes the chain cells over the extracted windows.
    #[verifier::rlimit(100)]
    #[verifier::spinoff_prover]
    fn chain_cells(&self, z0: &Fe, ks: &Vec<u64>) -> (zs: Vec<Fe>)
        requires
            self.config.wf(),
            z0.wf(),
            ks@.len() == self.config.num_windows,
            forall|x: int|
                0 <= x < ks@.len() ==> (#[trigger] ks@[x]) as nat == window_spec(
                    z0.as_nat(),
                    self.config,
                    x as nat,
                ),
            forall|x: int|
                0 <= x < ks@.len() ==> ((#[trigger] ks@[x]) as nat) < pow2(
                    self.config.window_size as nat,
                ),
        ensures
            zs@.len() == self.config.num_windows + 1,
            zs@[0] == *z0,
            forall|i: int|
                0 <= i < zs@.len() ==> (#[trigger] zs@[i]).wf() && zs@[i].as_nat() == chain_spec(
                    z0.as_nat(),
                    self.config,
                    i as nat,
                ),
    {
        let nw = self.config.num_windows;
        let mut zs: Vec<Fe> = Vec::new();
        zs.push(*z0);
        let mut z: Fe = *z0;
        let mut i: usize = 0;
        while i < nw
            invariant
                self.config.wf(),
                nw == self.config.num_windows,
                z0.wf(),
                ks@.len() == nw,
                forall|x: int|
                    0 <= x < ks@.len() ==> (#[trigger] ks@[x]) as nat == window_spec(
                        z0.as_nat(),
                        self.config,
                        x as nat,
                    ),
                forall|x: int|
                    0 <= x < ks@.len() ==> ((#[trigger] ks@[x]) as nat) < pow2(
                        self.config.window_size as nat,
                    ),
                zs@.len() == i + 1,
                i <= nw,
                z == zs@[i as int],
                zs@[0] == *z0,
                forall|x: int| 0 <= x < zs@.len() ==> (#[trigger] zs@[x]).wf(),
                forall|x: int|
                    0 <= x < i ==> zs@[x + 1].as_nat() == halve_iter(
                        sub_p(zs@[x].as_nat(), (#[trigger] ks@[x]) as nat),
                        self.config.window_size as nat,
                    ),
            decreases nw - i,
        {
            let c = self.chain_step(&z, ks[i]);
            zs.push(c);
            z = c;
            i = i + 1;
        }
        proof {
            lemma_steps_follow_chain(zs@, ks@, self.config, nw as nat);
        }
        zs
    }

    /// One chain step: strips a window value and divides by the window
    /// radix in the field.
    fn chain_step(&self, z: &Fe, k: u64) -> (c: Fe)
        requires
            self.config.wf(),
            z.wf(),
            (k as nat) < pow2(self.config.window_size as nat),
        ensures
            c.wf(),
            c.as_nat() == halve_iter(sub_p(z.as_nat(), k as nat), self.config.window_size as nat),
    {
        let w = self.config.window_size;
        let kfe = Fe::from_u64(k);
        proof {
            lemma2_to64();
            vstd::arithmetic::power2::lemma2_to64_rest();
            if (w as nat) < 63 {
                lemma_pow2_strictly_increases(w as nat, 63);
            }
        }
        let mut c = z.sub_mod(&kfe);
        let ghost s0: nat = sub_p(z.as_nat(), k as nat);
        let mut h: usize = 0;
        while h < w
            invariant
                h <= w,
                c.wf(),
                c.as_nat() == halve_iter(s0, h as nat),
            decreases w - h,
        {
            proof {
                lemma_halve_iter_adds(s0, h as nat, 1);
                let y = halve_iter(s0, h as nat);
                assert(halve_iter(y, 1) == halve_iter(halve_spec(y), 0));
                assert(halve_iter(halve_spec(y), 0) == halve_spec(y));
            }
            c = c.halve();
            h = h + 1;
        }
        c
    }

    /// Range-checks a freshly witnessed value.
    pub fn witness_range_check(&self, value: &Fe, strict: bool) -> (r: RangeCheckWitness)
        requires
            self.config.wf(),
            value.wf(),
        ensures
            r.strict == strict,
            r.z@.len() == self.config.num_windows + 1,
            r.k@.len() == self.config.num_windows,
            r.z@[0] == *value,
            forall|i: int|
                0 <= i < r.z@.len() ==> (#[trigger] r.z@[i]).wf() && r.z@[i].as_nat() == chain_spec(
                    value.as_nat(),
                    self.config,
                    i as nat,
                ),
            forall|i: int|
                0 <= i < r.k@.len() ==> (#[trigger] r.k@[i]) as nat == window_spec(
                    value.as_nat(),
                    self.config,
                    i as nat,
                ),
            r.constraints_hold(self.config) <==> (strict ==> value.as_nat() < pow2(
                self.config.num_bits as nat,
            )),
    {
        self.decompose(value, strict)
    }

    /// Range-checks a value that is already assigned elsewhere and reaches
    /// this gadget through an equality-preserving copy; the witness data
    /// is identical to a fresh witness of the same value.
    pub fn copy_range_check(&self, value: &Fe, strict: bool) -> (r: RangeCheckWitness)
        requires
            self.config.wf(),
            value.wf(),
        ensures
            r.strict == strict,
            r.z@.len() == self.config.num_windows + 1,
            r.k@.len() == self.config.num_windows,
            r.z@[0] == *value,
            forall|i: int|
                0 <= i < r.z@.len() ==> (#[trigger] r.z@[i]).wf() && r.z@[i].as_nat() == chain_spec(
                    value.as_nat(),
                    self.config,
                    i as nat,
                ),
            forall|i: int|
                0 <= i < r.k@.len() ==> (#[trigger] r.k@[i]) as nat == window_spec(
                    value.as_nat(),
                    self.config,
                    i as nat,
                ),
            r.constraints_hold(self.config) <==> (strict ==> value.as_nat() < pow2(
                self.config.num_bits as nat,
            )),
    {
        self.decompose(value, strict)
    }
}

/// Cells that start at the value and follow the stripping step, over the
/// true window values, are exactly the decomposition chain.
proof fn lemma_steps_follow_chain(zs: Seq<Fe>, ks: Seq<u64>, cfg: NativeRangeCheckConfig, n: nat)
    requires
        n < zs.len(),
        n <= ks.len(),
        zs.len() > 0,
        forall|x: int|
            0 <= x < ks.len() ==> (#[trigger] ks[x]) as nat == window_spec(
                zs[0].as_nat(),
                cfg,
                x as nat,
            ),
        forall|x: int|
            0 <= x < n ==> zs[x + 1].as_nat() == halve_iter(
                sub_p(zs[x].as_nat(), (#[trigger] ks[x]) as nat),
                cfg.window_size as nat,
            ),
    ensures
        forall|i: int|
            0 <= i <= n ==> (#[trigger] zs[i]).as_nat() == chain_spec(
                zs[0].as_nat(),
                cfg,
                i as nat,
            ),
    decreases n,
{
    if n == 0 {
        assert(zs[0].as_nat() == chain_spec(zs[0].as_nat(), cfg, 0));
    } else {
        lemma_steps_follow_chain(zs, ks, cfg, (n - 1) as nat);
        let j = (n - 1) as int;
        assert(zs[j].as_nat() == chain_spec(zs[0].as_nat(), cfg, (n - 1) as nat));
        assert(zs[j + 1].as_nat() == halve_iter(
            sub_p(zs[j].as_nat(), ks[j] as nat),
            cfg.window_size as nat,
        ));
        assert(chain_spec(zs[0].as_nat(), cfg, n) == halve_iter(
            sub_p(
                chain_spec(zs[0].as_nat(), cfg, (n - 1) as nat),
                window_spec(zs[0].as_nat(), cfg, (n - 1) as nat),
            ),
            cfg.window_size as nat,
        ));
        assert(zs[n as int].as_nat() == chain_spec(zs[0].as_nat(), cfg, n));
    }
}

/// The bit of a value at a given position.
pub open spec fn bit_spec(x: nat, j: nat) -> nat {
    (x / pow2(j)) % 2
}

/// A power of two as a machine word.
fn pow2_u64(e: usize) -> (r: u64)
    requires
        e < 64,
    ensures
        r as nat == pow2(e as nat),
{
    let mut r: u64 = 1;
    let mut i: usize = 0;
    proof {
        vstd::arithmetic::power::lemma_pow0(2);
    }
    while i < e
        invariant
            i <= e,
            e < 64,
            r as nat == pow2(i as nat),
        decreases e - i,
    {
        proof {
            lemma2_to64();
            vstd::arithmetic::power2::lemma2_to64_rest();
            if (i as nat) < 63 {
                lemma_pow2_strictly_increases(i as nat, 63);
            }
            lemma_pow2_unfold((i + 1) as nat);
        }
        r = r * 2;
        i = i + 1;
    }
    r
}

/// Bit extraction agrees between a four-limb value and the limb holding
/// the bit.
proof fn lemma_limb_bit(x: nat, lo: nat, limb: nat, hi: nat, q: nat, rr: nat)
    requires
        rr < 64,
        lo < pow2(64 * q),
        limb < 0x10000000000000000,
        x == lo + pow2(64 * q) * (limb + 0x10000000000000000 * hi),
    ensures
        bit_spec(x, 64 * q + rr) == (limb / pow2(rr)) % 2,
{
    lemma_pow2_limbs();
    lemma_pow2_pos(64 * q);
    lemma_pow2_pos(rr);
    let bq = pow2(64 * q);
    let k = limb + 0x10000000000000000 * hi;
    assert(x / bq == k) by {
        lemma_mul_is_commutative(bq as int, k as int);
        lemma_fundamental_div_mod_converse_div(x as int, bq as int, k as int, lo as int);
    };
    lemma_pow2_adds(64 * q, rr);
    assert(x / pow2(64 * q + rr) == k / pow2(rr)) by {
        lemma_div_denominator(x as int, bq as int, pow2(rr) as int);
    };
    let pr = pow2(rr);
    let t = limb / pr + pow2((64 - rr) as nat) * hi;
    lemma_fundamental_div_mod(limb as int, pr as int);
    lemma_pow2_adds(rr, (64 - rr) as nat);
    assert(k == t * pr + (limb % pr)) by (nonlinear_arith)
        requires
            k == limb + 0x10000000000000000 * hi,
            limb == pr * (limb / pr) + limb % pr,
            pow2(64) == pr * pow2((64 - rr) as nat),
            pow2(64) == 0x10000000000000000,
            t == limb / pr + pow2((64 - rr) as nat) * hi,
    ;
    assert(k / pr == t) by {
        lemma_mod_bound(limb as int, pr as int);
        lemma_fundamental_div_mod_converse_div(k as int, pr as int, t as int, (limb % pr) as int);
    };
    lemma_pow2_unfold((64 - rr) as nat);
    assert(t % 2 == (limb / pr) % 2) by {
        assert(t == 2 * (pow2((63 - rr) as nat) * hi) + limb / pr) by (nonlinear_arith)
            requires
                t == limb / pr + pow2((64 - rr) as nat) * hi,
                pow2((64 - rr) as nat) == 2 * pow2((63 - rr) as nat),
        ;
        lemma_mod_multiples_vanish((pow2((63 - rr) as nat) * hi) as int, (limb / pr) as int, 2);
    };
}

/// Reads one bit of a field element.
fn bit_of(v: &Fe, j: usize) -> (r: bool)
    requires
        j < 256,
    ensures
        r <==> bit_spec(v.as_nat(), j as nat) == 1,
{
    proof {
        lemma_pow2_limbs();
        vstd::arithmetic::power::lemma_pow0(2);
    }
    let (limb, rr): (u64, usize) = if j < 64 {
        proof {
            lemma_limb_bit(
                v.as_nat(),
                0,
                v.l0 as nat,
                (v.l1 as nat) + (v.l2 as nat) * 0x10000000000000000 + (v.l3 as nat)
                    * 0x100000000000000000000000000000000,
                0,
                j as nat,
            );
        }
        (v.l0, j)
    } else if j < 128 {
        proof {
            assert(v.as_nat() == (v.l0 as nat) + pow2(64) * ((v.l1 as nat) + 0x10000000000000000
                * ((v.l2 as nat) + 0x10000000000000000 * (v.l3 as nat)))) by (nonlinear_arith)
                requires
                    v.as_nat() == (v.l0 as nat) + (v.l1 as nat) * 0x10000000000000000 + (
                    v.l2 as nat) * 0x100000000000000000000000000000000 + (v.l3 as nat)
                        * 0x1000000000000000000000000000000000000000000000000,
                    pow2(64) == 0x10000000000000000,
            ;
            lemma_limb_bit(
                v.as_nat(),
                v.l0 as nat,
                v.l1 as nat,
                (v.l2 as nat) + (v.l3 as nat) * 0x10000000000000000,
                1,
                (j - 64) as nat,
            );
        }
        (v.l1, j - 64)
    } else if j < 192 {
        proof {
            assert(v.as_nat() == ((v.l0 as nat) + (v.l1 as nat) * 0x10000000000000000) + pow2(128)
                * ((v.l2 as nat) + 0x10000000000000000 * (v.l3 as nat))) by (nonlinear_arith)
                requires
                    v.as_nat() == (v.l0 as nat) + (v.l1 as nat) * 0x10000000000000000 + (
                    v.l2 as nat) * 0x100000000000000000000000000000000 + (v.l3 as nat)
                        * 0x1000000000000000000000000000000000000000000000000,
                    pow2(128) == 0x100000000000000000000000000000000,
            ;
            lemma_limb_bit(
                v.as_nat(),
                (v.l0 as nat) + (v.l1 as nat) * 0x10000000000000000,
                v.l2 as nat,
                v.l3 as nat,
                2,
                (j - 128) as nat,
            );
        }
        (v.l2, j - 128)
    } else {
        proof {
            assert(v.as_nat() == ((v.l0 as nat) + (v.l1 as nat) * 0x10000000000000000 + (
            v.l2 as nat) * 0x100000000000000000000000000000000) + pow2(192) * ((v.l3 as nat)
                + 0x10000000000000000 * 0)) by (nonlinear_arith)
                requires
                    v.as_nat() == (v.l0 as nat) + (v.l1 as nat) * 0x10000000000000000 + (
                    v.l2 as nat) * 0x100000000000000000000000000000000 + (v.l3 as nat)
                        * 0x1000000000000000000000000000000000000000000000000,
                    pow2(192) == 0x1000000000000000000000000000000000000000000000000,
            ;
            lemma_limb_bit(
                v.as_nat(),
                (v.l0 as nat) + (v.l1 as nat) * 0x10000000000000000 + (v.l2 as nat)
                    * 0x100000000000000000000000000000000,
                v.l3 as nat,
                0,
                3,
                (j - 192) as nat,
            );
        }
        (v.l3, j - 192)
    };
    let pw = pow2_u64(rr);
    proof {
        lemma_pow2_pos(rr as nat);
    }
    (limb / pw) % 2 == 1
}

/// Shifting twice is shifting by the sum.
proof fn lemma_shift_twice(x: nat, a: nat, b: nat)
    ensures
        (x / pow2(a)) / pow2(b) == x / pow2(a + b),
{
    lemma_pow2_pos(a);
    lemma_pow2_pos(b);
    lemma_pow2_adds(a, b);
    lemma_div_denominator(x as int, pow2(a) as int, pow2(b) as int);
}

/// Shifting a truncated value: the low bits of a shift.
proof fn lemma_trunc_shift(v: nat, nb: nat, j: nat)
    requires
        j <= nb,
    ensures
        (v % pow2(nb)) / pow2(j) == (v / pow2(j)) % pow2((nb - j) as nat),
{
    lemma_pow2_pos(j);
    lemma_pow2_pos((nb - j) as nat);
    lemma_pow2_adds(j, (nb - j) as nat);
    lemma_mod_breakdown(v as int, pow2(j) as int, pow2((nb - j) as nat) as int);
    lemma_mod_bound(v as int, pow2(j) as int);
    assert((v % pow2(nb)) == ((v / pow2(j)) % pow2((nb - j) as nat)) * pow2(j) + v % pow2(j))
        by {
        lemma_mul_is_commutative(pow2(j) as int, ((v / pow2(j)) % pow2((nb - j) as nat)) as int);
    };
    lemma_fundamental_div_mod_converse_div(
        (v % pow2(nb)) as int,
        pow2(j) as int,
        ((v / pow2(j)) % pow2((nb - j) as nat)) as int,
        (v % pow2(j)) as int,
    );
}

/// Below the truncation bound, a bit of the truncated value is the bit of
/// the value.
proof fn lemma_truncated_bit_low(v: nat, nb: nat, j: nat)
    requires
        j < nb,
    ensures
        bit_spec(v % pow2(nb), j) == bit_spec(v, j),
{
    lemma_trunc_shift(v, nb, j);
    lemma_pow2_pos((nb - j - 1) as nat);
    lemma_pow2_unfold((nb - j) as nat);
    lemma_mod_mod((v / pow2(j)) as int, 2, pow2((nb - j - 1) as nat) as int);
}

/// At or above the truncation bound, a bit of the truncated value is zero.
proof fn lemma_truncated_bit_high(v: nat, nb: nat, j: nat)
    requires
        nb <= j,
    ensures
        bit_spec(v % pow2(nb), j) == 0,
{
    lemma_pow2_pos(nb);
    lemma_pow2_pos(j);
    lemma_mod_bound(v as int, pow2(nb) as int);
    if nb < j {
        lemma_pow2_strictly_increases(nb, j);
    }
    lemma_basic_div((v % pow2(nb)) as int, pow2(j) as int);
    lemma_small_mod(0, 2);
}

/// Accumulating one more bit extends the window prefix.
proof fn lemma_window_bit_step(l: nat, base: nat, t: nat)
    ensures
        (l / pow2(base)) % pow2(t + 1) == (l / pow2(base)) % pow2(t) + pow2(t) * bit_spec(
            l,
            base + t,
        ),
{
    let y = l / pow2(base);
    lemma_pow2_pos(t);
    lemma_pow2_pos(base);
    lemma_mod_breakdown(y as int, pow2(t) as int, 2);
    lemma_pow2_unfold(t + 1);
    assert(pow2(t) * 2 == pow2(t + 1)) by {
        lemma_mul_is_commutative(pow2(t) as int, 2);
    };
    lemma_shift_twice(l, base, t);
    assert(bit_spec(l, base + t) == (y / pow2(t)) % 2);
}

/// Chain cells stay canonical.
proof fn lemma_chain_wf(v: nat, cfg: NativeRangeCheckConfig, i: nat)
    requires
        v < modulus(),
    ensures
        chain_spec(v, cfg, i) < modulus(),
    decreases i,
{
    if i > 0 {
        lemma_chain_wf(v, cfg, (i - 1) as nat);
        let s = sub_p(chain_spec(v, cfg, (i - 1) as nat), window_spec(v, cfg, (i - 1) as nat));
        lemma_mod_bound(
            (chain_spec(v, cfg, (i - 1) as nat) + modulus() - window_spec(
                v,
                cfg,
                (i - 1) as nat,
            )) as int,
            modulus() as int,
        );
        lemma_halve_iter_props(s, cfg.window_size as nat);
    }
}

/// Consecutive chain cells satisfy the lookup relation: the cell equals
/// its window plus the radix times its successor, in the field.
proof fn lemma_chain_link(v: nat, cfg: NativeRangeCheckConfig, i: nat)
    requires
        v < modulus(),
        cfg.wf(),
    ensures
        chain_spec(v, cfg, i) == ((window_spec(v, cfg, i) + pow2(cfg.window_size as nat)
            * chain_spec(v, cfg, i + 1)) % modulus()),
{
    let z = chain_spec(v, cfg, i);
    let k = window_spec(v, cfg, i);
    let w = cfg.window_size as nat;
    lemma_chain_wf(v, cfg, i);
    // the window is far below the modulus
    lemma_pow2_pos(w);
    lemma_mod_bound(
        ((v % pow2(cfg.num_bits as nat)) / pow2(w * i)) as int,
        pow2(w) as int,
    );
    lemma2_to64();
    vstd::arithmetic::power2::lemma2_to64_rest();
    if w < 63 {
        lemma_pow2_strictly_increases(w, 63);
    }
    assert(k < modulus());
    let s = sub_p(z, k);
    lemma_mod_bound((z + modulus() - k) as int, modulus() as int);
    lemma_halve_iter_props(s, w);
    let zn = chain_spec(v, cfg, i + 1);
    assert(((i + 1) - 1) as nat == i);
    assert(zn == halve_iter(
        sub_p(chain_spec(v, cfg, ((i + 1) - 1) as nat), window_spec(v, cfg, ((i + 1) - 1) as nat)),
        cfg.window_size as nat,
    ));
    assert(chain_spec(v, cfg, ((i + 1) - 1) as nat) == z);
    assert(window_spec(v, cfg, ((i + 1) - 1) as nat) == k);
    assert(sub_p(chain_spec(v, cfg, ((i + 1) - 1) as nat), window_spec(
        v,
        cfg,
        ((i + 1) - 1) as nat,
    )) == s);
    assert(zn == halve_iter(s, w));
    assert((pow2(w) * zn) % modulus() == s);
    lemma_add_mod_noop_right(k as int, (pow2(w) * zn) as int, modulus() as int);
    assert((k + pow2(w) * zn) % modulus() == (k + s) % modulus());
    lemma_add_mod_noop_right(k as int, (z + modulus() - k) as int, modulus() as int);
    assert((k + s) % modulus() == ((z + modulus()) as nat) % modulus());
    lemma_mod_add_multiples_vanish(z as int, modulus() as int);
    lemma_small_mod(z, modulus());
}

/// Interior chain cells are exact shifts of the value.
proof fn lemma_chain_prefix(v: nat, cfg: NativeRangeCheckConfig, i: nat)
    requires
        v < modulus(),
        cfg.wf(),
        i < cfg.num_windows,
    ensures
        chain_spec(v, cfg, i) == v / pow2((cfg.window_size as nat) * i),
    decreases i,
{
    let w = cfg.window_size as nat;
    let nb = cfg.num_bits as nat;
    let nw = cfg.num_windows as nat;
    if i == 0 {
        vstd::arithmetic::power::lemma_pow0(2);
        assert(w * 0 == 0) by (nonlinear_arith);
        lemma_fundamental_div_mod_converse_div(v as int, 1, v as int, 0);
    } else {
        lemma_chain_prefix(v, cfg, (i - 1) as nat);
        let prev = chain_spec(v, cfg, (i - 1) as nat);
        let k = window_spec(v, cfg, (i - 1) as nat);
        let base = w * ((i - 1) as nat);
        assert(base + w == w * i) by (nonlinear_arith)
            requires
                base == w * ((i - 1) as nat),
                i >= 1,
        ;
        assert(w * i + w <= w * nw) by (nonlinear_arith)
            requires
                i < nw,
                w >= 1,
        ;
        assert(w * i < nb) by {
            assert(w * nw < nb + w);
        };
        // the window under the truncation bound is a plain shift-and-mask
        assert(k == (v / pow2(base)) % pow2(w)) by {
            lemma_trunc_shift(v, nb, base);
            lemma_pow2_pos((nb - base - w) as nat);
            lemma_pow2_pos(w);
            lemma_pow2_adds(w, (nb - base - w) as nat);
            lemma_mod_mod((v / pow2(base)) as int, pow2(w) as int, pow2(
                (nb - base - w) as nat,
            ) as int);
        };
        lemma_pow2_pos(w);
        lemma_pow2_pos(base);
        lemma_fundamental_div_mod(prev as int, pow2(w) as int);
        lemma_mod_decreases(prev, pow2(w));
        assert(prev - k == pow2(w) * (prev / pow2(w)));
        let qn = prev / pow2(w);
        lemma_div_nonincreasing(v as int, pow2(base) as int);
        assert(sub_p(prev, k) == (prev - k) as nat) by {
            lemma_fundamental_div_mod_converse_mod(
                (prev + modulus() - k) as int,
                modulus() as int,
                1,
                (prev - k) as int,
            );
        };
        assert(halve_iter((prev - k) as nat, w) == qn) by {
            lemma_mod_multiples_basic(qn as int, pow2(w) as int);
            lemma_mul_is_commutative(qn as int, pow2(w) as int);
            lemma_halve_iter_exact((pow2(w) * qn) as nat, w);
            lemma_fundamental_div_mod_converse_div(
                (pow2(w) * qn) as int,
                pow2(w) as int,
                qn as int,
                0,
            );
        };
        lemma_shift_twice(v, base, w);
        assert(chain_spec(v, cfg, i) == halve_iter(sub_p(prev, k), w));
        assert(chain_spec(v, cfg, i) == qn);
        assert(qn == v / pow2(w * i));
    }
}

/// The final chain cell vanishes exactly on values within the strict
/// bound: what is left after all windows is the part of the value at or
/// above `2^num_bits`, carried through the field divisions.
pub proof fn lemma_chain_last(v: nat, cfg: NativeRangeCheckConfig)
    requires
        v < modulus(),
        cfg.wf(),
    ensures
        chain_spec(v, cfg, cfg.num_windows as nat) == 0 <==> v < pow2(cfg.num_bits as nat),
{
    let w = cfg.window_size as nat;
    let nb = cfg.num_bits as nat;
    let nw = cfg.num_windows as nat;
    if nw == 0 {
        assert((cfg.window_size as nat) * (cfg.num_windows as nat) == 0) by (nonlinear_arith)
            requires
                cfg.num_windows as nat == 0,
        ;
        assert(nb == 0);
        vstd::arithmetic::power::lemma_pow0(2);
    } else {
        let j = (nw - 1) as nat;
        let base = w * j;
        lemma_chain_prefix(v, cfg, j);
        let z = chain_spec(v, cfg, j);
        let k = window_spec(v, cfg, j);
        assert(base + w == w * nw) by (nonlinear_arith)
            requires
                base == w * ((nw - 1) as nat),
                nw >= 1,
        ;
        assert(base < nb) by {
            assert(w * nw < nb + w);
        };
        let e = (nb - base) as nat;
        assert(e <= w) by {
            assert(nb <= w * nw);
        };
        lemma_pow2_pos(base);
        lemma_pow2_pos(e);
        lemma_pow2_pos(w);
        // the top window takes every remaining truncated bit
        assert(k == z % pow2(e)) by {
            lemma_trunc_shift(v, nb, base);
            lemma_mod_bound((v / pow2(base)) as int, pow2(e) as int);
            if e < w {
                lemma_pow2_strictly_increases(e, w);
            }
            lemma_small_mod((v / pow2(base)) % pow2(e), pow2(w));
        };
        let h = v / pow2(nb);
        lemma_fundamental_div_mod(z as int, pow2(e) as int);
        lemma_mod_decreases(z, pow2(e));
        lemma_shift_twice(v, base, e);
        assert(z - k == pow2(e) * h);
        assert(sub_p(z, k) == (z - k) as nat) by {
            lemma_fundamental_div_mod_converse_mod(
                (z + modulus() - k) as int,
                modulus() as int,
                1,
                (z - k) as int,
            );
        };
        lemma_div_nonincreasing(v as int, pow2(base) as int);
        assert(halve_iter((z - k) as nat, e) == h) by {
            lemma_mod_multiples_basic(h as int, pow2(e) as int);
            lemma_mul_is_commutative(h as int, pow2(e) as int);
            lemma_halve_iter_exact((pow2(e) * h) as nat, e);
            lemma_fundamental_div_mod_converse_div(
                (pow2(e) * h) as int,
                pow2(e) as int,
                h as int,
                0,
            );
        };
        lemma_halve_iter_adds((z - k) as nat, e, (w - e) as nat);
        assert(((nw) - 1) as nat == j);
        assert(chain_spec(v, cfg, nw) == halve_iter(sub_p(z, k), w));
        assert(chain_spec(v, cfg, nw) == halve_iter(h, (w - e) as nat));
        lemma_pow2_pos(nb);
        lemma_div_nonincreasing(v as int, pow2(nb) as int);
        lemma_halve_iter_props(h, (w - e) as nat);
        // the carried part vanishes exactly on in-range values
        lemma_fundamental_div_mod(v as int, pow2(nb) as int);
        lemma_mod_bound(v as int, pow2(nb) as int);
        if v < pow2(nb) {
            lemma_basic_div(v as int, pow2(nb) as int);
        }
    }
}

/// A strict range check accepts every canonical value within the exact
/// bound: its decomposition chain ends in zero, and every window is a
/// table member, so all constraints are satisfied.
pub proof fn lemma_strict_in_range_satisfiable(v: nat, cfg: NativeRangeCheckConfig)
    requires
        cfg.wf(),
        v < modulus(),
        v < pow2(cfg.num_bits as nat),
    ensures
        chain_spec(v, cfg, cfg.num_windows as nat) == 0,
{
    lemma_chain_last(v, cfg);
}

/// A strict range check rejects every canonical value at or above the
/// window capacity `2^(window_size·num_windows)`: its chain remainder
/// cannot vanish.
pub proof fn lemma_strict_overflow_unsatisfiable(v: nat, cfg: NativeRangeCheckConfig)
    requires
        cfg.wf(),
        v < modulus(),
        pow2((cfg.window_size as nat) * (cfg.num_windows as nat)) <= v,
    ensures
        chain_spec(v, cfg, cfg.num_windows as nat) != 0,
{
    let nb = cfg.num_bits as nat;
    let cap = (cfg.window_size as nat) * (cfg.num_windows as nat);
    if nb < cap {
        lemma_pow2_strictly_increases(nb, cap);
    }
    lemma_chain_last(v, cfg);
}

/// Non-strict mode is strictly weaker than the exact bound: a value
/// beyond `num_bits` bits still satisfies every lookup row — only the
/// strict remainder, when requested, rejects it.  So the non-strict
/// bound is no tighter than the full window capacity.
pub proof fn lemma_non_strict_weaker(v: nat, cfg: NativeRangeCheckConfig)
    requires
        cfg.wf(),
        v < modulus(),
        pow2(cfg.num_bits as nat) <= v,
    ensures
        chain_spec(v, cfg, cfg.num_windows as nat) != 0,
        forall|i: nat|
            i < cfg.num_windows ==> #[trigger] chain_spec(v, cfg, i) == ((window_spec(v, cfg, i)
                + pow2(cfg.window_size as nat) * chain_spec(v, cfg, i + 1)) % modulus()),
{
    lemma_chain_last(v, cfg);
    assert forall|i: nat| i < cfg.num_windows implies #[trigger] chain_spec(v, cfg, i) == ((
    window_spec(v, cfg, i) + pow2(cfg.window_size as nat) * chain_spec(v, cfg, i + 1))
        % modulus()) by {
        lemma_chain_link(v, cfg, i);
    };
}

/// The windows reassemble the truncated value: summing every window at
/// its radix position gives back the value modulo `2^num_bits` — and the
/// value itself whenever it is in range.
pub proof fn lemma_decomposition_round_trip(v: nat, cfg: NativeRangeCheckConfig)
    requires
        cfg.wf(),
    ensures
        windows_sum(v, cfg, cfg.num_windows as nat) == v % pow2(cfg.num_bits as nat),
        v < pow2(cfg.num_bits as nat) ==> windows_sum(v, cfg, cfg.num_windows as nat) == v,
{
    let w = cfg.window_size as nat;
    let nb = cfg.num_bits as nat;
    let nw = cfg.num_windows as nat;
    lemma_windows_sum_prefix(v, cfg, nw);
    lemma_pow2_pos(nb);
    lemma_mod_bound(v as int, pow2(nb) as int);
    assert(w * nw >= nb);
    if nb < w * nw {
        lemma_pow2_strictly_increases(nb, w * nw);
    }
    lemma_small_mod(v % pow2(nb), pow2(w * nw));
    if v < pow2(nb) {
        lemma_small_mod(v, pow2(nb));
    }
}

/// The first `n` windows reassemble the low `window_size * n` truncated
/// bits.
proof fn lemma_windows_sum_prefix(v: nat, cfg: NativeRangeCheckConfig, n: nat)
    ensures
        windows_sum(v, cfg, n) == (v % pow2(cfg.num_bits as nat)) % pow2(
            (cfg.window_size as nat) * n,
        ),
    decreases n,
{
    let w = cfg.window_size as nat;
    let l = v % pow2(cfg.num_bits as nat);
    if n == 0 {
        vstd::arithmetic::power::lemma_pow0(2);
        assert((cfg.window_size as nat) * n == 0) by (nonlinear_arith)
            requires
                n == 0,
        ;
        lemma_fundamental_div_mod_converse_mod(l as int, 1, l as int, 0);
    } else {
        lemma_windows_sum_prefix(v, cfg, (n - 1) as nat);
        let base = w * ((n - 1) as nat);
        assert(base + w == w * n) by (nonlinear_arith)
            requires
                base == w * ((n - 1) as nat),
                n >= 1,
        ;
        lemma_pow2_pos(base);
        lemma_pow2_pos(w);
        lemma_pow2_pos(cfg.num_bits as nat);
        lemma_mod_breakdown(l as int, pow2(base) as int, pow2(w) as int);
        lemma_pow2_adds(base, w);
        assert(window_spec(v, cfg, (n - 1) as nat) == (l / pow2(base)) % pow2(w));
        assert(window_spec(v, cfg, (n - 1) as nat) * pow2(base) == pow2(base) * ((l / pow2(base))
            % pow2(w))) by {
            lemma_mul_is_commutative(pow2(base) as int, ((l / pow2(base)) % pow2(w)) as int);
        };
        assert(windows_sum(v, cfg, n) == windows_sum(v, cfg, (n - 1) as nat) + window_spec(
            v,
            cfg,
            (n - 1) as nat,
        ) * pow2(base));
        assert(pow2(base) * pow2(w) == pow2(w * n));
        assert(windows_sum(v, cfg, n) == l % (pow2(base) * pow2(w)));
    }
}

} // verus!
