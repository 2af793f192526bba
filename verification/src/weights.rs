//! The scoring policy: how much a match at a given edit distance adds to a
//! document's score.
//!
//! Scores are fixed-point integers. Where the policy scales by the square root
//! of the token's length, the root is taken in units of `1 / SCALE` and
//! rounded down, so that scores can be added and compared exactly.

use vstd::prelude::*;

verus! {

/// The number of score units that make up one.
pub const SCALE: u64 = 65536;

/// One row of the weight table: what a match at one edit distance is worth.
#[derive(Clone, Copy, Debug, PartialEq, Eq, Structural)]
pub struct WeightRule {
    /// Tokens shorter than this do not score at this distance.
    pub min_len: usize,
    /// What a match is worth, before any scaling by the token's length.
    pub factor: u16,
}

/// The engine's configuration, as a plain value.
pub struct ConfigView {
    pub fold_case: bool,
    pub sqrt_scaled: bool,
    pub rules: Seq<WeightRule>,
}

/// The engine's configuration: the tokenizer's normalization, and the weight
/// table with one row for each edit distance that a query tries.
pub struct Config {
    fold_case: bool,
    sqrt_scaled: bool,
    rules: Vec<WeightRule>,
}

/// `r` is the square root of `x`, rounded down.
pub open spec fn is_floor_sqrt(x: nat, r: nat) -> bool {
    r * r <= x < (r + 1) * (r + 1)
}

/// The square root of `x`, rounded down.
pub open spec fn floor_sqrt(x: nat) -> nat {
    choose|r: nat| is_floor_sqrt(x, r)
}

/// The square root of `len` in score units, rounded down.
pub open spec fn scaled_sqrt(len: nat) -> nat {
    floor_sqrt(len * SCALE as nat * SCALE as nat)
}

/// A weight table is valid when it has a row for distance 0 and at most 256
/// rows, and when a greater distance never weighs more nor admits shorter
/// tokens.
pub open spec fn valid_rules(rules: Seq<WeightRule>) -> bool {
    &&& 1 <= rules.len() <= 256
    &&& forall|i: int, j: int|
        0 <= i < j < rules.len() ==> (#[trigger] rules[i]).factor >= (#[trigger] rules[j]).factor
    &&& forall|i: int, j: int|
        0 <= i < j < rules.len() ==> (#[trigger] rules[i]).min_len <= (#[trigger] rules[j]).min_len
}

/// The weight of a match at `distance` for a token of `len` bytes: nothing
/// where the table has no row for the distance or the token is too short for
/// it, else the row's factor, scaled by the square root of the length where
/// the configuration asks for it.
pub open spec fn spec_weight(cfg: ConfigView, distance: nat, len: nat) -> nat {
    if distance < cfg.rules.len() && cfg.rules[distance as int].min_len <= len {
        if cfg.sqrt_scaled {
            cfg.rules[distance as int].factor as nat * scaled_sqrt(len)
        } else {
            cfg.rules[distance as int].factor as nat
        }
    } else {
        0
    }
}

/// The rows of the length-gated table.
pub open spec fn length_gated_rules() -> Seq<WeightRule> {
    seq![
        WeightRule { min_len: 0, factor: 11 },
        WeightRule { min_len: 3, factor: 7 },
        WeightRule { min_len: 5, factor: 5 },
        WeightRule { min_len: 7, factor: 2 },
        WeightRule { min_len: 9, factor: 1 },
    ]
}

/// The rows of the flat table.
pub open spec fn flat_rules() -> Seq<WeightRule> {
    seq![
        WeightRule { min_len: 0, factor: 7 },
        WeightRule { min_len: 0, factor: 3 },
        WeightRule { min_len: 0, factor: 1 },
    ]
}

/// Every number has a square root rounded down.
pub proof fn lemma_floor_sqrt_exists(x: nat)
    ensures
        is_floor_sqrt(x, floor_sqrt(x)),
    decreases x,
{
    if x == 0 {
        assert(is_floor_sqrt(0, 0)) by (nonlinear_arith);
    } else {
        lemma_floor_sqrt_exists((x - 1) as nat);
        let r = floor_sqrt((x - 1) as nat);
        let s = r + 1;
        if s * s <= x {
            assert(x < (s + 1) * (s + 1)) by (nonlinear_arith)
                requires
                    x - 1 < s * s,
            ;
            assert(is_floor_sqrt(x, s));
        } else {
            assert(is_floor_sqrt(x, r));
        }
    }
}

/// A number has one square root rounded down.
pub proof fn lemma_floor_sqrt_unique(x: nat, r: nat)
    requires
        is_floor_sqrt(x, r),
    ensures
        floor_sqrt(x) == r,
{
    lemma_floor_sqrt_exists(x);
    let s = floor_sqrt(x);
    if s < r {
        assert((s + 1) * (s + 1) <= r * r) by (nonlinear_arith)
            requires
                s + 1 <= r,
        ;
    } else if r < s {
        assert((r + 1) * (r + 1) <= s * s) by (nonlinear_arith)
            requires
                r + 1 <= s,
        ;
    }
}

/// Monotonic weight: at a fixed token length a match at a smaller distance
/// weighs at least as much as one at a greater distance.
pub proof fn lemma_weight_decays(cfg: ConfigView, d1: nat, d2: nat, len: nat)
    requires
        valid_rules(cfg.rules),
        d1 < d2,
    ensures
        spec_weight(cfg, d1, len) >= spec_weight(cfg, d2, len),
{
    if d2 < cfg.rules.len() && cfg.rules[d2 as int].min_len <= len {
        let near = cfg.rules[d1 as int];
        let far = cfg.rules[d2 as int];
        assert(near.factor >= far.factor);
        assert(near.min_len <= far.min_len);
        let root = scaled_sqrt(len);
        assert(near.factor as nat * root >= far.factor as nat * root) by (nonlinear_arith)
            requires
                near.factor >= far.factor,
        ;
    }
}

/// With the length-gated table a token that is too short for a distance
/// adds nothing at that distance: one of fewer than 3 bytes at distance 1,
/// fewer than 5 at distance 2, fewer than 7 at distance 3, fewer than 9 at
/// distance 4.
pub proof fn lemma_length_gates(distance: nat, len: nat)
    requires
        1 <= distance <= 4,
        len < 2 * distance + 1,
    ensures
        spec_weight(Config::length_gated_view(), distance, len) == 0,
{
    let rules = length_gated_rules();
    assert(rules[1].min_len == 3 && rules[2].min_len == 5 && rules[3].min_len == 7 && rules[4].min_len == 9);
}

/// Computes the square root of `x`, rounded down.
pub fn integer_sqrt(x: u128) -> (r: u64)
    ensures
        r == floor_sqrt(x as nat),
{
    let mut lo: u128 = 0;
    let mut hi: u128 = 0x1_0000_0000_0000_0000;
    assert(0x1_0000_0000_0000_0000int * 0x1_0000_0000_0000_0000int > u128::MAX) by (nonlinear_arith);
    while hi - lo > 1
        invariant
            lo < hi <= 0x1_0000_0000_0000_0000,
            lo * lo <= x < hi * hi,
        decreases hi - lo,
    {
        let mid: u128 = lo + (hi - lo) / 2;
        assert(mid * mid < 0x1_0000_0000_0000_0000int * 0x1_0000_0000_0000_0000int) by (nonlinear_arith)
            requires
                0 <= mid < 0x1_0000_0000_0000_0000int,
        ;
        if mid * mid <= x {
            lo = mid;
        } else {
            hi = mid;
        }
    }
    proof {
        assert(hi == lo + 1);
        lemma_floor_sqrt_unique(x as nat, lo as nat);
    }
    lo as u64
}

/// Computes the square root of `len` in score units, rounded down.
pub fn scaled_root(len: usize) -> (r: u64)
    ensures
        r == scaled_sqrt(len as nat),
        r < 0x1_0000_0000_0000,
{
    let wide: u128 = len as u128;
    assert(wide * 0x1_0000_0000 < 0x1_0000_0000_0000_0000_0000_0000) by (nonlinear_arith)
        requires
            wide < 0x1_0000_0000_0000_0000,
    ;
    let x: u128 = wide * 0x1_0000_0000;
    let r = integer_sqrt(x);
    proof {
        assert(len as nat * SCALE as nat * SCALE as nat == x) by (nonlinear_arith)
            requires
                x == wide * 0x1_0000_0000,
                wide == len,
                SCALE == 65536,
        ;
        lemma_floor_sqrt_exists(x as nat);
        if r >= 0x1_0000_0000_0000 {
            assert(r * r >= 0x1_0000_0000_0000_0000_0000_0000) by (nonlinear_arith)
                requires
                    r >= 0x1_0000_0000_0000,
            ;
        }
    }
    r
}

impl Config {
    /// The configuration as a plain value.
    pub closed spec fn view(&self) -> ConfigView {
        ConfigView { fold_case: self.fold_case, sqrt_scaled: self.sqrt_scaled, rules: self.rules@ }
    }

    /// The length-gated configuration, as a plain value.
    pub open spec fn length_gated_view() -> ConfigView {
        ConfigView { fold_case: true, sqrt_scaled: true, rules: length_gated_rules() }
    }

    /// The flat configuration, as a plain value.
    pub open spec fn flat_view() -> ConfigView {
        ConfigView { fold_case: true, sqrt_scaled: false, rules: flat_rules() }
    }

    /// The configuration's weight table is valid.
    pub open spec fn wf(&self) -> bool {
        valid_rules(self@.rules)
    }

    /// Makes a configuration from a weight table with one row for each edit
    /// distance from 0 up, or none where the table is not valid.
    pub fn new(fold_case: bool, sqrt_scaled: bool, rules: Vec<WeightRule>) -> (r: Option<Config>)
        ensures
            r is Some <==> valid_rules(rules@),
            r matches Some(cfg) ==> cfg@ == (ConfigView { fold_case, sqrt_scaled, rules: rules@ }),
    {
        if rules.len() < 1 || rules.len() > 256 {
            return None;
        }
        let mut i: usize = 1;
        while i < rules.len()
            invariant
                1 <= i <= rules.len() <= 256,
                forall|k: int| 0 < k < i ==> (#[trigger] rules[k - 1]).factor >= rules[k].factor,
                forall|k: int| 0 < k < i ==> (#[trigger] rules[k - 1]).min_len <= rules[k].min_len,
            decreases rules.len() - i,
        {
            if rules[i - 1].factor < rules[i].factor || rules[i - 1].min_len > rules[i].min_len {
                proof {
                    assert(!valid_rules(rules@)) by {
                        if valid_rules(rules@) {
                            assert(rules@[i - 1].factor >= rules@[i as int].factor);
                            assert(rules@[i - 1].min_len <= rules@[i as int].min_len);
                        }
                    }
                }
                return None;
            }
            i += 1;
        }
        proof {
            lemma_steps_give_order(rules@);
        }
        Some(Config { fold_case, sqrt_scaled, rules })
    }

    /// The length-gated table: case folding, five distances, weights scaled
    /// by the square root of the token's length.
    pub fn length_gated() -> (cfg: Config)
        ensures
            cfg.wf(),
            cfg@ == Config::length_gated_view(),
    {
        let mut rules: Vec<WeightRule> = Vec::new();
        rules.push(WeightRule { min_len: 0, factor: 11 });
        rules.push(WeightRule { min_len: 3, factor: 7 });
        rules.push(WeightRule { min_len: 5, factor: 5 });
        rules.push(WeightRule { min_len: 7, factor: 2 });
        rules.push(WeightRule { min_len: 9, factor: 1 });
        assert(rules@ =~= length_gated_rules());
        Config { fold_case: true, sqrt_scaled: true, rules }
    }

    /// The flat table: case folding, three distances, no gate and no scaling.
    pub fn flat() -> (cfg: Config)
        ensures
            cfg.wf(),
            cfg@ == Config::flat_view(),
    {
        let mut rules: Vec<WeightRule> = Vec::new();
        rules.push(WeightRule { min_len: 0, factor: 7 });
        rules.push(WeightRule { min_len: 0, factor: 3 });
        rules.push(WeightRule { min_len: 0, factor: 1 });
        assert(rules@ =~= flat_rules());
        Config { fold_case: true, sqrt_scaled: false, rules }
    }

    /// Whether words are folded to lowercase.
    pub fn fold_case(&self) -> (b: bool)
        ensures
            b == self@.fold_case,
    {
        self.fold_case
    }

    /// The greatest edit distance that a query tries.
    pub fn max_distance(&self) -> (d: u8)
        requires
            self.wf(),
        ensures
            d == self@.rules.len() - 1,
    {
        (self.rules.len() - 1) as u8
    }

    /// The weight of a match at `distance` for a token of `len` bytes.
    pub fn weight(&self, distance: u32, len: usize) -> (w: u64)
        requires
            self.wf(),
        ensures
            w == spec_weight(self@, distance as nat, len as nat),
    {
        let d = distance as usize;
        if d < self.rules.len() && self.rules[d].min_len <= len {
            let factor = self.rules[d].factor as u64;
            if self.sqrt_scaled {
                let root = scaled_root(len);
                assert(factor * root < 0x1_0000_0000_0000_0000) by (nonlinear_arith)
                    requires
                        factor < 0x1_0000,
                        root < 0x1_0000_0000_0000,
                ;
                factor * root
            } else {
                factor
            }
        } else {
            0
        }
    }
}

/// A table whose every row stands to the next as the order asks is ordered
/// throughout.
proof fn lemma_steps_give_order(rules: Seq<WeightRule>)
    requires
        1 <= rules.len() <= 256,
        forall|k: int| 0 < k < rules.len() ==> (#[trigger] rules[k - 1]).factor >= rules[k].factor,
        forall|k: int| 0 < k < rules.len() ==> (#[trigger] rules[k - 1]).min_len <= rules[k].min_len,
    ensures
        valid_rules(rules),
{
    assert forall|i: int, j: int| 0 <= i < j < rules.len() implies (#[trigger] rules[i]).factor >= (
    #[trigger] rules[j]).factor && rules[i].min_len <= rules[j].min_len by {
        lemma_step_chain(rules, i, j);
    }
}

proof fn lemma_step_chain(rules: Seq<WeightRule>, i: int, j: int)
    requires
        0 <= i <= j < rules.len(),
        forall|k: int| 0 < k < rules.len() ==> (#[trigger] rules[k - 1]).factor >= rules[k].factor,
        forall|k: int| 0 < k < rules.len() ==> (#[trigger] rules[k - 1]).min_len <= rules[k].min_len,
    ensures
        rules[i].factor >= rules[j].factor,
        rules[i].min_len <= rules[j].min_len,
    decreases j - i,
{
    if i < j {
        lemma_step_chain(rules, i, j - 1);
        assert(rules[j - 1].factor >= rules[j].factor);
    }
}

} // verus!
