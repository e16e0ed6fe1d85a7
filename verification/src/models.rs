//! Cost and value models for purchasable upgrades.
//!
//! Both kinds of model are pure mappings from an upgrade level to a log-domain
//! amount: a cost model gives the purchase price of the next level, a value
//! model gives the level's contribution to the growth formula.  Models compose
//! by wrapping: a first-level-free wrapper shifts the level down by one before
//! delegating, and a composite model dispatches to one of two sub-models
//! around a cutoff level.  Dispatch over the closed set of variants is a
//! tagged enum rather than trait objects.

use vstd::prelude::*;
use crate::logdomain::{log10sub, log10_u64, spec_log10sub, spec_log10_u64, SCALE};
use vstd::arithmetic::div_mod::{lemma_fundamental_div_mod, lemma_div_nonincreasing};

verus! {

/// Largest upgrade level the models accept; keeps every level-scaled product
/// well inside `i64`.
pub const LEVEL_LIMIT: u32 = 1_000_000;

/// Bound on a model's additive log-domain parameters.
pub const PARAM_BOUND: i64 = 1_000_000_000_000;

/// Bound on a model's per-level log-domain slope.
pub const COEF_BOUND: i64 = 1_000_000_000;

/// Bound on any model output over levels up to [`LEVEL_LIMIT`].
pub const MODEL_OUT: i64 = 2_000_000_000_000_000;

/// Cost rising exponentially in the value domain: linear in the log domain.
/// `base` and `exp` are log-domain quantities (the logarithms of the real
/// base cost and of the per-level factor).
pub struct ExponentialCost {
    pub base: i64,
    pub exp: i64,
}

impl ExponentialCost {
    /// Builds the model from log-domain parameters.
    pub fn new(base: i64, exp: i64) -> (r: ExponentialCost)
        ensures
            r.base == base,
            r.exp == exp,
    {
        ExponentialCost { base, exp }
    }
}

/// Wrapper making the first purchase free: delegates one level lower.
pub struct FirstFreeCost {
    pub model: Box<CostModel>,
}

/// Two-segment cost: `model1` strictly below the cutoff level, `model2` at or
/// above it.  Continuity across the cutoff is the parameteriser's business.
pub struct CompositeCost {
    pub model1: Box<CostModel>,
    pub model2: Box<CostModel>,
    pub cutoff: u32,
}

/// The closed set of cost-model shapes.
pub enum CostModel {
    Exponential(ExponentialCost),
    FirstFree(FirstFreeCost),
    Composite(CompositeCost),
}

/// Parameter sanity of a cost model: bounded coefficients, non-negative
/// per-level slope (costs never fall as levels rise).
pub open spec fn cost_wf(m: CostModel) -> bool
    decreases m,
{
    match m {
        CostModel::Exponential(e) => {
            &&& -PARAM_BOUND <= e.base <= PARAM_BOUND
            &&& 0 <= e.exp <= COEF_BOUND
        },
        CostModel::FirstFree(f) => cost_wf(*f.model),
        CostModel::Composite(c) => cost_wf(*c.model1) && cost_wf(*c.model2),
    }
}

/// Smallest level at which a cost model is defined: each first-free wrapper
/// shifts the domain up by one.
pub open spec fn spec_min_level(m: CostModel) -> int
    decreases m,
{
    match m {
        CostModel::Exponential(_) => 0,
        CostModel::FirstFree(f) => 1 + spec_min_level(*f.model),
        CostModel::Composite(c) => vstd::math::max(
            spec_min_level(*c.model1),
            spec_min_level(*c.model2),
        ),
    }
}

pub proof fn lemma_min_level_nonneg(m: CostModel)
    ensures
        spec_min_level(m) >= 0,
    decreases m,
{
    match m {
        CostModel::Exponential(_) => {
        },
        CostModel::FirstFree(f) => {
            lemma_min_level_nonneg(*f.model);
        },
        CostModel::Composite(c) => {
            lemma_min_level_nonneg(*c.model1);
            lemma_min_level_nonneg(*c.model2);
        },
    }
}

/// Purchase price of the given level, in the log domain.
pub open spec fn spec_cost(m: CostModel, level: int) -> int
    decreases m,
{
    match m {
        CostModel::Exponential(e) => e.base + e.exp * level,
        CostModel::FirstFree(f) => spec_cost(*f.model, level - 1),
        CostModel::Composite(c) => if level < c.cutoff {
            spec_cost(*c.model1, level)
        } else {
            spec_cost(*c.model2, level)
        },
    }
}

/// A well-formed cost model stays within [`MODEL_OUT`] on its level domain.
pub proof fn lemma_cost_bounds(m: CostModel, level: int)
    requires
        cost_wf(m),
        spec_min_level(m) <= level <= LEVEL_LIMIT,
    ensures
        -MODEL_OUT <= spec_cost(m, level) <= MODEL_OUT,
    decreases m,
{
    match m {
        CostModel::Exponential(e) => {
            assert(0 <= e.exp * level <= COEF_BOUND * (LEVEL_LIMIT as int)) by (nonlinear_arith)
                requires
                    0 <= e.exp <= COEF_BOUND,
                    0 <= level <= LEVEL_LIMIT,
            ;
        },
        CostModel::FirstFree(f) => {
            lemma_cost_bounds(*f.model, level - 1);
        },
        CostModel::Composite(c) => {
            lemma_min_level_nonneg(*c.model1);
            lemma_min_level_nonneg(*c.model2);
            if level < c.cutoff {
                lemma_cost_bounds(*c.model1, level);
            } else {
                lemma_cost_bounds(*c.model2, level);
            }
        },
    }
}

/// The first-free wrapper is exactly the wrapped model one level lower; in
/// particular its price for level one is the wrapped model's price for level
/// zero.
pub proof fn lemma_first_free_cost(f: FirstFreeCost, level: int)
    ensures
        spec_cost(CostModel::FirstFree(f), level) == spec_cost(*f.model, level - 1),
{
}

/// The model is free of composite segments, whose cutoff may break
/// monotonicity when the two sides are parameterised inconsistently.
pub open spec fn plain_cost(m: CostModel) -> bool
    decreases m,
{
    match m {
        CostModel::Exponential(_) => true,
        CostModel::FirstFree(f) => plain_cost(*f.model),
        CostModel::Composite(_) => false,
    }
}

/// Costs never fall as levels rise: a well-formed model without composite
/// segments is monotone over its level domain.
pub proof fn lemma_cost_monotone(m: CostModel, l1: int, l2: int)
    requires
        cost_wf(m),
        plain_cost(m),
        spec_min_level(m) <= l1 <= l2,
    ensures
        spec_cost(m, l1) <= spec_cost(m, l2),
    decreases m,
{
    match m {
        CostModel::Exponential(e) => {
            assert(e.exp * l1 <= e.exp * l2) by (nonlinear_arith)
                requires
                    e.exp >= 0,
                    l1 <= l2,
            ;
        },
        CostModel::FirstFree(f) => {
            lemma_cost_monotone(*f.model, l1 - 1, l2 - 1);
        },
        CostModel::Composite(_) => {
        },
    }
}

impl CostModel {
    /// Structural deep copy.
    pub fn duplicate(&self) -> (r: CostModel)
        ensures
            r == *self,
        decreases *self,
    {
        match self {
            CostModel::Exponential(e) => CostModel::Exponential(
                ExponentialCost { base: e.base, exp: e.exp },
            ),
            CostModel::FirstFree(f) => CostModel::FirstFree(
                FirstFreeCost { model: Box::new(f.model.duplicate()) },
            ),
            CostModel::Composite(c) => CostModel::Composite(
                CompositeCost {
                    model1: Box::new(c.model1.duplicate()),
                    model2: Box::new(c.model2.duplicate()),
                    cutoff: c.cutoff,
                },
            ),
        }
    }

    /// Executable price lookup, mirroring [`spec_cost`].
    pub fn get_cost(&self, level: u32) -> (r: i64)
        requires
            cost_wf(*self),
            spec_min_level(*self) <= level <= LEVEL_LIMIT,
        ensures
            r == spec_cost(*self, level as int),
            -MODEL_OUT <= r <= MODEL_OUT,
        decreases *self,
    {
        proof {
            lemma_cost_bounds(*self, level as int);
        }
        match self {
            CostModel::Exponential(e) => {
                proof {
                    assert(0 <= e.exp * (level as int) <= COEF_BOUND * (LEVEL_LIMIT as int))
                        by (nonlinear_arith)
                        requires
                            0 <= e.exp <= COEF_BOUND,
                            0 <= level <= LEVEL_LIMIT,
                    ;
                }
                e.base + e.exp * (level as i64)
            },
            CostModel::FirstFree(f) => {
                proof {
                    lemma_min_level_nonneg(*f.model);
                }
                f.model.get_cost(level - 1)
            },
            CostModel::Composite(c) => {
                proof {
                    lemma_min_level_nonneg(*c.model1);
                    lemma_min_level_nonneg(*c.model2);
                }
                if level < c.cutoff {
                    c.model1.get_cost(level)
                } else {
                    c.model2.get_cost(level)
                }
            },
        }
    }
}

/// Value rising by a fixed log-domain amount per level.
pub struct ExponentialValue {
    pub base: i64,
}

impl ExponentialValue {
    /// Builds the model from its log-domain per-level increment.
    pub fn new(base: i64) -> (r: ExponentialValue)
        ensures
            r.base == base,
    {
        ExponentialValue { base }
    }
}

/// Value affine in the level.
pub struct LinearValue {
    pub base: i64,
    pub offset: i64,
}

impl LinearValue {
    pub fn new(base: i64, offset: i64) -> (r: LinearValue)
        ensures
            r.base == base,
            r.offset == offset,
    {
        LinearValue { base, offset }
    }
}

/// Value that climbs within a block of `len` levels and resets to a smaller
/// discount at each block boundary, expressed as a closed form rather than a
/// running sum.  `exp` is the plain (value-domain) integer growth factor per
/// block.
pub struct StepwiseValue {
    pub exp: u32,
    pub len: u32,
}

impl StepwiseValue {
    pub fn new(exp: u32, len: u32) -> (r: StepwiseValue)
        ensures
            r.exp == exp,
            r.len == len,
    {
        StepwiseValue { exp, len }
    }
}

/// The closed set of value-model shapes.  `Empty` is the conventional model
/// of an upgrade whose value never enters any growth formula.
pub enum ValueModel {
    Stepwise(StepwiseValue),
    Exponential(ExponentialValue),
    Linear(LinearValue),
    Empty,
}

/// Parameter sanity of a value model.
pub open spec fn value_wf(m: ValueModel) -> bool {
    match m {
        ValueModel::Stepwise(sv) => {
            &&& 2 <= sv.exp <= 1_000_000
            &&& 1 <= sv.len <= 100_000
        },
        ValueModel::Exponential(ev) => -COEF_BOUND <= ev.base <= COEF_BOUND,
        ValueModel::Linear(lv) => {
            &&& -COEF_BOUND <= lv.base <= COEF_BOUND
            &&& -PARAM_BOUND <= lv.offset <= PARAM_BOUND
        },
        ValueModel::Empty => true,
    }
}

/// Closed form of the stepwise value.  With block length `len`, growth factor
/// `exp` and discount base `d = len / (exp - 1)`, the value at `level` is
/// `log10((d + level % len) * exp^(level / len)) - log10(d)`, carried out on
/// the kernel's integer logarithms.  Degenerate parameterisations whose two
/// logarithms collapse fall back to a zero contribution.
pub open spec fn spec_stepwise(sv: StepwiseValue, level: int) -> int {
    let intpart = level / (sv.len as int);
    let modpart = level % (sv.len as int);
    let q = sv.exp - 1;
    let la = spec_log10_u64(sv.len + modpart * q) - spec_log10_u64(q as int) + spec_log10_u64(
        sv.exp as int,
    ) * intpart;
    let lb = spec_log10_u64(sv.len as int) - spec_log10_u64(q as int);
    if lb < la {
        spec_log10sub(la, lb)
    } else {
        0
    }
}

/// Contribution of the given level to growth, in the log domain.
pub open spec fn spec_value(m: ValueModel, level: int) -> int {
    match m {
        ValueModel::Stepwise(sv) => spec_stepwise(sv, level),
        ValueModel::Exponential(ev) => ev.base * level,
        ValueModel::Linear(lv) => lv.base * level + lv.offset,
        ValueModel::Empty => 0,
    }
}

impl ValueModel {
    /// Structural deep copy.
    pub fn duplicate(&self) -> (r: ValueModel)
        ensures
            r == *self,
    {
        match self {
            ValueModel::Stepwise(sv) => ValueModel::Stepwise(
                StepwiseValue { exp: sv.exp, len: sv.len },
            ),
            ValueModel::Exponential(ev) => ValueModel::Exponential(
                ExponentialValue { base: ev.base },
            ),
            ValueModel::Linear(lv) => ValueModel::Linear(
                LinearValue { base: lv.base, offset: lv.offset },
            ),
            ValueModel::Empty => ValueModel::Empty,
        }
    }

    /// Executable value lookup, mirroring [`spec_value`].
    pub fn recompute(&self, level: u32) -> (r: i64)
        requires
            value_wf(*self),
            level <= LEVEL_LIMIT,
        ensures
            r == spec_value(*self, level as int),
            -MODEL_OUT <= r <= MODEL_OUT,
    {
        match self {
            ValueModel::Stepwise(sv) => {
                let intpart: u32 = level / sv.len;
                let modpart: u32 = level % sv.len;
                let q: u32 = sv.exp - 1;
                proof {
                    lemma_fundamental_div_mod(level as int, sv.len as int);
                    assert(1 <= sv.len as int + (modpart as int) * (q as int)
                        <= 100_000_000_000 + 100_000) by (nonlinear_arith)
                        requires
                            0 <= modpart < 100_000,
                            1 <= q < 1_000_000,
                            1 <= sv.len <= 100_000,
                    ;
                }
                let arg: u64 = (sv.len as u64) + (modpart as u64) * (q as u64);
                let l1: i64 = log10_u64(arg);
                let l2: i64 = log10_u64(q as u64);
                let l3: i64 = log10_u64(sv.exp as u64);
                let l4: i64 = log10_u64(sv.len as u64);
                proof {
                    assert(0 <= (l3 as int) * (intpart as int) <= 21 * (SCALE as int) * (
                    LEVEL_LIMIT as int)) by (nonlinear_arith)
                        requires
                            0 <= l3 <= 21 * SCALE,
                            0 <= intpart <= LEVEL_LIMIT,
                    ;
                }
                let la: i64 = l1 - l2 + l3 * (intpart as i64);
                let lb: i64 = l4 - l2;
                if lb < la {
                    log10sub(la, lb)
                } else {
                    0
                }
            },
            ValueModel::Exponential(ev) => {
                proof {
                    assert(-COEF_BOUND * (LEVEL_LIMIT as int) <= (ev.base as int) * (level as int)
                        <= COEF_BOUND * (LEVEL_LIMIT as int)) by (nonlinear_arith)
                        requires
                            -COEF_BOUND <= ev.base <= COEF_BOUND,
                            0 <= level <= LEVEL_LIMIT,
                    ;
                }
                ev.base * (level as i64)
            },
            ValueModel::Linear(lv) => {
                proof {
                    assert(-COEF_BOUND * (LEVEL_LIMIT as int) <= (lv.base as int) * (level as int)
                        <= COEF_BOUND * (LEVEL_LIMIT as int)) by (nonlinear_arith)
                        requires
                            -COEF_BOUND <= lv.base <= COEF_BOUND,
                            0 <= level <= LEVEL_LIMIT,
                    ;
                }
                lv.base * (level as i64) + lv.offset
            },
            ValueModel::Empty => 0,
        }
    }
}

} // verus!
