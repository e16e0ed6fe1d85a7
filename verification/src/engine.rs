//! The shared simulation engine: tick, buy, fork, simulate.
//!
//! A simulation advances time in geometrically growing steps, grows a
//! log-domain resource accumulator from the currently owned upgrade values,
//! and interleaves purchase decisions whenever an upgrade is affordable.
//! Purchase timing is resolved by a branch-and-bound search: when the
//! coasting decision is ambiguous the whole state is forked, the ambiguous
//! upgrade is capped in the fork, the fork runs to completion, and the better
//! of the two futures is kept.
//!
//! The per-theory ingredients — which upgrade values feed growth, the coast
//! bands, the priority order, the ratio competitors, eligibility, and the
//! multiplier — are plain configuration in [`Theory`], supplied per run.

use vstd::prelude::*;
use crate::logdomain::{log10add, log10sub, log10_u64, spec_log10add, spec_log10_u64, SCALE};
use crate::models::{spec_cost, spec_min_level, MODEL_OUT, PARAM_BOUND, LEVEL_LIMIT};
use crate::upgrade::{var_wf, Variable};

verus! {

/// Most upgrades one engine instance will manage.
pub const NVARS_MAX: usize = 16;

/// Bound on the goal and on threshold configuration values.
pub const GOAL_BOUND: i64 = 1_000_000_000_000_000;

/// Bound on the per-run threshold parameter `tau`.
pub const TAU_BOUND: i64 = 1_000_000_000_000;

/// Bounds on the resource accumulator maintained by the engine.
pub const RHO_LOW: i64 = -3_000_000_000_000_000;

pub const RHO_HIGH: i64 = 50_000_000_000_000_000;

/// Bound on the per-tick growth multiplier.
pub const MULT_BOUND: i64 = 3_000_000_000_000_000;

/// Simulated time at which a run gives up (micro-units).
pub const T_LIMIT: i64 = 4_000_000_000_000_000_000;

/// The tick size saturates here instead of overflowing.
pub const DT_CAP: i64 = 1_000_000_000_000_000;

/// Initial tick size: one and a half time units.
pub const DT_START: i64 = 1_500_000;

/// Per-tick growth of the tick size: `dt` gains `dt / TICK_DIV`, the
/// calibrated factor of one plus one ten-thousandth.
pub const TICK_DIV: i64 = 10_000;

/// Elapsed time standing for "no result yet".
pub const T_INF: i64 = i64::MAX;

/// Immutable per-run configuration: threshold, population scale, starting
/// resource.
#[derive(Clone, Copy)]
pub struct TheoryData {
    pub tau: i64,
    pub students: u32,
    pub rho: i64,
}

/// One purchase event: upgrade symbol, resulting level, simulated time.
pub struct VarBuy {
    pub symb: String,
    pub lvl: u32,
    pub t: i64,
}

/// Result of a completed simulation: elapsed time, and the purchase log
/// unless it was discarded to save memory.
pub struct SimRes {
    pub t: i64,
    pub var_buys: Option<Vec<VarBuy>>,
}

/// Outcome of a purchase decision.
#[derive(PartialEq, Eq, Structural)]
#[allow(non_camel_case_types)]
pub enum BuyEval {
    BUY,
    FORK,
    SKIP,
}

/// Coast band of one upgrade: distances to the goal strictly above `ubound`
/// buy outright, distances in `(lbound, ubound]` fork, the rest coast.
#[derive(Clone, Copy)]
pub struct CoastRule {
    pub lbound: i64,
    pub ubound: i64,
}

/// Cost-effectiveness rule of one upgrade: buy only while its cost plus
/// `margin` undercuts every competitor's current cost.
pub struct RatioRule {
    pub margin: i64,
    pub competitors: Vec<usize>,
}

/// Per-theory configuration of the engine.
pub struct Theory {
    /// Display symbol of each upgrade, recorded in the purchase log.
    pub symbols: Vec<String>,
    /// Fixed priority order in which upgrades are offered each tick.
    pub order: Vec<usize>,
    /// Coast band per upgrade.
    pub coast: Vec<CoastRule>,
    /// Ratio rule per upgrade.
    pub ratio: Vec<RatioRule>,
    /// Whether each upgrade's value enters the growth sum.
    pub contributes: Vec<bool>,
    /// Eligibility per upgrade (milestone gating).
    pub available: Vec<bool>,
    /// Distance to the goal beyond which coasting is never considered.
    pub coast_far: i64,
    /// Purchases are logged once the peak accumulator exceeds this.
    pub record_threshold: i64,
    /// Multiplier formula: `tau * mult_num / mult_den + mult_offset`.
    pub mult_num: i64,
    pub mult_den: i64,
    pub mult_offset: i64,
}

/// Configuration sanity for `n` upgrades.
pub open spec fn theory_wf(th: Theory, n: int) -> bool {
    &&& th.symbols.len() == n
    &&& th.order.len() == n
    &&& th.coast.len() == n
    &&& th.ratio.len() == n
    &&& th.contributes.len() == n
    &&& th.available.len() == n
    &&& forall|i: int| 0 <= i < n ==> (#[trigger] th.order[i]) < n
    &&& forall|i: int, j: int|
        0 <= i < n && 0 <= j < th.ratio[i].competitors.len() ==> (#[trigger] th.ratio[i].competitors[j]) < n
    &&& forall|i: int| 0 <= i < n ==> -PARAM_BOUND <= (#[trigger] th.ratio[i]).margin <= PARAM_BOUND
    &&& 0 <= th.mult_num <= 1_000
    &&& 1 <= th.mult_den <= 1_000
    &&& -PARAM_BOUND <= th.mult_offset <= PARAM_BOUND
    &&& -GOAL_BOUND <= th.record_threshold <= GOAL_BOUND
    &&& 0 <= th.coast_far <= GOAL_BOUND
}

/// The purchase log carries non-negative, non-decreasing timestamps, none of
/// them past the current simulated time.
pub open spec fn varbuys_wf(vb: Seq<VarBuy>, t: int) -> bool {
    forall|i: int|
        #![trigger vb[i]]
        0 <= i < vb.len() ==> {
            &&& 0 <= vb[i].t <= t
            &&& (i + 1 < vb.len() ==> vb[i].t <= vb[i + 1].t)
        }
}

/// The running state of one simulation instance.
pub struct Sim {
    /// Immutable per-run parameters.
    pub data: TheoryData,
    /// Per-theory configuration.
    pub theory: Theory,
    /// Fork-local level caps; an upgrade at or above its cap is frozen.
    pub caps: Vec<u32>,
    /// Whether the coasting decision is consulted at all.
    pub do_coasting: bool,
    /// Target value of the peak accumulator.
    pub goal: i64,
    /// Resource accumulator (log domain).
    pub rho: i64,
    /// Historical peak of the accumulator: the termination signal.
    pub maxrho: i64,
    /// Per-run growth multiplier, derived from `tau`.
    pub multiplier: i64,
    /// The purchasable upgrades.
    pub vars: Vec<Variable>,
    /// Purchase log of this branch.
    pub varbuys: Vec<VarBuy>,
    /// Simulated elapsed time.
    pub t: i64,
    /// Current tick size; grows geometrically.
    pub dt: i64,
    /// Fork nesting depth (telemetry only).
    pub depth: u32,
    /// Best result found by any fork spawned from this instance.
    pub best_res: SimRes,
}

/// Engine-state well-formedness: sane configuration, well-formed upgrades,
/// and every log-domain quantity inside the kernel's working range.
pub open spec fn sim_wf(s: Sim) -> bool {
    &&& s.vars.len() <= NVARS_MAX
    &&& theory_wf(s.theory, s.vars.len() as int)
    &&& s.caps.len() == s.vars.len()
    &&& forall|i: int| 0 <= i < s.vars.len() ==> var_wf(#[trigger] s.vars[i])
    &&& -GOAL_BOUND <= s.goal <= GOAL_BOUND
    &&& 0 <= s.data.tau <= TAU_BOUND
    &&& 0 <= s.data.rho <= GOAL_BOUND
    &&& RHO_LOW <= s.rho <= RHO_HIGH
    &&& (s.rho <= s.maxrho + 2 * SCALE || s.rho <= GOAL_BOUND)
    &&& RHO_LOW <= s.maxrho <= RHO_HIGH
    &&& -MULT_BOUND <= s.multiplier <= MULT_BOUND
    &&& 0 <= s.t <= T_LIMIT + DT_CAP
    &&& DT_START <= s.dt <= DT_CAP
    &&& 0 <= s.best_res.t
    &&& varbuys_wf(s.varbuys@, s.t as int)
}

/// Copies a vector of plain copyable values.
fn copy_vec<T: Copy>(v: &Vec<T>) -> (r: Vec<T>)
    ensures
        r@ == v@,
{
    let mut r: Vec<T> = Vec::new();
    let mut i: usize = 0;
    while i < v.len()
        invariant
            i <= v.len(),
            r@ == v@.subrange(0, i as int),
        decreases v.len() - i,
    {
        r.push(v[i]);
        proof {
            assert(r@ =~= v@.subrange(0, i + 1));
        }
        i = i + 1;
    }
    proof {
        assert(r@ =~= v@);
    }
    r
}

/// Copies a vector of strings.
fn copy_strings(v: &Vec<String>) -> (r: Vec<String>)
    ensures
        r@ == v@,
{
    let mut r: Vec<String> = Vec::new();
    let mut i: usize = 0;
    while i < v.len()
        invariant
            i <= v.len(),
            r@ == v@.subrange(0, i as int),
        decreases v.len() - i,
    {
        r.push(v[i].clone());
        proof {
            assert(r@ =~= v@.subrange(0, i + 1));
        }
        i = i + 1;
    }
    proof {
        assert(r@ =~= v@);
    }
    r
}

/// Two ratio rules agree in margin and competitor list.
pub open spec fn ratio_eq(a: RatioRule, b: RatioRule) -> bool {
    &&& a.margin == b.margin
    &&& a.competitors@ == b.competitors@
}

/// Element-wise agreement of two ratio-rule sequences.
pub open spec fn ratio_seq_eq(a: Seq<RatioRule>, b: Seq<RatioRule>) -> bool {
    &&& a.len() == b.len()
    &&& forall|i: int| 0 <= i < a.len() ==> #[trigger] ratio_eq(a[i], b[i])
}

/// Copies a vector of ratio rules.
fn copy_ratio(v: &Vec<RatioRule>) -> (r: Vec<RatioRule>)
    ensures
        ratio_seq_eq(r@, v@),
{
    let mut r: Vec<RatioRule> = Vec::new();
    let mut i: usize = 0;
    while i < v.len()
        invariant
            i <= v.len(),
            r@.len() == i,
            forall|k: int| 0 <= k < i ==> #[trigger] ratio_eq(r@[k], v@[k]),
        decreases v.len() - i,
    {
        let rule = RatioRule { margin: v[i].margin, competitors: copy_vec(&v[i].competitors) };
        proof {
            assert(ratio_eq(rule, v@[i as int]));
        }
        r.push(rule);
        i = i + 1;
    }
    r
}

/// Copies a purchase log.
fn copy_varbuys(v: &Vec<VarBuy>) -> (r: Vec<VarBuy>)
    ensures
        r@ == v@,
{
    let mut r: Vec<VarBuy> = Vec::new();
    let mut i: usize = 0;
    while i < v.len()
        invariant
            i <= v.len(),
            r@ == v@.subrange(0, i as int),
        decreases v.len() - i,
    {
        let e = VarBuy { symb: v[i].symb.clone(), lvl: v[i].lvl, t: v[i].t };
        proof {
            assert(e == v@[i as int]);
        }
        r.push(e);
        proof {
            assert(r@ =~= v@.subrange(0, i + 1));
        }
        i = i + 1;
    }
    proof {
        assert(r@ =~= v@);
    }
    r
}

/// Copies the upgrades (a structural deep copy, level for level).
fn copy_vars(v: &Vec<Variable>) -> (r: Vec<Variable>)
    ensures
        r@ == v@,
{
    let mut r: Vec<Variable> = Vec::new();
    let mut i: usize = 0;
    while i < v.len()
        invariant
            i <= v.len(),
            r@ == v@.subrange(0, i as int),
        decreases v.len() - i,
    {
        let e = v[i].duplicate();
        r.push(e);
        proof {
            assert(r@ =~= v@.subrange(0, i + 1));
        }
        i = i + 1;
    }
    proof {
        assert(r@ =~= v@);
    }
    r
}

/// Two configurations agree on every observable field.
pub open spec fn theory_eq(a: Theory, b: Theory) -> bool {
    &&& a.symbols@ == b.symbols@
    &&& a.order@ == b.order@
    &&& a.coast@ == b.coast@
    &&& ratio_seq_eq(a.ratio@, b.ratio@)
    &&& a.contributes@ == b.contributes@
    &&& a.available@ == b.available@
    &&& a.coast_far == b.coast_far
    &&& a.record_threshold == b.record_threshold
    &&& a.mult_num == b.mult_num
    &&& a.mult_den == b.mult_den
    &&& a.mult_offset == b.mult_offset
}

/// Agreeing configurations are interchangeably well-formed.
pub proof fn lemma_theory_eq_wf(a: Theory, b: Theory, n: int)
    requires
        theory_eq(a, b),
        theory_wf(a, n),
    ensures
        theory_wf(b, n),
{
    assert forall|i: int, j: int|
        0 <= i < n && 0 <= j < b.ratio[i].competitors.len() implies (#[trigger] b.ratio[
        i].competitors[j]) < n by {
        assert(ratio_eq(a.ratio@[i], b.ratio@[i]));
    }
    assert forall|i: int| 0 <= i < n implies -PARAM_BOUND <= (#[trigger] b.ratio[i]).margin
        <= PARAM_BOUND by {
        assert(ratio_eq(a.ratio@[i], b.ratio@[i]));
    }
}

impl Theory {
    /// Structural deep copy of the configuration.
    pub fn duplicate(&self) -> (r: Theory)
        ensures
            theory_eq(r, *self),
            theory_eq(*self, r),
    {
        let r = Theory {
            symbols: copy_strings(&self.symbols),
            order: copy_vec(&self.order),
            coast: copy_vec(&self.coast),
            ratio: copy_ratio(&self.ratio),
            contributes: copy_vec(&self.contributes),
            available: copy_vec(&self.available),
            coast_far: self.coast_far,
            record_threshold: self.record_threshold,
            mult_num: self.mult_num,
            mult_den: self.mult_den,
            mult_offset: self.mult_offset,
        };
        proof {
            assert forall|i: int| 0 <= i < self.ratio@.len() implies #[trigger] ratio_eq(
                self.ratio@[i],
                r.ratio@[i],
            ) by {
                assert(ratio_eq(r.ratio@[i], self.ratio@[i]));
            }
        }
        r
    }
}

/// The run's growth multiplier: an affine function of `tau`.
pub open spec fn spec_multiplier(th: Theory, tau: int) -> int {
    tau * (th.mult_num as int) / (th.mult_den as int) + th.mult_offset
}

/// The three-way coast decision for a distance and a band.
pub open spec fn spec_eval_coast_one(dist: int, lbound: int, ubound: int) -> BuyEval {
    if dist > ubound {
        BuyEval::BUY
    } else if dist > lbound {
        BuyEval::FORK
    } else {
        BuyEval::SKIP
    }
}

/// The coast decision of upgrade `id` at price `cost`: buy outright far from
/// the goal or with coasting disabled, otherwise consult the upgrade's band.
pub open spec fn spec_eval_coast(s: Sim, id: int, cost: int) -> BuyEval {
    let dist = s.goal - cost;
    if dist > s.theory.coast_far || !s.do_coasting {
        BuyEval::BUY
    } else {
        spec_eval_coast_one(
            dist,
            s.theory.coast[id].lbound as int,
            s.theory.coast[id].ubound as int,
        )
    }
}

/// Upgrade `id` undercuts its `k`-th competitor: its cost plus margin is
/// strictly below the competitor's cached cost.
pub open spec fn ratio_ok(s: Sim, id: int, k: int) -> bool {
    s.vars[id].cost + s.theory.ratio[id].margin < s.vars[s.theory.ratio[id].competitors[k] as int].cost
}

/// The ratio decision of upgrade `id`: buy while its cost plus margin
/// undercuts every competitor's cached cost.
pub open spec fn spec_eval_ratio(s: Sim, id: int) -> BuyEval {
    if forall|j: int| 0 <= j < s.theory.ratio[id].competitors.len() ==> #[trigger] ratio_ok(s, id, j) {
        BuyEval::BUY
    } else {
        BuyEval::SKIP
    }
}

impl Sim {
    /// Growth multiplier from the run threshold.
    pub fn get_multiplier(&self, tau: i64) -> (r: i64)
        requires
            0 <= tau <= TAU_BOUND,
            theory_wf(self.theory, self.vars.len() as int),
        ensures
            r == spec_multiplier(self.theory, tau as int),
            -MULT_BOUND <= r <= MULT_BOUND,
    {
        proof {
            assert(0 <= (tau as int) * (self.theory.mult_num as int) <= TAU_BOUND * 1_000)
                by (nonlinear_arith)
                requires
                    0 <= tau <= TAU_BOUND,
                    0 <= self.theory.mult_num <= 1_000,
            ;
            assert((tau as int) * (self.theory.mult_num as int) / (self.theory.mult_den as int)
                <= TAU_BOUND * 1_000) by {
                vstd::arithmetic::div_mod::lemma_div_nonincreasing(
                    (tau as int) * (self.theory.mult_num as int),
                    self.theory.mult_den as int,
                );
            }
            assert((tau as int) * (self.theory.mult_num as int) / (self.theory.mult_den as int)
                >= 0) by {
                vstd::arithmetic::div_mod::lemma_div_pos_is_pos(
                    (tau as int) * (self.theory.mult_num as int),
                    self.theory.mult_den as int,
                );
            }
        }
        tau * self.theory.mult_num / self.theory.mult_den + self.theory.mult_offset
    }

    /// Three-way coast decision from a distance and a band.
    pub fn eval_coast_one(&self, dist: i64, lbound: i64, ubound: i64) -> (r: BuyEval)
        ensures
            r == spec_eval_coast_one(dist as int, lbound as int, ubound as int),
    {
        if dist > ubound {
            BuyEval::BUY
        } else if dist > lbound {
            BuyEval::FORK
        } else {
            BuyEval::SKIP
        }
    }

    /// Coast decision of upgrade `id` at price `cost`.  Far from the goal the
    /// answer is always to buy: coasting is never worth it there, so a run
    /// with coasting disabled diverges from this one only near the goal.
    pub fn eval_coast(&self, id: usize, cost: i64) -> (r: BuyEval)
        requires
            sim_wf(*self),
            id < self.vars.len(),
            -MODEL_OUT <= cost <= MODEL_OUT,
        ensures
            r == spec_eval_coast(*self, id as int, cost as int),
            !self.do_coasting ==> r == BuyEval::BUY,
            self.goal - cost > self.theory.coast[id as int].lbound ==> r != BuyEval::SKIP,
    {
        let dist: i64 = self.goal - cost;
        if dist > self.theory.coast_far || !self.do_coasting {
            BuyEval::BUY
        } else {
            let rule: CoastRule = self.theory.coast[id];
            self.eval_coast_one(dist, rule.lbound, rule.ubound)
        }
    }

    /// Ratio decision of upgrade `id`.
    pub fn eval_ratio(&self, id: usize) -> (r: BuyEval)
        requires
            sim_wf(*self),
            id < self.vars.len(),
        ensures
            r == spec_eval_ratio(*self, id as int),
    {
        let m: i64 = self.theory.ratio[id].margin;
        let own: i64 = self.vars[id].cost;
        let ncomp: usize = self.theory.ratio[id].competitors.len();
        let mut j: usize = 0;
        let mut ok: bool = true;
        while j < ncomp
            invariant
                sim_wf(*self),
                id < self.vars.len(),
                ncomp == self.theory.ratio[id as int].competitors.len(),
                m == self.theory.ratio[id as int].margin,
                own == self.vars[id as int].cost,
                j <= ncomp,
                ok == forall|k: int| 0 <= k < j ==> #[trigger] ratio_ok(*self, id as int, k),
            decreases ncomp - j,
        {
            let c: usize = self.theory.ratio[id].competitors[j];
            if !(own + m < self.vars[c].cost) {
                proof {
                    assert(!ratio_ok(*self, id as int, j as int));
                }
                ok = false;
            } else {
                proof {
                    assert(ratio_ok(*self, id as int, j as int));
                }
            }
            j = j + 1;
        }
        if ok {
            BuyEval::BUY
        } else {
            BuyEval::SKIP
        }
    }
}

} // verus!

verus! {

/// Sum of the values of the upgrades (below index `k`) that feed growth.
pub open spec fn spec_value_sum(s: Sim, k: int) -> int
    decreases k,
{
    if k <= 0 {
        0
    } else {
        spec_value_sum(s, k - 1) + (if s.theory.contributes[k - 1] {
            s.vars[k - 1].value as int
        } else {
            0
        })
    }
}

/// The log-domain growth folded into the accumulator each tick: the run
/// multiplier, the contributing upgrade values, and the tick length.
pub open spec fn spec_growth(s: Sim) -> int {
    s.multiplier + spec_value_sum(s, s.vars.len() as int) + (spec_log10_u64(s.dt as int) - 6 * (
    SCALE as int))
}

impl Sim {
    /// One simulation time-step: fold the current growth into the
    /// accumulator, update the historical peak, advance simulated time by
    /// two thirds of the tick size, and grow the tick size geometrically
    /// (saturating at [`DT_CAP`]).  The peak never decreases and time
    /// strictly increases.
    pub fn tick(&mut self)
        requires
            sim_wf(*old(self)),
            old(self).maxrho < old(self).goal,
            old(self).t <= T_LIMIT,
        ensures
            sim_wf(*final(self)),
            final(self).rho == spec_log10add(old(self).rho as int, spec_growth(*old(self))),
            final(self).maxrho == vstd::math::max(
                old(self).maxrho as int,
                final(self).rho as int,
            ),
            final(self).maxrho >= old(self).maxrho,
            final(self).rho >= old(self).rho,
            final(self).t == old(self).t + 2 * (old(self).dt as int) / 3,
            final(self).t > old(self).t,
            final(self).dt == (if (old(self).dt as int) + (old(self).dt as int) / (
            TICK_DIV as int) <= DT_CAP {
                (old(self).dt as int) + (old(self).dt as int) / (TICK_DIV as int)
            } else {
                old(self).dt as int
            }),
            final(self).vars@ == old(self).vars@,
            final(self).caps@ == old(self).caps@,
            final(self).varbuys@ == old(self).varbuys@,
            final(self).goal == old(self).goal,
            final(self).data == old(self).data,
            final(self).theory == old(self).theory,
            final(self).multiplier == old(self).multiplier,
            final(self).depth == old(self).depth,
            final(self).do_coasting == old(self).do_coasting,
            final(self).best_res == old(self).best_res,
    {
        let n: usize = self.vars.len();
        let mut acc: i64 = 0;
        let mut i: usize = 0;
        while i < n
            invariant
                sim_wf(*self),
                n == self.vars.len(),
                i <= n,
                acc == spec_value_sum(*self, i as int),
                -(i as int) * (MODEL_OUT as int) <= acc <= (i as int) * (MODEL_OUT as int),
            decreases n - i,
        {
            proof {
                assert((i + 1) as int * (MODEL_OUT as int) == (i as int) * (MODEL_OUT as int)
                    + MODEL_OUT) by (nonlinear_arith);
                assert(var_wf(self.vars@[i as int]));
            }
            if self.theory.contributes[i] {
                acc = acc + self.vars[i].value;
            }
            i = i + 1;
        }
        proof {
            assert((n as int) * (MODEL_OUT as int) <= 16 * (MODEL_OUT as int)) by (nonlinear_arith)
                requires
                    n <= 16,
                    MODEL_OUT > 0,
            ;
        }
        let dtlog: i64 = log10_u64(self.dt as u64) - 6 * SCALE;
        let growth: i64 = self.multiplier + acc + dtlog;
        let newrho: i64 = log10add(self.rho, growth);
        proof {
            assert(growth == spec_growth(*self));
        }
        self.rho = newrho;
        if self.rho > self.maxrho {
            self.maxrho = self.rho;
        }
        proof {
            assert(2 * (self.dt as int) / 3 >= 2 * (DT_START as int) / 3) by {
                vstd::arithmetic::div_mod::lemma_div_is_ordered(
                    2 * (DT_START as int),
                    2 * (self.dt as int),
                    3,
                );
            }
            assert(2 * (self.dt as int) / 3 <= 2 * (DT_CAP as int) / 3) by {
                vstd::arithmetic::div_mod::lemma_div_is_ordered(
                    2 * (self.dt as int),
                    2 * (DT_CAP as int),
                    3,
                );
            }
        }
        self.t = self.t + (2 * self.dt) / 3;
        proof {
            assert((self.dt as int) / (TICK_DIV as int) >= 0) by {
                vstd::arithmetic::div_mod::lemma_div_pos_is_pos(self.dt as int, TICK_DIV as int);
            }
            assert((self.dt as int) / (TICK_DIV as int) <= self.dt as int) by {
                vstd::arithmetic::div_mod::lemma_div_nonincreasing(self.dt as int, TICK_DIV as int);
            }
        }
        let grown: i64 = self.dt + self.dt / TICK_DIV;
        if grown <= DT_CAP {
            self.dt = grown;
        }
    }

    /// A structurally independent deep copy of the whole state, seeded with
    /// this instance's current economic position: the fork's decisions
    /// diverge from here on.  The fork starts one level deeper and with an
    /// empty best-result slot.
    pub fn fork(&self) -> (r: Sim)
        requires
            sim_wf(*self),
            self.depth < 0xffff_ffffu32,
        ensures
            sim_wf(r),
            r.data == self.data,
            r.goal == self.goal,
            r.rho == self.rho,
            r.maxrho == self.maxrho,
            r.multiplier == self.multiplier,
            r.t == self.t,
            r.dt == self.dt,
            r.do_coasting == self.do_coasting,
            theory_eq(r.theory, self.theory),
            r.caps@ == self.caps@,
            r.vars@ == self.vars@,
            r.varbuys@ == self.varbuys@,
            r.depth == self.depth + 1,
            r.best_res.t == T_INF,
            r.best_res.var_buys is None,
    {
        let r = Sim {
            data: self.data,
            theory: self.theory.duplicate(),
            caps: copy_vec(&self.caps),
            do_coasting: self.do_coasting,
            goal: self.goal,
            rho: self.rho,
            maxrho: self.maxrho,
            multiplier: self.multiplier,
            vars: copy_vars(&self.vars),
            varbuys: copy_varbuys(&self.varbuys),
            t: self.t,
            dt: self.dt,
            depth: self.depth + 1,
            best_res: SimRes { t: T_INF, var_buys: Option::None },
        };
        proof {
            lemma_theory_eq_wf(self.theory, r.theory, r.vars@.len() as int);
            assert(forall|i: int|
                0 <= i < r.vars@.len() ==> var_wf(#[trigger] r.vars@[i]) == var_wf(
                    self.vars@[i],
                ));
        }
        r
    }

    /// Builds a fresh simulation: upgrades as supplied (optionally re-seeded
    /// with explicit starting levels), accumulator at the starting resource,
    /// peak at zero, time at zero, initial tick size, no caps, coasting on.
    pub fn new(
        data: TheoryData,
        goal: i64,
        theory: Theory,
        vars: Vec<Variable>,
        state: Option<Vec<u32>>,
    ) -> (r: Sim)
        requires
            theory_wf(theory, vars@.len() as int),
            vars@.len() <= NVARS_MAX,
            forall|i: int| 0 <= i < vars@.len() ==> var_wf(#[trigger] vars@[i]),
            -GOAL_BOUND <= goal <= GOAL_BOUND,
            0 <= data.tau <= TAU_BOUND,
            0 <= data.rho <= GOAL_BOUND,
            state is Some ==> state.unwrap()@.len() == vars@.len(),
            state is Some ==> forall|i: int|
                0 <= i < vars@.len() ==> spec_min_level(
                    vars@[i].costmodel,
                ) <= (#[trigger] state.unwrap()@[i]) <= LEVEL_LIMIT,
        ensures
            sim_wf(r),
            r.goal == goal,
            r.data == data,
            r.rho == data.rho,
            r.maxrho == 0,
            r.t == 0,
            r.dt == DT_START,
            r.depth == 0,
            r.do_coasting,
            r.varbuys@.len() == 0,
            r.best_res.t == T_INF,
            r.vars@.len() == vars@.len(),
            r.multiplier == spec_multiplier(theory, data.tau as int),
            forall|i: int|
                0 <= i < vars@.len() ==> {
                    &&& (#[trigger] r.vars@[i]).costmodel == vars@[i].costmodel
                    &&& r.vars@[i].valuemodel == vars@[i].valuemodel
                    &&& r.vars@[i].level == (if state is Some {
                        state.unwrap()@[i] as int
                    } else {
                        vars@[i].level as int
                    })
                },
            forall|i: int| 0 <= i < r.caps@.len() ==> (#[trigger] r.caps@[i]) == 0xffff_ffffu32,
    {
        let n: usize = vars.len();
        let mut caps: Vec<u32> = Vec::new();
        let mut k: usize = 0;
        while k < n
            invariant
                k <= n,
                caps@.len() == k,
                forall|i: int| 0 <= i < k ==> (#[trigger] caps@[i]) == 0xffff_ffffu32,
            decreases n - k,
        {
            caps.push(0xffff_ffffu32);
            k = k + 1;
        }
        let ghost vars0 = vars@;
        let mut sim = Sim {
            data,
            theory,
            caps,
            do_coasting: true,
            goal,
            rho: data.rho,
            maxrho: 0,
            multiplier: 0,
            vars,
            varbuys: Vec::new(),
            t: 0,
            dt: DT_START,
            depth: 0,
            best_res: SimRes { t: T_INF, var_buys: Option::None },
        };
        match state {
            Option::None => {
            },
            Option::Some(levels) => {
                let ghost sim0 = sim;
                let mut j: usize = 0;
                while j < n
                    invariant
                        j <= n,
                        n == sim.vars.len(),
                        sim.theory == sim0.theory,
                        sim.caps == sim0.caps,
                        sim.varbuys == sim0.varbuys,
                        sim.data == sim0.data,
                        sim.goal == sim0.goal,
                        sim.rho == sim0.rho,
                        sim.maxrho == sim0.maxrho,
                        sim.multiplier == sim0.multiplier,
                        sim.t == sim0.t,
                        sim.dt == sim0.dt,
                        sim.depth == sim0.depth,
                        sim.do_coasting == sim0.do_coasting,
                        sim.best_res == sim0.best_res,
                        vars0.len() == n,
                        levels@.len() == n,
                        forall|i: int| 0 <= i < n ==> var_wf(#[trigger] vars0[i]),
                        forall|i: int| j <= i < n ==> (#[trigger] sim.vars@[i]) == vars0[i],
                        forall|i: int|
                            0 <= i < n ==> spec_min_level(
                                vars0[i].costmodel,
                            ) <= (#[trigger] levels@[i]) <= LEVEL_LIMIT,
                        forall|i: int|
                            0 <= i < j ==> {
                                &&& var_wf(#[trigger] sim.vars@[i])
                                &&& sim.vars@[i].costmodel == vars0[i].costmodel
                                &&& sim.vars@[i].valuemodel == vars0[i].valuemodel
                                &&& sim.vars@[i].level == levels@[i]
                            },
                    decreases n - j,
                {
                    let mut var = sim.vars[j].duplicate();
                    var.set(levels[j]);
                    sim.vars[j] = var;
                    j = j + 1;
                }
            },
        }
        proof {
            assert(sim.vars@.len() == n);
        }
        let m: i64 = sim.get_multiplier(data.tau);
        sim.multiplier = m;
        sim
    }
}

} // verus!

verus! {

/// Prefix order on sequences is transitive.
proof fn lemma_prefix_trans(a: Seq<VarBuy>, b: Seq<VarBuy>, c: Seq<VarBuy>)
    requires
        a.is_prefix_of(b),
        b.is_prefix_of(c),
    ensures
        a.is_prefix_of(c),
{
    assert(a =~= c.subrange(0, a.len() as int));
}

/// Upgrade `k` is frozen in state `s`: its level has reached its fork-local
/// cap, so no purchase pass of this branch may touch it again.
pub open spec fn frozen(s: Sim, k: int) -> bool {
    s.vars[k].level >= s.caps[k]
}

/// Every upgrade frozen in `a` (level at or above its cap) is untouched in
/// `b`: same upgrade state, same cap.
pub open spec fn freeze_kept(a: Sim, b: Sim, n: int) -> bool {
    forall|k: int|
        0 <= k < n && frozen(a, k) ==> (#[trigger] b.vars@[k]) == a.vars@[k] && b.caps@[k]
            == a.caps@[k]
}

/// The head upgrade of the priority order is ready to buy: eligible, below
/// its cap and the level limit, strictly affordable, and neither the coast
/// nor the ratio decision objects.  A purchase pass on such a state must buy
/// it at least once.
pub open spec fn head_ready(s: Sim) -> bool {
    let i = s.theory.order[0] as int;
    &&& s.vars.len() > 0
    &&& s.theory.available[i]
    &&& s.vars[i].level < s.caps[i]
    &&& s.vars[i].level < LEVEL_LIMIT
    &&& s.rho > s.vars[i].cost
    &&& spec_eval_coast(s, i, s.vars[i].cost as int) != BuyEval::SKIP
    &&& spec_eval_ratio(s, i) != BuyEval::SKIP
}

/// The accumulator left after paying the recorded purchases in order: the
/// entry `(i, l)` pays the model cost of upgrade `i` at level `l` by
/// log-domain subtraction.
pub open spec fn spec_pay(vars: Seq<Variable>, rho: int, ps: Seq<(int, int)>) -> int
    decreases ps.len(),
{
    if ps.len() == 0 {
        rho
    } else {
        spec_pay(
            vars,
            crate::logdomain::spec_log10sub(rho, spec_cost(vars[ps[0].0].costmodel, ps[0].1)),
            ps.skip(1),
        )
    }
}

/// Every recorded purchase was strictly affordable at its moment.
pub open spec fn spec_pay_ok(vars: Seq<Variable>, rho: int, ps: Seq<(int, int)>) -> bool
    decreases ps.len(),
{
    ps.len() == 0 || {
        let c = spec_cost(vars[ps[0].0].costmodel, ps[0].1);
        &&& 0 <= ps[0].0 < vars.len()
        &&& c < rho
        &&& spec_pay_ok(vars, crate::logdomain::spec_log10sub(rho, c), ps.skip(1))
    }
}

/// Total levels gained from `a` to `b` over the first `k` upgrades.
pub open spec fn spec_level_gain(a: Seq<Variable>, b: Seq<Variable>, k: int) -> int
    decreases k,
{
    if k <= 0 {
        0
    } else {
        spec_level_gain(a, b, k - 1) + (b[k - 1].level - a[k - 1].level)
    }
}

/// The purchase record accounts for exactly the levels gained from `a` to
/// `b`: one entry per level gained, each inside the purchased range of its
/// upgrade.
pub open spec fn spec_purchases_match(a: Seq<Variable>, b: Seq<Variable>, ps: Seq<(int, int)>) -> bool {
    &&& forall|k: int|
        0 <= k < ps.len() ==> {
            &&& 0 <= (#[trigger] ps[k]).0 < a.len()
            &&& a[ps[k].0].level <= ps[k].1 < b[ps[k].0].level
        }
    &&& ps.len() == spec_level_gain(a, b, a.len() as int)
}

/// Appending a purchase extends the payment chain by one subtraction and
/// keeps it affordable if the new purchase is.
proof fn lemma_pay_push(vars: Seq<Variable>, rho: int, ps: Seq<(int, int)>, e: (int, int))
    ensures
        spec_pay(vars, rho, ps.push(e)) == crate::logdomain::spec_log10sub(
            spec_pay(vars, rho, ps),
            spec_cost(vars[e.0].costmodel, e.1),
        ),
        spec_pay_ok(vars, rho, ps) && 0 <= e.0 < vars.len() && spec_cost(vars[e.0].costmodel, e.1)
            < spec_pay(vars, rho, ps) ==> spec_pay_ok(vars, rho, ps.push(e)),
    decreases ps.len(),
{
    if ps.len() == 0 {
        let c = spec_cost(vars[e.0].costmodel, e.1);
        assert(ps.push(e)[0] == e);
        assert(ps.push(e).skip(1) =~= Seq::<(int, int)>::empty());
        assert(spec_pay(vars, rho, ps.push(e)) == spec_pay(
            vars,
            crate::logdomain::spec_log10sub(rho, c),
            Seq::<(int, int)>::empty(),
        ));
        assert(spec_pay(
            vars,
            crate::logdomain::spec_log10sub(rho, c),
            Seq::<(int, int)>::empty(),
        ) == crate::logdomain::spec_log10sub(rho, c));
        assert(spec_pay_ok(vars, crate::logdomain::spec_log10sub(rho, c), Seq::<(int, int)>::empty()));
    } else {
        let c0 = spec_cost(vars[ps[0].0].costmodel, ps[0].1);
        assert(ps.push(e)[0] == ps[0]);
        assert(ps.push(e).skip(1) =~= ps.skip(1).push(e));
        lemma_pay_push(vars, crate::logdomain::spec_log10sub(rho, c0), ps.skip(1), e);
        assert(spec_pay(vars, rho, ps.push(e)) == spec_pay(
            vars,
            crate::logdomain::spec_log10sub(rho, c0),
            ps.skip(1).push(e),
        ));
        assert(spec_pay(vars, rho, ps) == spec_pay(
            vars,
            crate::logdomain::spec_log10sub(rho, c0),
            ps.skip(1),
        ));
    }
}

/// States with equal levels show no gain.
proof fn lemma_gain_zero(a: Seq<Variable>, b: Seq<Variable>, k: int)
    requires
        forall|j: int| 0 <= j < k ==> a[j].level == (#[trigger] b[j]).level,
    ensures
        spec_level_gain(a, b, k) == 0,
    decreases k,
{
    if k > 0 {
        lemma_gain_zero(a, b, k - 1);
    }
}

/// Raising one upgrade's level by one raises the total gain by one.
proof fn lemma_gain_update(a: Seq<Variable>, b1: Seq<Variable>, b2: Seq<Variable>, i: int, k: int)
    requires
        b2.len() == b1.len(),
        0 <= i < b1.len(),
        k <= b1.len(),
        b2[i].level == b1[i].level + 1,
        forall|j: int| 0 <= j < b1.len() && j != i ==> (#[trigger] b2[j]) == b1[j],
    ensures
        spec_level_gain(a, b2, k) == spec_level_gain(a, b1, k) + (if i < k {
            1int
        } else {
            0int
        }),
    decreases k,
{
    if k > 0 {
        lemma_gain_update(a, b1, b2, i, k - 1);
    }
}

/// Log entry `e` records a purchase of upgrade `i`: it carries that
/// upgrade's symbol and a level inside the range bought between the states
/// `a` and `b`.
pub open spec fn entry_src(
    a: Seq<Variable>,
    syms: Seq<String>,
    b: Seq<Variable>,
    e: VarBuy,
    i: int,
) -> bool {
    &&& 0 <= i < a.len()
    &&& e.symb@ == syms[i]@
    &&& a[i].level < e.lvl <= b[i].level
}

/// Log entry `e` records some purchase made between the states `a` and `b`.
pub open spec fn entry_recorded(a: Seq<Variable>, syms: Seq<String>, b: Seq<Variable>, e: VarBuy) -> bool {
    exists|ii: int| entry_src(a, syms, b, e, ii)
}

/// Nothing is left to do for upgrade `i` in this state: it is unaffordable,
/// frozen at its cap, or at the level limit.
pub open spec fn pass_done(s: Sim, i: int) -> bool {
    ||| s.rho <= s.vars[i].cost
    ||| s.vars[i].level >= s.caps[i]
    ||| s.vars[i].level >= LEVEL_LIMIT
}

impl SimRes {
    /// Copy with an equal time and an element-wise equal purchase log.
    pub fn duplicate(&self) -> (r: SimRes)
        ensures
            r.t == self.t,
            (r.var_buys is Some) == (self.var_buys is Some),
            r.var_buys is Some ==> r.var_buys.unwrap()@ == self.var_buys.unwrap()@,
    {
        match &self.var_buys {
            Option::None => SimRes { t: self.t, var_buys: Option::None },
            Option::Some(v) => SimRes { t: self.t, var_buys: Option::Some(copy_varbuys(v)) },
        }
    }
}

impl Sim {
    /// The purchase pass of one tick: offer every eligible upgrade in the
    /// theory's priority order, and buy while affordable, gated by the coast
    /// and ratio decisions.  A coast SKIP caps the upgrade at its current
    /// level for the rest of this branch; an ambiguous coast (FORK) first
    /// explores a fork in which the upgrade is capped, keeps the better
    /// result, and then buys in this branch regardless.  `fuel` bounds the
    /// fork nesting that is still explored; with no fuel left, ambiguous
    /// decisions simply buy.
    ///
    /// The contract pins the pass down from several sides: currency is
    /// conserved — the accumulator ends exactly where paying each purchase's
    /// then-cached model cost leaves it, one strictly affordable payment per
    /// level gained (the existential purchase record); the pass finishes its
    /// work — an eligible upgrade without ratio competitors is left
    /// unaffordable, capped or at the level limit; the head of the priority
    /// order is bought at least once whenever it is ready; frozen upgrades
    /// are untouched; and every appended log event carries the current
    /// simulated time and a matching upgrade's symbol with a level inside
    /// that upgrade's purchased range, appended only past the recording
    /// threshold.
    pub fn buy(&mut self, fuel: u32, max_ticks: u64)
        requires
            sim_wf(*old(self)),
            old(self).depth as int + fuel as int <= 0xffff_ffff,
        ensures
            sim_wf(*final(self)),
            final(self).goal == old(self).goal,
            final(self).theory == old(self).theory,
            final(self).data == old(self).data,
            final(self).multiplier == old(self).multiplier,
            final(self).do_coasting == old(self).do_coasting,
            final(self).t == old(self).t,
            final(self).dt == old(self).dt,
            final(self).maxrho == old(self).maxrho,
            final(self).depth == old(self).depth,
            final(self).rho <= old(self).rho,
            final(self).vars@.len() == old(self).vars@.len(),
            forall|i: int|
                0 <= i < old(self).vars@.len() ==> {
                    &&& (#[trigger] final(self).vars@[i]).level >= old(self).vars@[i].level
                    &&& final(self).vars@[i].costmodel == old(self).vars@[i].costmodel
                    &&& final(self).vars@[i].valuemodel == old(self).vars@[i].valuemodel
                },
            final(self).caps@.len() == old(self).caps@.len(),
            old(self).varbuys@.is_prefix_of(final(self).varbuys@),
            final(self).best_res.t <= old(self).best_res.t,
            head_ready(*old(self)) ==> final(self).vars@[old(self).theory.order[0] as int].level
                > old(self).vars@[old(self).theory.order[0] as int].level,
            freeze_kept(*old(self), *final(self), old(self).vars@.len() as int),
            exists|ps: Seq<(int, int)>| {
                &&& #[trigger] spec_pay_ok(old(self).vars@, old(self).rho as int, ps)
                &&& final(self).rho == spec_pay(old(self).vars@, old(self).rho as int, ps)
                &&& spec_purchases_match(old(self).vars@, final(self).vars@, ps)
            },
            forall|j: int|
                0 <= j < old(self).vars@.len() && old(self).theory.available[(
                #[trigger] old(self).theory.order[j]) as int] && old(
                self).theory.ratio[old(self).theory.order[j] as int].competitors.len() == 0
                    ==> pass_done(
                    *final(self),
                    old(self).theory.order[j] as int,
                ),
            final(self).varbuys@.len() > old(self).varbuys@.len() ==> old(self).maxrho > old(
            self).theory.record_threshold,
            forall|k: int|
                old(self).varbuys@.len() <= k < final(self).varbuys@.len() ==> (#[trigger] final(
                self).varbuys@[k]).t == old(self).t,
            forall|k: int|
                old(self).varbuys@.len() <= k < final(self).varbuys@.len() ==> entry_recorded(
                    old(self).vars@,
                    old(self).theory.symbols@,
                    final(self).vars@,
                    #[trigger] final(self).varbuys@[k],
                ),
        decreases 2 * fuel,
    {
        let ghost orig = *self;
        let ghost mut ps: Seq<(int, int)> = Seq::empty();
        let n: usize = self.vars.len();
        proof {
            lemma_gain_zero(orig.vars@, self.vars@, n as int);
        }
        let mut idx: usize = 0;
        while idx < n
            invariant
                orig == *old(self),
                sim_wf(*self),
                n == self.vars.len(),
                n == orig.vars@.len(),
                idx <= n,
                self.goal == orig.goal,
                self.theory == orig.theory,
                self.data == orig.data,
                self.multiplier == orig.multiplier,
                self.do_coasting == orig.do_coasting,
                self.t == orig.t,
                self.dt == orig.dt,
                self.maxrho == orig.maxrho,
                self.depth == orig.depth,
                self.rho <= orig.rho,
                forall|i: int|
                    0 <= i < n ==> {
                        &&& (#[trigger] self.vars@[i]).level >= orig.vars@[i].level
                        &&& self.vars@[i].costmodel == orig.vars@[i].costmodel
                        &&& self.vars@[i].valuemodel == orig.vars@[i].valuemodel
                    },
                self.caps@.len() == orig.caps@.len(),
                orig.varbuys@.is_prefix_of(self.varbuys@),
                self.best_res.t <= orig.best_res.t,
                self.depth as int + fuel as int <= 0xffff_ffff,
                idx == 0 ==> *self == orig,
                idx >= 1 && head_ready(orig) ==> self.vars@[orig.theory.order[0] as int].level
                    > orig.vars@[orig.theory.order[0] as int].level,
                freeze_kept(orig, *self, n as int),
                spec_pay_ok(orig.vars@, orig.rho as int, ps),
                self.rho == spec_pay(orig.vars@, orig.rho as int, ps),
                forall|k: int|
                    0 <= k < ps.len() ==> 0 <= (#[trigger] ps[k]).0 < n && orig.vars@[
                        ps[k].0].level <= ps[k].1 < self.vars@[ps[k].0].level,
                ps.len() == spec_level_gain(orig.vars@, self.vars@, n as int),
                forall|j: int|
                    0 <= j < idx && orig.theory.available[(
                    #[trigger] orig.theory.order[j]) as int] && orig.theory.ratio[
                    orig.theory.order[j] as int].competitors.len() == 0 ==> pass_done(
                        *self,
                        orig.theory.order[j] as int,
                    ),
                orig.varbuys@.len() <= self.varbuys@.len(),
                self.varbuys@.len() > orig.varbuys@.len() ==> orig.maxrho
                    > orig.theory.record_threshold,
                forall|k: int|
                    orig.varbuys@.len() <= k < self.varbuys@.len() ==> (
                    #[trigger] self.varbuys@[k]).t == orig.t,
                forall|k: int|
                    orig.varbuys@.len() <= k < self.varbuys@.len() ==> entry_recorded(
                        orig.vars@,
                        orig.theory.symbols@,
                        self.vars@,
                        #[trigger] self.varbuys@[k],
                    ),
            decreases n - idx,
        {
            let i: usize = self.theory.order[idx];
            proof {
                if idx == 0 && head_ready(orig) {
                    assert(self.theory.available[i as int]);
                    assert(self.vars@[i as int].level < self.caps@[i as int]);
                }
            }
            if self.theory.available[i] && self.vars[i].level < self.caps[i] {
                let ghost pass = *self;
                proof {
                    if frozen(orig, i as int) {
                        assert(self.vars@[i as int] == orig.vars@[i as int]);
                        assert(self.caps@[i as int] == orig.caps@[i as int]);
                    }
                }
                let mut cost: i64 = self.vars[i].get_cost();
                while self.rho > cost && self.vars[i].level < LEVEL_LIMIT
                    invariant
                        orig == *old(self),
                        sim_wf(*self),
                        n == self.vars.len(),
                        n == orig.vars@.len(),
                        i < n,
                        idx < n,
                        cost == self.vars@[i as int].cost,
                        self.goal == orig.goal,
                        self.theory == orig.theory,
                        self.data == orig.data,
                        self.multiplier == orig.multiplier,
                        self.do_coasting == orig.do_coasting,
                        self.t == orig.t,
                        self.dt == orig.dt,
                        self.maxrho == orig.maxrho,
                        self.depth == orig.depth,
                        self.rho <= orig.rho,
                        forall|k: int|
                            0 <= k < n ==> {
                                &&& (#[trigger] self.vars@[k]).level >= orig.vars@[k].level
                                &&& self.vars@[k].costmodel == orig.vars@[k].costmodel
                                &&& self.vars@[k].valuemodel == orig.vars@[k].valuemodel
                            },
                        self.caps@.len() == orig.caps@.len(),
                        orig.varbuys@.is_prefix_of(self.varbuys@),
                        self.best_res.t <= orig.best_res.t,
                        self.depth as int + fuel as int <= 0xffff_ffff,
                        idx == 0 ==> i == orig.theory.order[0],
                        idx == 0 && head_ready(orig) ==> (*self == orig || self.vars@[
                            i as int].level > orig.vars@[i as int].level),
                        pass.vars@.len() == n,
                        pass.caps@.len() == n,
                        forall|k: int|
                            0 <= k < n && k != i as int ==> self.vars@[k] == pass.vars@[k],
                        forall|k: int|
                            0 <= k < n && k != i as int ==> self.caps@[k] == pass.caps@[k],
                        self.vars@[i as int].level >= pass.vars@[i as int].level,
                        !frozen(orig, i as int),
                        self.rho <= pass.rho,
                        spec_pay_ok(orig.vars@, orig.rho as int, ps),
                        self.rho == spec_pay(orig.vars@, orig.rho as int, ps),
                        forall|k: int|
                            0 <= k < ps.len() ==> 0 <= (#[trigger] ps[k]).0 < n && orig.vars@[
                                ps[k].0].level <= ps[k].1 < self.vars@[ps[k].0].level,
                        ps.len() == spec_level_gain(orig.vars@, self.vars@, n as int),
                        forall|j: int|
                            0 <= j < idx && orig.theory.order[j] != i && orig.theory.available[(
                            #[trigger] orig.theory.order[j]) as int] && orig.theory.ratio[
                            orig.theory.order[j] as int].competitors.len() == 0 ==> pass_done(
                                *self,
                                orig.theory.order[j] as int,
                            ),
                        orig.varbuys@.len() <= self.varbuys@.len(),
                        self.varbuys@.len() > orig.varbuys@.len() ==> orig.maxrho
                            > orig.theory.record_threshold,
                        forall|k: int|
                            orig.varbuys@.len() <= k < self.varbuys@.len() ==> (
                            #[trigger] self.varbuys@[k]).t == orig.t,
                        forall|k: int|
                            orig.varbuys@.len() <= k < self.varbuys@.len() ==> entry_recorded(
                                orig.vars@,
                                orig.theory.symbols@,
                                self.vars@,
                                #[trigger] self.varbuys@[k],
                            ),
                    ensures
                        forall|k: int|
                            0 <= k < n && k != i as int ==> self.vars@[k] == pass.vars@[k],
                        forall|k: int|
                            0 <= k < n && k != i as int ==> self.caps@[k] == pass.caps@[k],
                        self.vars@[i as int].level >= pass.vars@[i as int].level,
                        idx == 0 && head_ready(orig) ==> self.vars@[i as int].level > orig.vars@[
                            i as int].level,
                        orig.theory.available[i as int] && orig.theory.ratio[
                            i as int].competitors.len() == 0 ==> pass_done(*self, i as int),
                    decreases LEVEL_LIMIT - self.vars@[i as int].level,
                {
                    let ghost at_start = (*self == orig);
                    let ghost iter0 = *self;
                    proof {
                        assert forall|j2: int| 0 <= j2 < n implies (
                        #[trigger] orig.theory.order[j2]) < n by {
                            assert(self.theory.order[j2] < n);
                        }
                        assert forall|j: int|
                            0 <= j < idx && orig.theory.order[j] != i && orig.theory.available[(
                            #[trigger] orig.theory.order[j]) as int] && orig.theory.ratio[
                            orig.theory.order[j] as int].competitors.len()
                                == 0 implies pass_done(
                            iter0,
                            orig.theory.order[j] as int,
                        ) by {
                            assert(pass_done(*self, orig.theory.order[j] as int));
                        }
                    }
                    let coast_eval: BuyEval = self.eval_coast(i, cost);
                    let ratio_eval: BuyEval = self.eval_ratio(i);
                    if coast_eval != BuyEval::SKIP {
                        if ratio_eval == BuyEval::SKIP {
                            proof {
                                if idx == 0 && head_ready(orig) && at_start {
                                    assert(spec_eval_ratio(orig, i as int) != BuyEval::SKIP);
                                }
                                if self.theory.ratio@[i as int].competitors.len() == 0 {
                                    assert(spec_eval_ratio(*self, i as int) == BuyEval::BUY);
                                }
                            }
                            break;
                        }
                        if coast_eval == BuyEval::FORK && fuel > 0 {
                            let lvl: u32 = self.vars[i].get_level();
                            let mut fork_sim: Sim = self.fork();
                            fork_sim.caps[i] = lvl;
                            let res_opt: Option<SimRes> = fork_sim.simulate(fuel - 1, max_ticks);
                            match res_opt {
                                Option::Some(res) => {
                                    if res.t < self.best_res.t {
                                        self.best_res = res;
                                    }
                                },
                                Option::None => {
                                },
                            }
                        }
                        let ghost lvlb = self.vars@[i as int].level as int;
                        let ghost entry_rec = (i as int, lvlb);
                        proof {
                            assert(var_wf(self.vars@[i as int]));
                            assert(spec_cost(orig.vars@[i as int].costmodel, lvlb) == cost);
                            lemma_pay_push(orig.vars@, orig.rho as int, ps, entry_rec);
                        }
                        let newrho: i64 = log10sub(self.rho, cost);
                        self.rho = newrho;
                        proof {
                            ps = ps.push(entry_rec);
                        }
                        let ghost vars_before = self.vars@;
                        let mut var: Variable = self.vars[i].duplicate();
                        var.buy();
                        self.vars[i] = var;
                        proof {
                            lemma_gain_update(
                                orig.vars@,
                                vars_before,
                                self.vars@,
                                i as int,
                                n as int,
                            );
                            assert forall|k: int|
                                orig.varbuys@.len() <= k
                                    < self.varbuys@.len() implies entry_recorded(
                                orig.vars@,
                                orig.theory.symbols@,
                                self.vars@,
                                #[trigger] self.varbuys@[k],
                            ) by {
                                assert(entry_recorded(
                                    orig.vars@,
                                    orig.theory.symbols@,
                                    vars_before,
                                    self.varbuys@[k],
                                ));
                                let wi = choose|ii: int|
                                    entry_src(
                                        orig.vars@,
                                        orig.theory.symbols@,
                                        vars_before,
                                        self.varbuys@[k],
                                        ii,
                                    );
                                assert(entry_src(
                                    orig.vars@,
                                    orig.theory.symbols@,
                                    self.vars@,
                                    self.varbuys@[k],
                                    wi,
                                ));
                            }
                            assert forall|k: int| 0 <= k < ps.len() implies 0 <= (
                            #[trigger] ps[k]).0 < n && orig.vars@[ps[k].0].level <= ps[k].1
                                < self.vars@[ps[k].0].level by {
                                if k < ps.len() - 1 {
                                    if ps[k].0 == i as int {
                                        assert(self.vars@[i as int].level == vars_before[
                                            i as int].level + 1);
                                    } else {
                                        assert(self.vars@[ps[k].0] == vars_before[ps[k].0]);
                                    }
                                } else {
                                    assert(ps[k] == entry_rec);
                                }
                            }
                        }
                        cost = self.vars[i].get_cost();
                        if self.maxrho > self.theory.record_threshold {
                            let ghost before = self.varbuys@;
                            let entry = VarBuy {
                                symb: self.theory.symbols[i].clone(),
                                lvl: self.vars[i].get_level(),
                                t: self.t,
                            };
                            self.varbuys.push(entry);
                            proof {
                                assert(varbuys_wf(self.varbuys@, self.t as int)) by {
                                    assert(forall|k: int|
                                        0 <= k < before.len() ==> self.varbuys@[k]
                                            == #[trigger] before[k]);
                                }
                                assert(before.is_prefix_of(self.varbuys@)) by {
                                    assert(before =~= self.varbuys@.subrange(
                                        0,
                                        before.len() as int,
                                    ));
                                }
                                lemma_prefix_trans(orig.varbuys@, before, self.varbuys@);
                                assert forall|k: int|
                                    orig.varbuys@.len() <= k
                                        < self.varbuys@.len() implies (
                                    #[trigger] self.varbuys@[k]).t == orig.t by {
                                    if k < before.len() {
                                        assert(self.varbuys@[k] == before[k]);
                                    } else {
                                        assert(self.varbuys@[k] == entry);
                                    }
                                }
                                assert forall|k: int|
                                    orig.varbuys@.len() <= k
                                        < self.varbuys@.len() implies entry_recorded(
                                    orig.vars@,
                                    orig.theory.symbols@,
                                    self.vars@,
                                    #[trigger] self.varbuys@[k],
                                ) by {
                                    if k < before.len() {
                                        assert(self.varbuys@[k] == before[k]);
                                        assert(entry_recorded(
                                            orig.vars@,
                                            orig.theory.symbols@,
                                            self.vars@,
                                            before[k],
                                        ));
                                    } else {
                                        assert(self.varbuys@[k] == entry);
                                        assert(entry.symb@ == orig.theory.symbols@[i as int]@);
                                        assert(entry_src(
                                            orig.vars@,
                                            orig.theory.symbols@,
                                            self.vars@,
                                            entry,
                                            i as int,
                                        ));
                                        assert(entry_recorded(
                                            orig.vars@,
                                            orig.theory.symbols@,
                                            self.vars@,
                                            entry,
                                        ));
                                    }
                                }
                            }
                        }
                        proof {
                            assert forall|j: int|
                                0 <= j < idx && orig.theory.order[j] != i
                                    && orig.theory.available[(
                                #[trigger] orig.theory.order[j]) as int] && orig.theory.ratio[
                                orig.theory.order[j] as int].competitors.len()
                                    == 0 implies pass_done(
                                *self,
                                orig.theory.order[j] as int,
                            ) by {
                                let kk = orig.theory.order[j] as int;
                                assert(orig.theory.order[j] < n);
                                assert(kk != i as int);
                                assert(pass_done(iter0, kk));
                                assert(self.vars@[kk] == vars_before[kk]);
                                assert(vars_before[kk] == iter0.vars@[kk]);
                                assert(self.caps@[kk] == iter0.caps@[kk]);
                                assert(self.rho <= iter0.rho);
                            }
                        }
                    } else {
                        proof {
                            if idx == 0 && head_ready(orig) && at_start {
                                assert(spec_eval_coast(orig, i as int, cost as int)
                                    != BuyEval::SKIP);
                            }
                        }
                        let lvl: u32 = self.vars[i].get_level();
                        self.caps[i] = lvl;
                        proof {
                            assert forall|j: int|
                                0 <= j < idx && orig.theory.order[j] != i
                                    && orig.theory.available[(
                                #[trigger] orig.theory.order[j]) as int] && orig.theory.ratio[
                                orig.theory.order[j] as int].competitors.len()
                                    == 0 implies pass_done(
                                *self,
                                orig.theory.order[j] as int,
                            ) by {
                                let kk = orig.theory.order[j] as int;
                                assert(orig.theory.order[j] < n);
                                assert(kk != i as int);
                                assert(pass_done(iter0, kk));
                                assert(self.vars@[kk] == iter0.vars@[kk]);
                                assert(self.caps@[kk] == iter0.caps@[kk]);
                            }
                        }
                        break;
                    }
                }
                proof {
                    if idx == 0 && head_ready(orig) {
                        assert(self.vars@[i as int].level > orig.vars@[i as int].level);
                    }
                    if idx >= 1 && head_ready(orig) {
                        let h = orig.theory.order[0] as int;
                        if h == i as int {
                            assert(self.vars@[h].level >= pass.vars@[h].level);
                        } else {
                            assert(self.vars@[h] == pass.vars@[h]);
                        }
                    }
                    let ghost cur = *self;
                    assert forall|k: int| 0 <= k < n && frozen(orig, k) implies (#[trigger] cur
                        .vars@[k]) == orig.vars@[k] && cur.caps@[k] == orig.caps@[k] by {
                        assert(k != i as int);
                        assert(pass.vars@[k] == orig.vars@[k]);
                        assert(pass.caps@[k] == orig.caps@[k]);
                        assert(cur.vars@[k] == pass.vars@[k]);
                        assert(cur.caps@[k] == pass.caps@[k]);
                    }
                    assert(freeze_kept(orig, cur, n as int));
                    assert(freeze_kept(orig, *self, n as int));
                }
            }
            idx = idx + 1;
        }
    }

    /// Runs this branch to completion: tick and buy until the historical
    /// peak reaches the goal, then return the better of this branch's own
    /// elapsed time and the best result any descendant fork recorded.
    /// `fuel` bounds the fork nesting explored and `max_ticks` the number of
    /// steps taken; a run that exhausts either budget before the goal gives
    /// up and returns nothing (the configuration owes no finite answer).
    /// Giving up is certified: a run may return nothing only past the hard
    /// time limit, or after genuinely spending the whole tick budget — each
    /// tick advances simulated time by at least one unit (two thirds of the
    /// initial tick size), so the elapsed simulated time witnesses the
    /// ticks taken.
    pub fn simulate(&mut self, fuel: u32, max_ticks: u64) -> (r: Option<SimRes>)
        requires
            sim_wf(*old(self)),
            old(self).depth as int + fuel as int <= 0xffff_ffff,
        ensures
            sim_wf(*final(self)),
            final(self).goal == old(self).goal,
            final(self).theory == old(self).theory,
            final(self).data == old(self).data,
            final(self).multiplier == old(self).multiplier,
            final(self).do_coasting == old(self).do_coasting,
            final(self).depth == old(self).depth,
            final(self).t >= old(self).t,
            final(self).maxrho >= old(self).maxrho,
            final(self).vars@.len() == old(self).vars@.len(),
            forall|i: int|
                0 <= i < old(self).vars@.len() ==> {
                    &&& (#[trigger] final(self).vars@[i]).level >= old(self).vars@[i].level
                    &&& final(self).vars@[i].costmodel == old(self).vars@[i].costmodel
                    &&& final(self).vars@[i].valuemodel == old(self).vars@[i].valuemodel
                },
            old(self).varbuys@.is_prefix_of(final(self).varbuys@),
            final(self).best_res.t <= old(self).best_res.t,
            freeze_kept(*old(self), *final(self), old(self).vars@.len() as int),
            r is Some ==> final(self).maxrho >= final(self).goal,
            r is Some ==> 0 <= r.unwrap().t,
            r is Some ==> r.unwrap().t <= final(self).t,
            r is Some ==> r.unwrap().t <= final(self).best_res.t,
            r is Some ==> (if final(self).t < final(self).best_res.t {
                &&& r.unwrap().t == final(self).t
                &&& r.unwrap().var_buys is Some
                &&& r.unwrap().var_buys.unwrap()@ == final(self).varbuys@
            } else {
                r.unwrap().t == final(self).best_res.t
            }),
            r is None ==> final(self).maxrho < final(self).goal,
            r is None ==> final(self).t > T_LIMIT || final(self).t - old(self).t >= (
            max_ticks as int) * 1_000_000,
            old(self).maxrho >= old(self).goal ==> r is Some,
        decreases 2 * fuel + 1,
    {
        let ghost orig = *self;
        let mut ticks: u64 = 0;
        while self.maxrho < self.goal
            invariant
                orig == *old(self),
                sim_wf(*self),
                self.goal == orig.goal,
                self.theory == orig.theory,
                self.data == orig.data,
                self.multiplier == orig.multiplier,
                self.do_coasting == orig.do_coasting,
                self.depth == orig.depth,
                self.t >= orig.t,
                self.maxrho >= orig.maxrho,
                self.vars@.len() == orig.vars@.len(),
                forall|i: int|
                    0 <= i < orig.vars@.len() ==> {
                        &&& (#[trigger] self.vars@[i]).level >= orig.vars@[i].level
                        &&& self.vars@[i].costmodel == orig.vars@[i].costmodel
                        &&& self.vars@[i].valuemodel == orig.vars@[i].valuemodel
                    },
                orig.varbuys@.is_prefix_of(self.varbuys@),
                self.best_res.t <= orig.best_res.t,
                freeze_kept(orig, *self, orig.vars@.len() as int),
                self.caps@.len() == orig.caps@.len(),
                self.depth as int + fuel as int <= 0xffff_ffff,
                ticks <= max_ticks,
                self.t - orig.t >= (ticks as int) * 1_000_000,
            decreases max_ticks - ticks,
        {
            if ticks >= max_ticks || self.t > T_LIMIT {
                return Option::None;
            }
            let ghost pre = *self;
            self.tick();
            self.buy(fuel, max_ticks);
            proof {
                assert(self.t - pre.t >= 1_000_000) by {
                    vstd::arithmetic::div_mod::lemma_div_is_ordered(
                        2 * (DT_START as int),
                        2 * (pre.dt as int),
                        3,
                    );
                }
                assert((ticks + 1) as int * 1_000_000 == (ticks as int) * 1_000_000 + 1_000_000)
                    by (nonlinear_arith);
                lemma_prefix_trans(orig.varbuys@, pre.varbuys@, self.varbuys@);
                assert forall|k: int| 0 <= k < orig.vars@.len() && frozen(orig, k) implies (
                #[trigger] self.vars@[k]) == orig.vars@[k] && self.caps@[k]
                    == orig.caps@[k] by {
                    assert(pre.vars@[k] == orig.vars@[k]);
                    assert(pre.caps@[k] == orig.caps@[k]);
                    assert(frozen(pre, k));
                }
                assert(freeze_kept(orig, *self, orig.vars@.len() as int));
            }
            ticks = ticks + 1;
        }
        if self.t < self.best_res.t {
            let log: Vec<VarBuy> = copy_varbuys(&self.varbuys);
            Option::Some(SimRes { t: self.t, var_buys: Option::Some(log) })
        } else {
            let r = self.best_res.duplicate();
            Option::Some(r)
        }
    }
}

} // verus!

verus! {

/// Splits a simulated time (micro-units of seconds) into whole days, hours
/// of the day and minutes of the hour, as the display layer shows them.
pub fn time_parts(t: i64) -> (r: (i64, i64, i64))
    requires
        0 <= t,
    ensures
        r.0 == (t as int) / (SCALE as int) / 60 / 60 / 24,
        r.1 == (t as int) / (SCALE as int) / 60 / 60 % 24,
        r.2 == (t as int) / (SCALE as int) / 60 % 60,
        0 <= r.0,
        0 <= r.1 < 24,
        0 <= r.2 < 60,
{
    let secs: i64 = t / SCALE;
    let mins_total: i64 = secs / 60;
    let hours_total: i64 = mins_total / 60;
    let days: i64 = hours_total / 24;
    proof {
        vstd::arithmetic::div_mod::lemma_div_pos_is_pos(t as int, SCALE as int);
        vstd::arithmetic::div_mod::lemma_div_pos_is_pos(secs as int, 60);
        vstd::arithmetic::div_mod::lemma_div_pos_is_pos(mins_total as int, 60);
        vstd::arithmetic::div_mod::lemma_div_pos_is_pos(hours_total as int, 24);
        vstd::arithmetic::div_mod::lemma_fundamental_div_mod(hours_total as int, 24);
        vstd::arithmetic::div_mod::lemma_mod_bound(hours_total as int, 24);
        vstd::arithmetic::div_mod::lemma_fundamental_div_mod(mins_total as int, 60);
        vstd::arithmetic::div_mod::lemma_mod_bound(mins_total as int, 60);
        vstd::arithmetic::div_mod::lemma_div_nonincreasing(t as int, SCALE as int);
        vstd::arithmetic::div_mod::lemma_div_nonincreasing(secs as int, 60);
        vstd::arithmetic::div_mod::lemma_div_nonincreasing(mins_total as int, 60);
    }
    (days, hours_total - 24 * days, mins_total - 60 * hours_total)
}

} // verus!
