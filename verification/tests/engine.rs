//! Exercises the simulation engine: the purchase scenario with a single
//! upgrade, monotonicity of time and peak, forking against the plain run,
//! the coast and ratio decisions, and budget exhaustion.

use theorysim::engine::{
    time_parts, BuyEval, CoastRule, RatioRule, Sim, SimRes, Theory, TheoryData, DT_START,
    GOAL_BOUND,
};
use theorysim::logdomain::{log10sub, SCALE};
use theorysim::models::{CostModel, ExponentialCost, ValueModel};
use theorysim::upgrade::Variable;

const LOG2: i64 = 301_030;

fn single_upgrade_theory(lbound: i64, ubound: i64, offset: i64) -> Theory {
    Theory {
        symbols: vec![String::from("c1")],
        order: vec![0],
        coast: vec![CoastRule { lbound, ubound }],
        ratio: vec![RatioRule { margin: 0, competitors: Vec::new() }],
        contributes: vec![false],
        available: vec![true],
        coast_far: 3 * SCALE,
        record_threshold: -GOAL_BOUND,
        mult_num: 0,
        mult_den: 1,
        mult_offset: offset,
    }
}

fn single_upgrade_vars() -> Vec<Variable> {
    // cost(level) = 10 * 2^level in the value domain.
    vec![Variable::new(
        CostModel::Exponential(ExponentialCost::new(SCALE, LOG2)),
        ValueModel::Empty,
    )]
}

fn data() -> TheoryData {
    TheoryData { tau: 0, students: 0, rho: 0 }
}

#[test]
fn purchases_climb_levels_in_order() {
    // A single upgrade whose value contributes nothing, a tick formula that
    // adds a fixed increment each tick: purchases happen as the accumulator
    // crosses each cost, producing a log with strictly increasing levels and
    // non-decreasing timestamps.
    let mut sim = Sim::new(data(), 10 * SCALE, single_upgrade_theory(0, SCALE, 2 * SCALE),
        single_upgrade_vars(), None);
    sim.do_coasting = false;
    let res = sim.simulate(0, 1_000_000).expect("the goal is reachable");
    assert!(sim.maxrho >= sim.goal);
    assert!(res.t > 0);
    let log = res.var_buys.as_ref().expect("the winning branch keeps its log");
    assert!(log.len() >= 3);
    for k in 0..log.len() {
        assert_eq!(log[k].symb, "c1");
        assert_eq!(log[k].lvl as usize, k + 2);
        if k + 1 < log.len() {
            assert!(log[k].t <= log[k + 1].t);
        }
    }
}

#[test]
fn time_and_peak_are_monotone_over_ticks() {
    let mut sim = Sim::new(data(), 1_000 * SCALE, single_upgrade_theory(0, SCALE, SCALE),
        single_upgrade_vars(), None);
    let mut last_t = sim.t;
    let mut last_max = sim.maxrho;
    let mut last_dt = sim.dt;
    assert_eq!(sim.t, 0);
    assert_eq!(sim.dt, DT_START);
    for _ in 0..50 {
        sim.tick();
        assert!(sim.t > last_t);
        assert!(sim.maxrho >= last_max);
        assert!(sim.dt >= last_dt);
        assert!(sim.maxrho >= sim.rho);
        last_t = sim.t;
        last_max = sim.maxrho;
        last_dt = sim.dt;
    }
}

#[test]
fn fork_copies_state_and_deepens() {
    let mut sim = Sim::new(data(), 10 * SCALE, single_upgrade_theory(0, SCALE, 2 * SCALE),
        single_upgrade_vars(), None);
    sim.tick();
    sim.buy(0, 10);
    let f = sim.fork();
    assert_eq!(f.rho, sim.rho);
    assert_eq!(f.maxrho, sim.maxrho);
    assert_eq!(f.t, sim.t);
    assert_eq!(f.dt, sim.dt);
    assert_eq!(f.goal, sim.goal);
    assert_eq!(f.depth, sim.depth + 1);
    assert_eq!(f.vars[0].level, sim.vars[0].level);
    assert_eq!(f.caps.len(), sim.caps.len());
    assert!(f.best_res.var_buys.is_none());
}

#[test]
fn forking_search_never_loses_to_plain_run() {
    // With a coast band that can fork but never skip, the searching run's
    // own trajectory is the always-buy trajectory, so its best result is at
    // least as fast as the non-forking run's.
    let goal = 10 * SCALE;
    let mut plain = Sim::new(data(), goal, single_upgrade_theory(-20 * SCALE, SCALE, 2 * SCALE),
        single_upgrade_vars(), None);
    plain.do_coasting = false;
    let plain_res = plain.simulate(0, 1_000_000).expect("plain run finishes");
    let mut search = Sim::new(data(), goal, single_upgrade_theory(-20 * SCALE, SCALE, 2 * SCALE),
        single_upgrade_vars(), None);
    let search_res = search.simulate(8, 1_000_000).expect("searching run finishes");
    assert!(search_res.t <= plain_res.t);
    assert!(search_res.t <= search.t);
    assert!(search_res.t <= search.best_res.t);
}

#[test]
fn coast_decision_bands() {
    let sim = Sim::new(data(), 10 * SCALE, single_upgrade_theory(SCALE, 2 * SCALE, 0),
        single_upgrade_vars(), None);
    // Far from the goal: always buy.
    assert!(sim.eval_coast(0, 2 * SCALE) == BuyEval::BUY);
    // Inside the ambiguous band: fork.
    assert!(sim.eval_coast(0, 8 * SCALE + 500_000) == BuyEval::FORK);
    // Close to the goal: coast.
    assert!(sim.eval_coast(0, 9 * SCALE + 500_000) == BuyEval::SKIP);
    assert!(sim.eval_coast_one(3 * SCALE, SCALE, 2 * SCALE) == BuyEval::BUY);
    assert!(sim.eval_coast_one(2 * SCALE, SCALE, 2 * SCALE) == BuyEval::FORK);
    assert!(sim.eval_coast_one(SCALE, SCALE, 2 * SCALE) == BuyEval::SKIP);
}

#[test]
fn coast_skip_caps_the_upgrade() {
    // A band whose skip region covers the whole run, with the buy-outright
    // distance out of reach, freezes the upgrade at its current level and
    // the run coasts to the goal without purchases.
    let mut theory = single_upgrade_theory(20 * SCALE, 30 * SCALE, 2 * SCALE);
    theory.coast_far = GOAL_BOUND;
    let mut sim = Sim::new(data(), 10 * SCALE, theory, single_upgrade_vars(), None);
    let res = sim.simulate(0, 1_000_000).expect("the goal is reachable by growth alone");
    assert_eq!(sim.vars[0].level, 1);
    assert_eq!(sim.caps[0], 1);
    let log = res.var_buys.expect("own branch wins");
    assert_eq!(log.len(), 0);
}

#[test]
fn ratio_decision_compares_competitors() {
    let theory = Theory {
        symbols: vec![String::from("a"), String::from("b")],
        order: vec![0, 1],
        coast: vec![CoastRule { lbound: 0, ubound: SCALE }; 2],
        ratio: vec![
            RatioRule { margin: 100_000, competitors: vec![1] },
            RatioRule { margin: 0, competitors: Vec::new() },
        ],
        contributes: vec![false, false],
        available: vec![true, true],
        coast_far: 3 * SCALE,
        record_threshold: -GOAL_BOUND,
        mult_num: 0,
        mult_den: 1,
        mult_offset: SCALE,
    };
    let vars = vec![
        Variable::new(CostModel::Exponential(ExponentialCost::new(SCALE, LOG2)), ValueModel::Empty),
        Variable::new(CostModel::Exponential(ExponentialCost::new(SCALE, LOG2)), ValueModel::Empty),
    ];
    let sim = Sim::new(data(), 10 * SCALE, theory, vars, None);
    // Upgrade zero costs the same as its competitor, so its cost plus the
    // positive margin does not undercut it.
    assert!(sim.eval_ratio(0) == BuyEval::SKIP);
    // No competitors: always buy.
    assert!(sim.eval_ratio(1) == BuyEval::BUY);
}

#[test]
fn budget_exhaustion_returns_nothing() {
    let mut sim = Sim::new(data(), 1_000 * SCALE, single_upgrade_theory(0, SCALE, SCALE),
        single_upgrade_vars(), None);
    let res = sim.simulate(0, 3);
    assert!(res.is_none());
    assert!(sim.maxrho < sim.goal);
}

#[test]
fn seeded_levels_take_effect() {
    let sim = Sim::new(data(), 10 * SCALE, single_upgrade_theory(0, SCALE, 2 * SCALE),
        single_upgrade_vars(), Some(vec![5]));
    assert_eq!(sim.vars[0].level, 5);
    assert_eq!(sim.vars[0].cost, SCALE + 5 * LOG2);
}

#[test]
fn result_is_min_of_branch_and_forks() {
    let mut sim = Sim::new(data(), 10 * SCALE, single_upgrade_theory(-20 * SCALE, SCALE, 2 * SCALE),
        single_upgrade_vars(), None);
    let res: SimRes = sim.simulate(4, 1_000_000).expect("run finishes");
    assert!(res.t <= sim.t);
    assert!(res.t <= sim.best_res.t);
    assert!(res.t == sim.t || res.t == sim.best_res.t);
}

#[test]
fn capped_upgrade_stays_frozen() {
    // Seeding the level at the cap freezes the upgrade for the whole run:
    // the engine may never buy past a fork-local cap.
    let mut sim = Sim::new(data(), 10 * SCALE, single_upgrade_theory(0, SCALE, 2 * SCALE),
        single_upgrade_vars(), Some(vec![4]));
    sim.caps[0] = 4;
    let res = sim.simulate(4, 1_000_000).expect("growth alone reaches the goal");
    assert_eq!(sim.vars[0].level, 4);
    assert_eq!(sim.caps[0], 4);
    assert!(res.var_buys.expect("own branch wins").is_empty());
}

#[test]
fn coasting_disabled_always_buys() {
    // With coasting off the coast decision is unconditionally BUY, even in
    // a band that would otherwise coast: this is the plain, non-forking
    // strategy the search is measured against.
    let mut sim = Sim::new(data(), 10 * SCALE, single_upgrade_theory(20 * SCALE, 30 * SCALE, 0),
        single_upgrade_vars(), None);
    sim.do_coasting = false;
    assert!(sim.eval_coast(0, 9 * SCALE) == BuyEval::BUY);
    assert!(sim.eval_coast(0, SCALE) == BuyEval::BUY);
}

#[test]
fn priority_order_decides_first_purchase() {
    // Two equally priced upgrades: the one first in the priority order is
    // offered, and therefore bought, first.
    let theory = Theory {
        symbols: vec![String::from("a"), String::from("b")],
        order: vec![1, 0],
        coast: vec![CoastRule { lbound: 0, ubound: SCALE }; 2],
        ratio: vec![
            RatioRule { margin: 0, competitors: Vec::new() },
            RatioRule { margin: 0, competitors: Vec::new() },
        ],
        contributes: vec![false, false],
        available: vec![true, true],
        coast_far: 3 * SCALE,
        record_threshold: -GOAL_BOUND,
        mult_num: 0,
        mult_den: 1,
        mult_offset: 2 * SCALE,
    };
    let vars = vec![
        Variable::new(CostModel::Exponential(ExponentialCost::new(SCALE, LOG2)), ValueModel::Empty),
        Variable::new(CostModel::Exponential(ExponentialCost::new(SCALE, LOG2)), ValueModel::Empty),
    ];
    let mut sim = Sim::new(data(), 6 * SCALE, theory, vars, None);
    sim.do_coasting = false;
    let res = sim.simulate(0, 1_000_000).expect("the goal is reachable");
    let log = res.var_buys.expect("own branch wins");
    assert!(log.len() >= 2);
    assert_eq!(log[0].symb, "b");
}

#[test]
fn time_decomposition() {
    // 2 days, 3 hours, 4 minutes, in micro-units of seconds.
    let t: i64 = ((2 * 24 * 60 * 60) + (3 * 60 * 60) + (4 * 60) + 30) * 1_000_000;
    assert_eq!(time_parts(t), (2, 3, 4));
    assert_eq!(time_parts(0), (0, 0, 0));
    assert_eq!(time_parts(59 * 1_000_000), (0, 0, 0));
    assert_eq!(time_parts(60 * 1_000_000), (0, 0, 1));
    assert_eq!(time_parts(24 * 60 * 60 * 1_000_000), (1, 0, 0));
}

#[test]
fn buying_pays_the_cached_cost() {
    // Seed enough currency for exactly two purchases: each one subtracts the
    // upgrade's cached cost at the moment of purchase, and nothing else
    // touches the accumulator during the pass.
    let mut sim = Sim::new(
        TheoryData { tau: 0, students: 0, rho: 2 * SCALE },
        10 * SCALE,
        single_upgrade_theory(0, SCALE, 2 * SCALE),
        single_upgrade_vars(),
        None,
    );
    sim.do_coasting = false;
    let rho0 = sim.rho;
    let cost1 = sim.vars[0].cost;
    sim.buy(0, 0);
    let after_first = log10sub(rho0, cost1);
    let cost2 = SCALE + 2 * LOG2;
    let expected = log10sub(after_first, cost2);
    assert_eq!(sim.vars[0].level, 3);
    assert_eq!(sim.rho, expected);
    // Both purchases were logged with the symbol, the resulting level, and
    // the (unchanged) simulated time.
    assert_eq!(sim.varbuys.len(), 2);
    assert_eq!(sim.varbuys[0].symb, "c1");
    assert_eq!(sim.varbuys[0].lvl, 2);
    assert_eq!(sim.varbuys[1].lvl, 3);
    assert_eq!(sim.varbuys[0].t, 0);
}
