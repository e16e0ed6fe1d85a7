//! Exercises the cost and value models and the upgrade entity: exact prices,
//! the first-level-free shift, composite dispatch, the stepwise closed form,
//! and the cache discipline of buy and set.

use theorysim::logdomain::SCALE;
use theorysim::models::{
    CompositeCost, CostModel, ExponentialCost, ExponentialValue, FirstFreeCost, LinearValue,
    StepwiseValue, ValueModel,
};
use theorysim::upgrade::Variable;

// log10 of 2, in kernel units, as a caller-supplied model parameter.
const LOG2: i64 = 301_030;

fn exp_cost(base: i64, exp: i64) -> CostModel {
    CostModel::Exponential(ExponentialCost::new(base, exp))
}

#[test]
fn exponential_cost_is_affine_in_level() {
    // cost(level) = 10 * 2^level, in log10: 1 + level * log10(2).
    let m = exp_cost(SCALE, LOG2);
    assert_eq!(m.get_cost(0), SCALE);
    assert_eq!(m.get_cost(1), SCALE + LOG2);
    assert_eq!(m.get_cost(3), SCALE + 3 * LOG2);
}

#[test]
fn first_free_shifts_by_one_level() {
    // A first-level-free wrapper prices level one like the wrapped model's
    // level zero.
    let wrapped = exp_cost(5 * SCALE, 2 * SCALE);
    let free = CostModel::FirstFree(FirstFreeCost { model: Box::new(wrapped) });
    let again = exp_cost(5 * SCALE, 2 * SCALE);
    assert_eq!(free.get_cost(1), again.get_cost(0));
    assert_eq!(free.get_cost(4), again.get_cost(3));
}

#[test]
fn composite_dispatches_at_cutoff() {
    let m = CostModel::Composite(CompositeCost {
        model1: Box::new(exp_cost(SCALE, SCALE)),
        model2: Box::new(exp_cost(7 * SCALE, 2 * SCALE)),
        cutoff: 3,
    });
    assert_eq!(m.get_cost(2), SCALE + 2 * SCALE);
    assert_eq!(m.get_cost(3), 7 * SCALE + 3 * 2 * SCALE);
    assert_eq!(m.get_cost(4), 7 * SCALE + 4 * 2 * SCALE);
}

#[test]
fn exponential_and_linear_values() {
    let e = ValueModel::Exponential(ExponentialValue::new(LOG2));
    assert_eq!(e.recompute(0), 0);
    assert_eq!(e.recompute(5), 5 * LOG2);
    let l = ValueModel::Linear(LinearValue::new(150_000, -2 * SCALE));
    assert_eq!(l.recompute(0), -2 * SCALE);
    assert_eq!(l.recompute(10), 1_500_000 - 2 * SCALE);
    let n = ValueModel::Empty;
    assert_eq!(n.recompute(42), 0);
}

#[test]
fn stepwise_value_closed_form() {
    // exp = 2, len = 5, level = 7: one completed block, two levels into the
    // next; discount base d = len / (exp - 1) = 5.  True value is
    // log10((d + 2) * 2 - d) = log10 9.
    let sv = ValueModel::Stepwise(StepwiseValue::new(2, 5));
    let r = sv.recompute(7);
    assert_eq!(r, 953_869);
    assert!((r as f64 / SCALE as f64 - 9f64.log10()).abs() < 0.001);
    // Level zero contributes nothing.
    assert_eq!(sv.recompute(0), 0);
}

#[test]
fn variable_caches_follow_level() {
    let v = Variable::new(
        exp_cost(SCALE, LOG2),
        ValueModel::Exponential(ExponentialValue::new(LOG2)),
    );
    assert_eq!(v.get_level(), 1);
    assert_eq!(v.get_cost(), SCALE + LOG2);
    assert_eq!(v.get_value(), LOG2);
}

#[test]
fn buy_recomputes_both_caches() {
    let mut v = Variable::new(
        exp_cost(SCALE, LOG2),
        ValueModel::Exponential(ExponentialValue::new(LOG2)),
    );
    v.buy();
    assert_eq!(v.get_level(), 2);
    assert_eq!(v.get_cost(), SCALE + 2 * LOG2);
    assert_eq!(v.get_value(), 2 * LOG2);
}

#[test]
fn set_then_buy_matches_set_of_next_level() {
    // Seeding level n and buying once lands on exactly the caches of a
    // direct seed at n + 1, whatever the models.
    for n in [1u32, 2, 7, 100] {
        let mut a = Variable::new(
            CostModel::FirstFree(FirstFreeCost { model: Box::new(exp_cost(SCALE, LOG2)) }),
            ValueModel::Stepwise(StepwiseValue::new(2, 5)),
        );
        let mut b = Variable::new(
            CostModel::FirstFree(FirstFreeCost { model: Box::new(exp_cost(SCALE, LOG2)) }),
            ValueModel::Stepwise(StepwiseValue::new(2, 5)),
        );
        a.set(n);
        a.buy();
        b.set(n + 1);
        assert_eq!(a.get_level(), b.get_level());
        assert_eq!(a.get_cost(), b.get_cost());
        assert_eq!(a.get_value(), b.get_value());
    }
}

#[test]
fn duplicate_is_deep_and_equal() {
    let v = Variable::new(
        exp_cost(SCALE, LOG2),
        ValueModel::Linear(LinearValue::new(1_000, 5_000)),
    );
    let mut w = v.duplicate();
    assert_eq!(w.get_level(), v.get_level());
    assert_eq!(w.get_cost(), v.get_cost());
    assert_eq!(w.get_value(), v.get_value());
    w.buy();
    // The original is untouched by mutating the copy.
    assert_eq!(v.get_level(), 1);
    assert_eq!(w.get_level(), 2);
}
