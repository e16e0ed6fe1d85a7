//! The upgrade entity: a cost model, a value model, and a current level, with
//! the level's price and contribution cached.
//!
//! The caches are recomputed on every level change, and changing the level —
//! by [`Variable::buy`] or [`Variable::set`] — is the only mutation path.

use vstd::prelude::*;
use crate::models::{
    cost_wf, spec_cost, spec_min_level, spec_value, value_wf, CostModel, ValueModel, LEVEL_LIMIT,
    MODEL_OUT,
};

verus! {

/// A purchasable upgrade.
pub struct Variable {
    pub costmodel: CostModel,
    pub valuemodel: ValueModel,
    pub level: u32,
    pub value: i64,
    pub cost: i64,
}

/// Well-formedness: sane models, a level inside the models' domain, and
/// caches that agree with the models at the current level.
pub open spec fn var_wf(v: Variable) -> bool {
    &&& cost_wf(v.costmodel)
    &&& value_wf(v.valuemodel)
    &&& spec_min_level(v.costmodel) <= v.level <= LEVEL_LIMIT
    &&& v.cost == spec_cost(v.costmodel, v.level as int)
    &&& v.value == spec_value(v.valuemodel, v.level as int)
    &&& -MODEL_OUT <= v.cost <= MODEL_OUT
    &&& -MODEL_OUT <= v.value <= MODEL_OUT
}

/// A well-formed upgrade's state is a function of its models and its level
/// alone: the caches carry no history.  Together with the contracts of
/// [`Variable::buy`] and [`Variable::set`] this says that seeding a level `n`
/// and buying once lands on exactly the state seeded at `n + 1`.
pub proof fn lemma_var_state_determined(v1: Variable, v2: Variable)
    requires
        var_wf(v1),
        var_wf(v2),
        v1.costmodel == v2.costmodel,
        v1.valuemodel == v2.valuemodel,
        v1.level == v2.level,
    ensures
        v1 == v2,
{
}

impl Variable {
    /// Builds an upgrade at level one (every run starts with one level owned)
    /// with freshly computed caches.
    pub fn new(costmodel: CostModel, valuemodel: ValueModel) -> (r: Variable)
        requires
            cost_wf(costmodel),
            value_wf(valuemodel),
            spec_min_level(costmodel) <= 1,
        ensures
            var_wf(r),
            r.level == 1,
            r.costmodel == costmodel,
            r.valuemodel == valuemodel,
    {
        let mut var = Variable { costmodel, valuemodel, level: 1, value: 0, cost: 0 };
        var.recompute();
        var
    }

    /// Refreshes both caches from the models at the current level.
    fn recompute(&mut self)
        requires
            cost_wf(old(self).costmodel),
            value_wf(old(self).valuemodel),
            spec_min_level(old(self).costmodel) <= old(self).level <= LEVEL_LIMIT,
        ensures
            var_wf(*final(self)),
            final(self).costmodel == old(self).costmodel,
            final(self).valuemodel == old(self).valuemodel,
            final(self).level == old(self).level,
    {
        self.value = self.valuemodel.recompute(self.level);
        self.cost = self.costmodel.get_cost(self.level);
    }

    /// Raises the level by one and refreshes the caches.  Affordability is
    /// the caller's business.
    pub fn buy(&mut self)
        requires
            var_wf(*old(self)),
            old(self).level < LEVEL_LIMIT,
        ensures
            var_wf(*final(self)),
            final(self).level == old(self).level + 1,
            final(self).costmodel == old(self).costmodel,
            final(self).valuemodel == old(self).valuemodel,
    {
        proof {
            crate::models::lemma_min_level_nonneg(self.costmodel);
        }
        self.level = self.level + 1;
        self.recompute();
    }

    /// Overwrites the level (seeding from a saved state, or mirroring a
    /// parent's level into a fork) and refreshes the caches.
    pub fn set(&mut self, level: u32)
        requires
            var_wf(*old(self)),
            spec_min_level(old(self).costmodel) <= level <= LEVEL_LIMIT,
        ensures
            var_wf(*final(self)),
            final(self).level == level,
            final(self).costmodel == old(self).costmodel,
            final(self).valuemodel == old(self).valuemodel,
    {
        self.level = level;
        self.recompute();
    }

    pub fn get_level(&self) -> (r: u32)
        ensures
            r == self.level,
    {
        self.level
    }

    pub fn get_value(&self) -> (r: i64)
        ensures
            r == self.value,
    {
        self.value
    }

    pub fn get_cost(&self) -> (r: i64)
        ensures
            r == self.cost,
    {
        self.cost
    }

    /// Structural deep copy, used when a fork re-derives its upgrades from
    /// the parent's.
    pub fn duplicate(&self) -> (r: Variable)
        ensures
            r == *self,
    {
        Variable {
            costmodel: self.costmodel.duplicate(),
            valuemodel: self.valuemodel.duplicate(),
            level: self.level,
            value: self.value,
            cost: self.cost,
        }
    }
}

} // verus!
