//! Per-variant run configuration and seed-state carriers.
//!
//! Each theory variant of the growth model owns a fixed number of upgrades;
//! its cap table (used to freeze upgrades in a forked branch) and its
//! coasting switch travel in a small plain struct, and a seed state carries
//! explicit starting levels.  The helpers turn the fixed-size tables into
//! the vectors the engine works on.

use vstd::prelude::*;

verus! {

/// Turns a cap table into the engine's cap vector.
fn caps_to_vec(caps: &[u32], n: usize) -> (r: Vec<u32>)
    requires
        caps@.len() == n,
    ensures
        r@ == caps@,
{
    let mut r: Vec<u32> = Vec::new();
    let mut i: usize = 0;
    while i < n
        invariant
            i <= n,
            caps@.len() == n,
            r@ == caps@.subrange(0, i as int),
        decreases n - i,
    {
        let x: u32 = caps[i];
        r.push(x);
        proof {
            assert(r@ =~= caps@.subrange(0, i + 1));
        }
        i = i + 1;
    }
    proof {
        assert(r@ =~= caps@);
    }
    r
}

/// Run configuration of the five-upgrade variant.
#[derive(Clone, Copy)]
pub struct CSR2data {
    pub caps: [u32; 5],
    pub do_coasting: bool,
}

impl CSR2data {
    /// Cap table as an engine cap vector.
    pub fn caps_vec(&self) -> (r: Vec<u32>)
        ensures
            r@ == self.caps@,
    {
        caps_to_vec(self.caps.as_slice(), 5)
    }
}

/// Run configuration of the six-upgrade differential variant.
#[derive(Clone, Copy)]
pub struct DEdata {
    pub do_coasting: bool,
}

/// Run configuration of the ten-upgrade field variant.
#[derive(Clone, Copy)]
pub struct EFdata {
    pub caps: [u32; 10],
    pub do_coasting: bool,
}

impl EFdata {
    /// Cap table as an engine cap vector.
    pub fn caps_vec(&self) -> (r: Vec<u32>)
        ensures
            r@ == self.caps@,
    {
        caps_to_vec(self.caps.as_slice(), 10)
    }
}

/// Run configuration of the seven-upgrade progression variant.
#[derive(Clone, Copy)]
pub struct FPdata {
    pub caps: [u32; 7],
    pub do_coasting: bool,
}

impl FPdata {
    /// Cap table as an engine cap vector.
    pub fn caps_vec(&self) -> (r: Vec<u32>)
        ensures
            r@ == self.caps@,
    {
        caps_to_vec(self.caps.as_slice(), 7)
    }
}

/// Run configuration of the four-upgrade recurrence variant.
#[derive(Clone, Copy)]
pub struct T1data {
    pub do_coasting: bool,
}

/// Seed state of the four-upgrade recurrence variant: explicit starting
/// levels.
pub struct T1state {
    pub levels: [u32; 4],
}

impl T1state {
    /// Starting levels as an engine seed vector.
    pub fn levels_vec(&self) -> (r: Vec<u32>)
        ensures
            r@ == self.levels@,
    {
        caps_to_vec(self.levels.as_slice(), 4)
    }
}

/// Run configuration of the five-upgrade dual-currency variant.
#[derive(Clone, Copy)]
pub struct T7data {
    pub do_coasting: bool,
}

} // verus!
