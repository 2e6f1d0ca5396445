//! A cache, its geometry and its counters under one owner.

use crate::cache::{
    initial_state, make_cache, simulate, state_of, step, Cache, CacheParameters, CacheStatistics,
    SimState,
};
use crate::replay::{
    bounded, lemma_initial_state_neat, lemma_step_keeps_bounded, lemma_step_keeps_neat, neat,
};
use vstd::prelude::*;

verus! {

/// The largest number of accesses that an engine counts; one that has
/// counted so many takes no more.
pub const MAX_ACCESSES: u64 = 0x7FFF_FFFF_FFFF_FFFF;

/// Owns a cache together with its geometry and its counters, and keeps them
/// consistent from one access to the next.
#[derive(Debug)]
pub struct SimulationEngine {
    pub params: CacheParameters,
    pub cache: Cache,
    pub stats: CacheStatistics,
}

impl SimulationEngine {
    /// The cache and the counters as one mathematical state.
    pub open spec fn state(&self) -> SimState {
        state_of(self.cache, self.stats)
    }

    /// The cache has the shape of its geometry, no set holds a block twice,
    /// evictions do not outnumber misses, and no recency stamp exceeds the
    /// number of accesses counted.
    pub open spec fn wf(&self) -> bool {
        &&& self.params.wf()
        &&& neat(self.state(), self.params)
        &&& bounded(self.state())
    }

    /// An engine with an empty cache of the given geometry and all counters
    /// at zero.
    pub fn new(params: CacheParameters) -> (engine: SimulationEngine)
        requires
            params.wf(),
        ensures
            engine.wf(),
            engine.params == params,
            engine.state() == initial_state(params),
    {
        let cache = make_cache(params.number_of_sets, params.associativity);
        let stats = CacheStatistics::new();
        proof {
            lemma_initial_state_neat(params);
        }
        SimulationEngine { params, cache, stats }
    }

    /// Simulates one access to `address` and returns `true`, unless the
    /// engine has already counted [`MAX_ACCESSES`] accesses: then nothing
    /// changes and the result is `false`.
    pub fn simulate(&mut self, address: u64) -> (done: bool)
        requires
            old(self).wf(),
        ensures
            final(self).wf(),
            final(self).params == old(self).params,
            done == (old(self).stats.hits + old(self).stats.misses < MAX_ACCESSES),
            done ==> final(self).state() == step(old(self).state(), old(self).params, address),
            done ==> final(self).stats.hits + final(self).stats.misses == old(self).stats.hits
                + old(self).stats.misses + 1,
            !done ==> final(self).state() == old(self).state() && final(self).stats == old(
                self,
            ).stats,
    {
        if self.stats.hits >= MAX_ACCESSES || self.stats.misses >= MAX_ACCESSES - self.stats.hits {
            return false;
        }
        proof {
            lemma_step_keeps_neat(self.state(), self.params, address);
            lemma_step_keeps_bounded(self.state(), self.params, address);
        }
        simulate(&mut self.cache, &self.params, &mut self.stats, address);
        true
    }

    /// The counters as they stand.
    pub fn statistics(&self) -> (stats: CacheStatistics)
        ensures
            stats == self.stats,
    {
        self.stats
    }
}

} // verus!
