//! The cache as a whole: its geometry, its counters, and one simulated access.

use crate::address::{decode, lemma_one_shl_is_pow2, set_index_of, tag_of};
use crate::set::{
    access_fits, all_valid, empty_line, lines_after, outcome_of, AccessOutcome, CacheLine,
    CacheSet,
};
use vstd::arithmetic::power2::pow2;
use vstd::prelude::*;

verus! {

/// The geometry of a cache. It does not change once a cache is built.
#[derive(Clone, Copy, Debug, PartialEq, Eq)]
pub struct CacheParameters {
    /// Number of address bits that select the set.
    pub set_index_bits: u32,
    /// Number of address bits that select a byte within a block.
    pub block_bits: u32,
    /// Lines per set.
    pub associativity: usize,
    /// `2^set_index_bits`.
    pub number_of_sets: usize,
    /// `2^block_bits`.
    pub block_size: u64,
}

/// Why a geometry was turned down.
#[derive(Clone, Copy, Debug, PartialEq, Eq)]
pub enum ConfigurationError {
    /// Set-index and block bits together leave no room for a tag.
    NoTagBits,
    /// A set must have at least one line.
    NoLines,
    /// The number of sets cannot be indexed on this machine.
    TooManySets,
}

/// Hit, miss and eviction counts of a run.
#[derive(Clone, Copy, Debug, PartialEq, Eq)]
pub struct CacheStatistics {
    pub hits: u64,
    pub misses: u64,
    pub evictions: u64,
}

/// All sets of a cache, indexed by the set-index field of an address.
#[derive(Debug, PartialEq, Eq)]
pub struct Cache {
    pub sets: Vec<CacheSet>,
}

impl View for Cache {
    type V = Seq<Seq<CacheLine>>;

    open spec fn view(&self) -> Seq<Seq<CacheLine>> {
        self.sets@.map_values(|set: CacheSet| set@)
    }
}

/// The first reason, if any, for which a geometry is turned down.
pub open spec fn configuration_fault(
    set_index_bits: u32,
    block_bits: u32,
    associativity: usize,
) -> Option<ConfigurationError> {
    if set_index_bits + block_bits >= 64 {
        Some(ConfigurationError::NoTagBits)
    } else if associativity == 0 {
        Some(ConfigurationError::NoLines)
    } else if pow2(set_index_bits as nat) > usize::MAX {
        Some(ConfigurationError::TooManySets)
    } else {
        None
    }
}

impl CacheParameters {
    /// The geometry is consistent: there is room for a tag, every set has a
    /// line, and the derived sizes are the powers of two they stand for.
    pub open spec fn wf(self) -> bool {
        &&& self.set_index_bits + self.block_bits < 64
        &&& self.associativity >= 1
        &&& self.number_of_sets == pow2(self.set_index_bits as nat)
        &&& self.block_size == pow2(self.block_bits as nat)
    }

    /// Checks a geometry and derives the number of sets and the block size.
    pub fn new(set_index_bits: u32, block_bits: u32, associativity: usize) -> (made: Result<
        CacheParameters,
        ConfigurationError,
    >)
        ensures
            match made {
                Ok(p) => {
                    &&& configuration_fault(set_index_bits, block_bits, associativity).is_none()
                    &&& p.wf()
                    &&& p.set_index_bits == set_index_bits
                    &&& p.block_bits == block_bits
                    &&& p.associativity == associativity
                },
                Err(e) => configuration_fault(set_index_bits, block_bits, associativity) == Some(e),
            },
    {
        if set_index_bits >= 64 || block_bits >= 64 || set_index_bits + block_bits >= 64 {
            return Err(ConfigurationError::NoTagBits);
        }
        if associativity == 0 {
            return Err(ConfigurationError::NoLines);
        }
        let sets: u64 = 1u64 << (set_index_bits as u64);
        let block_size: u64 = 1u64 << (block_bits as u64);
        proof {
            lemma_one_shl_is_pow2(set_index_bits as u64);
            lemma_one_shl_is_pow2(block_bits as u64);
        }
        if sets > usize::MAX as u64 {
            return Err(ConfigurationError::TooManySets);
        }
        Ok(
            CacheParameters {
                set_index_bits,
                block_bits,
                associativity,
                number_of_sets: sets as usize,
                block_size,
            },
        )
    }
}

impl CacheStatistics {
    /// All counters at zero.
    pub fn new() -> (stats: CacheStatistics)
        ensures
            stats.hits == 0,
            stats.misses == 0,
            stats.evictions == 0,
    {
        CacheStatistics { hits: 0, misses: 0, evictions: 0 }
    }
}

/// The contents of a cache in which no line holds a block yet.
pub open spec fn empty_sets(number_of_sets: nat, associativity: nat) -> Seq<Seq<CacheLine>> {
    Seq::new(number_of_sets, |i: int| Seq::new(associativity, |j: int| empty_line()))
}

/// The cache has the shape that the geometry asks for.
pub open spec fn shaped(sets: Seq<Seq<CacheLine>>, p: CacheParameters) -> bool {
    &&& sets.len() == p.number_of_sets
    &&& forall|i: int| 0 <= i < sets.len() ==> (#[trigger] sets[i]).len() == p.associativity
}

/// Builds a cache of `number_of_sets` sets with `associativity` empty lines each.
pub fn make_cache(number_of_sets: usize, associativity: usize) -> (cache: Cache)
    ensures
        cache@ == empty_sets(number_of_sets as nat, associativity as nat),
{
    let mut sets: Vec<CacheSet> = Vec::new();
    let mut i: usize = 0;
    while i < number_of_sets
        invariant
            i <= number_of_sets,
            sets@.len() == i,
            forall|k: int| 0 <= k < i ==> (#[trigger] sets@[k])@ == Seq::new(
                associativity as nat,
                |j: int| empty_line(),
            ),
        decreases number_of_sets - i,
    {
        sets.push(CacheSet::new(associativity));
        i += 1;
    }
    let cache = Cache { sets };
    assert(cache@ =~= empty_sets(number_of_sets as nat, associativity as nat));
    cache
}

/// The whole state of a simulation as plain mathematical values.
pub struct SimState {
    pub sets: Seq<Seq<CacheLine>>,
    pub hits: nat,
    pub misses: nat,
    pub evictions: nat,
}

/// The state that a cache and its counters stand for.
pub open spec fn state_of(cache: Cache, stats: CacheStatistics) -> SimState {
    SimState {
        sets: cache@,
        hits: stats.hits as nat,
        misses: stats.misses as nat,
        evictions: stats.evictions as nat,
    }
}

/// The state before the first access of a run.
pub open spec fn initial_state(p: CacheParameters) -> SimState {
    SimState {
        sets: empty_sets(p.number_of_sets as nat, p.associativity as nat),
        hits: 0,
        misses: 0,
        evictions: 0,
    }
}

/// What an access adds to the hit counter: one for each line that matched.
pub open spec fn hits_of(outcome: AccessOutcome) -> nat {
    match outcome {
        AccessOutcome::Hit(lines) => lines as nat,
        _ => 0,
    }
}

/// What an access adds to the miss counter.
pub open spec fn misses_of(outcome: AccessOutcome) -> nat {
    match outcome {
        AccessOutcome::Hit(_) => 0,
        _ => 1,
    }
}

/// What an access adds to the eviction counter.
pub open spec fn evictions_of(outcome: AccessOutcome) -> nat {
    match outcome {
        AccessOutcome::Evict(_) => 1,
        _ => 0,
    }
}

/// The set that an address selects.
pub open spec fn target_set(st: SimState, p: CacheParameters, address: u64) -> Seq<CacheLine> {
    st.sets[set_index_of(address, p.set_index_bits, p.block_bits) as int]
}

/// The state after one access to `address`.
pub open spec fn step(st: SimState, p: CacheParameters, address: u64) -> SimState {
    let index = set_index_of(address, p.set_index_bits, p.block_bits) as int;
    let tag = tag_of(address, p.set_index_bits, p.block_bits);
    let outcome = outcome_of(st.sets[index], tag);
    SimState {
        sets: st.sets.update(index, lines_after(st.sets[index], tag)),
        hits: st.hits + hits_of(outcome),
        misses: st.misses + misses_of(outcome),
        evictions: st.evictions + evictions_of(outcome),
    }
}

/// One access to `address` overflows neither a counter nor a recency stamp.
pub open spec fn step_fits(st: SimState, p: CacheParameters, address: u64) -> bool {
    let tag = tag_of(address, p.set_index_bits, p.block_bits);
    let lines = target_set(st, p, address);
    let next = step(st, p, address);
    &&& access_fits(lines, tag)
    &&& next.hits <= u64::MAX
    &&& next.misses <= u64::MAX
    &&& next.evictions <= u64::MAX
}

/// Simulates one access to `address`: decodes it, lets the selected set
/// classify it, and counts the outcome.
pub fn simulate(
    cache: &mut Cache,
    params: &CacheParameters,
    stats: &mut CacheStatistics,
    address: u64,
)
    requires
        params.wf(),
        shaped(old(cache)@, *params),
        step_fits(state_of(*old(cache), *old(stats)), *params, address),
    ensures
        state_of(*final(cache), *final(stats)) == step(
            state_of(*old(cache), *old(stats)),
            *params,
            address,
        ),
        shaped(final(cache)@, *params),
        !all_valid(target_set(state_of(*old(cache), *old(stats)), *params, address))
            ==> final(stats).evictions == old(stats).evictions,
        final(stats).evictions - old(stats).evictions <= final(stats).misses - old(stats).misses,
{
    let (set_index, tag) = decode(address, params.set_index_bits, params.block_bits);
    let index: usize = set_index as usize;
    let ghost before = cache@;
    assert(before[index as int] == cache.sets@[index as int]@);
    let outcome = cache.sets[index].access(tag);
    proof {
        assert(cache@ =~= before.update(index as int, lines_after(before[index as int], tag)));
        assert forall|i: int| 0 <= i < cache@.len() implies (#[trigger] cache@[i]).len()
            == params.associativity by {
            if i != index {
                assert(cache@[i] == before[i]);
            }
        }
    }
    match outcome {
        AccessOutcome::Hit(lines) => {
            stats.hits = stats.hits + lines as u64;
        },
        AccessOutcome::Fill(_) => {
            stats.misses = stats.misses + 1;
        },
        AccessOutcome::Evict(_) => {
            stats.misses = stats.misses + 1;
            stats.evictions = stats.evictions + 1;
        },
    }
}

} // verus!
