//! Replaying a trace against a cache, and what holds of every replay.

use crate::address::{set_index_of, tag_of};
use crate::cache::{
    initial_state, make_cache, shaped, simulate, state_of, step, step_fits, target_set, Cache,
    CacheParameters, CacheStatistics, SimState,
};
use crate::policy::{
    lemma_access_keeps_unique_tags, lemma_access_leaves_tag_resident,
    lemma_access_raises_stamps_by_one, lemma_unique_tags_one_match, stamps_within, unique_tags,
};
use crate::set::{all_valid, empty_line, lines_after};
use crate::trace::{AccessKind, AccessRecord, TraceLine};
use vstd::arithmetic::power2::pow2;
use vstd::prelude::*;

verus! {

/// The addresses that one record sends to the cache: a modify is two accesses
/// to the same address, a load or a store is one.
pub open spec fn record_accesses(record: AccessRecord) -> Seq<u64> {
    match record.kind {
        AccessKind::Modify => seq![record.address, record.address],
        _ => seq![record.address],
    }
}

/// The addresses that one trace line sends to the cache; instruction fetches
/// and unrecognized lines send none.
pub open spec fn accesses_of(line: TraceLine) -> Seq<u64> {
    match line {
        TraceLine::Access(record) => record_accesses(record),
        _ => Seq::empty(),
    }
}

/// The addresses that a trace sends to the cache, in order.
pub open spec fn trace_accesses(trace: Seq<TraceLine>) -> Seq<u64>
    decreases trace.len(),
{
    if trace.len() == 0 {
        Seq::empty()
    } else {
        accesses_of(trace[0]) + trace_accesses(trace.drop_first())
    }
}

/// How many accesses one trace line stands for.
pub open spec fn line_weight(line: TraceLine) -> nat {
    match line {
        TraceLine::Access(record) => match record.kind {
            AccessKind::Modify => 2,
            _ => 1,
        },
        _ => 0,
    }
}

/// How many accesses a trace stands for.
pub open spec fn access_count(trace: Seq<TraceLine>) -> nat
    decreases trace.len(),
{
    if trace.len() == 0 {
        0
    } else {
        line_weight(trace[0]) + access_count(trace.drop_first())
    }
}

/// The state after the accesses to `addresses`, one after the other.
pub open spec fn run(st: SimState, p: CacheParameters, addresses: Seq<u64>) -> SimState
    decreases addresses.len(),
{
    if addresses.len() == 0 {
        st
    } else {
        run(step(st, p, addresses[0]), p, addresses.drop_first())
    }
}

/// None of the accesses to `addresses` overflows a counter or a recency stamp.
pub open spec fn run_fits(st: SimState, p: CacheParameters, addresses: Seq<u64>) -> bool
    decreases addresses.len(),
{
    addresses.len() == 0 || (step_fits(st, p, addresses[0]) && run_fits(
        step(st, p, addresses[0]),
        p,
        addresses.drop_first(),
    ))
}

/// The state has the shape of the geometry, no set holds a block twice, and
/// no more evictions than misses were counted.
pub open spec fn neat(st: SimState, p: CacheParameters) -> bool {
    &&& shaped(st.sets, p)
    &&& forall|i: int| 0 <= i < st.sets.len() ==> unique_tags(#[trigger] st.sets[i])
    &&& st.evictions <= st.misses
}

/// No recency stamp exceeds the number of accesses counted so far.
pub open spec fn bounded(st: SimState) -> bool {
    forall|i: int|
        0 <= i < st.sets.len() ==> stamps_within(#[trigger] st.sets[i], (st.hits + st.misses) as int)
}

/// A run that starts with one address starts with a step.
pub proof fn lemma_run_unfold(st: SimState, p: CacheParameters, first: u64, rest: Seq<u64>)
    ensures
        run(st, p, seq![first] + rest) == run(step(st, p, first), p, rest),
        run_fits(st, p, seq![first] + rest) == (step_fits(st, p, first) && run_fits(
            step(st, p, first),
            p,
            rest,
        )),
{
    let all = seq![first] + rest;
    assert(all[0] == first);
    assert(all.drop_first() =~= rest);
}

/// The freshly built state is neat and bounded.
pub proof fn lemma_initial_state_neat(p: CacheParameters)
    requires
        p.wf(),
    ensures
        neat(initial_state(p), p),
        bounded(initial_state(p)),
{
    let st = initial_state(p);
    assert forall|i: int| 0 <= i < st.sets.len() implies unique_tags(#[trigger] st.sets[i])
        && stamps_within(st.sets[i], 0) by {
        assert(st.sets[i] =~= Seq::new(p.associativity as nat, |j: int| empty_line()));
    }
}

/// The set index of every address is the index of a set.
pub proof fn lemma_set_index_in_range(p: CacheParameters, address: u64)
    requires
        p.wf(),
    ensures
        0 <= set_index_of(address, p.set_index_bits, p.block_bits) < p.number_of_sets,
{
    vstd::bits::lemma_u64_pow2_no_overflow(p.set_index_bits as nat);
    vstd::arithmetic::div_mod::lemma_mod_bound(
        (address as nat / pow2(p.block_bits as nat)) as int,
        pow2(p.set_index_bits as nat) as int,
    );
}

/// One access keeps a neat state neat and counts as exactly one hit or miss.
pub proof fn lemma_step_keeps_neat(st: SimState, p: CacheParameters, address: u64)
    requires
        p.wf(),
        neat(st, p),
    ensures
        neat(step(st, p, address), p),
        step(st, p, address).hits + step(st, p, address).misses == st.hits + st.misses + 1,
{
    lemma_set_index_in_range(p, address);
    let index = set_index_of(address, p.set_index_bits, p.block_bits) as int;
    let tag = tag_of(address, p.set_index_bits, p.block_bits);
    let lines = st.sets[index];
    let next = step(st, p, address);
    lemma_access_keeps_unique_tags(lines, tag);
    assert forall|i: int| 0 <= i < next.sets.len() implies (#[trigger] next.sets[i]).len()
        == p.associativity && unique_tags(next.sets[i]) by {
        if i != index {
            assert(next.sets[i] == st.sets[i]);
        }
    }
}

/// In a neat, bounded state with room for one more access, the access fits
/// and leaves the state bounded.
pub proof fn lemma_step_keeps_bounded(st: SimState, p: CacheParameters, address: u64)
    requires
        p.wf(),
        neat(st, p),
        bounded(st),
        st.hits + st.misses < i64::MAX,
    ensures
        step_fits(st, p, address),
        bounded(step(st, p, address)),
{
    lemma_set_index_in_range(p, address);
    lemma_step_keeps_neat(st, p, address);
    let index = set_index_of(address, p.set_index_bits, p.block_bits) as int;
    let tag = tag_of(address, p.set_index_bits, p.block_bits);
    let lines = st.sets[index];
    let next = step(st, p, address);
    let total = st.hits + st.misses;
    lemma_access_raises_stamps_by_one(lines, tag, total as int);
    assert forall|i: int| 0 <= i < next.sets.len() implies stamps_within(
        #[trigger] next.sets[i],
        (total + 1) as int,
    ) by {
        if i != index {
            assert(next.sets[i] == st.sets[i]);
            assert(stamps_within(st.sets[i], total as int));
        }
    }
}

/// A run from a neat state stays neat and counts every access once.
pub proof fn lemma_run_keeps_neat(st: SimState, p: CacheParameters, addresses: Seq<u64>)
    requires
        p.wf(),
        neat(st, p),
    ensures
        neat(run(st, p, addresses), p),
        run(st, p, addresses).hits + run(st, p, addresses).misses == st.hits + st.misses
            + addresses.len(),
    decreases addresses.len(),
{
    if addresses.len() > 0 {
        lemma_step_keeps_neat(st, p, addresses[0]);
        lemma_run_keeps_neat(step(st, p, addresses[0]), p, addresses.drop_first());
    }
}

/// A run from a neat, bounded state fits as long as the accesses counted at
/// its end fit in an `i64`.
pub proof fn lemma_run_fits(st: SimState, p: CacheParameters, addresses: Seq<u64>)
    requires
        p.wf(),
        neat(st, p),
        bounded(st),
        st.hits + st.misses + addresses.len() <= i64::MAX,
    ensures
        run_fits(st, p, addresses),
        bounded(run(st, p, addresses)),
    decreases addresses.len(),
{
    if addresses.len() > 0 {
        lemma_step_keeps_neat(st, p, addresses[0]);
        lemma_step_keeps_bounded(st, p, addresses[0]);
        lemma_run_fits(step(st, p, addresses[0]), p, addresses.drop_first());
    }
}

/// A trace sends as many addresses as its lines weigh together.
pub proof fn lemma_trace_accesses_len(trace: Seq<TraceLine>)
    ensures
        trace_accesses(trace).len() == access_count(trace),
        access_count(trace) <= 2 * trace.len(),
    decreases trace.len(),
{
    if trace.len() > 0 {
        lemma_trace_accesses_len(trace.drop_first());
    }
}

/// Running two traces of addresses in a row is running them joined.
pub proof fn lemma_run_concat(st: SimState, p: CacheParameters, front: Seq<u64>, back: Seq<u64>)
    ensures
        run(st, p, front + back) == run(run(st, p, front), p, back),
        run_fits(st, p, front + back) == (run_fits(st, p, front) && run_fits(
            run(st, p, front),
            p,
            back,
        )),
    decreases front.len(),
{
    if front.len() == 0 {
        assert(front + back =~= back);
    } else {
        let all = front + back;
        assert(all[0] == front[0]);
        assert(all.drop_first() =~= front.drop_first() + back);
        lemma_run_concat(step(st, p, front[0]), p, front.drop_first(), back);
    }
}

/// The largest number of lines that a trace handed to [`run_trace`] may have:
/// with two accesses a line, the counters and stamps still fit.
pub const MAX_TRACE_LINES: u64 = 0x3FFF_FFFF_FFFF_FFFF;

/// Sends one record to the cache: one access for a load or a store, two in a
/// row to the same address for a modify.
pub fn access(
    cache: &mut Cache,
    params: &CacheParameters,
    stats: &mut CacheStatistics,
    record: &AccessRecord,
)
    requires
        params.wf(),
        shaped(old(cache)@, *params),
        run_fits(state_of(*old(cache), *old(stats)), *params, record_accesses(*record)),
    ensures
        state_of(*final(cache), *final(stats)) == run(
            state_of(*old(cache), *old(stats)),
            *params,
            record_accesses(*record),
        ),
        shaped(final(cache)@, *params),
{
    let ghost start = state_of(*cache, *stats);
    let ghost once = step(start, *params, record.address);
    proof {
        let a = record.address;
        assert(seq![a] =~= seq![a] + Seq::<u64>::empty());
        assert(seq![a, a] =~= seq![a] + seq![a]);
        lemma_run_unfold(start, *params, a, Seq::empty());
        lemma_run_unfold(start, *params, a, seq![a]);
        lemma_run_unfold(once, *params, a, Seq::empty());
    }
    simulate(cache, params, stats, record.address);
    match record.kind {
        AccessKind::Modify => {
            simulate(cache, params, stats, record.address);
        },
        _ => {},
    }
}

/// Replays a trace on a cache in the order of its lines. Instruction fetches
/// and unrecognized lines change nothing.
pub fn replay(
    cache: &mut Cache,
    params: &CacheParameters,
    stats: &mut CacheStatistics,
    trace: &Vec<TraceLine>,
)
    requires
        params.wf(),
        shaped(old(cache)@, *params),
        run_fits(state_of(*old(cache), *old(stats)), *params, trace_accesses(trace@)),
    ensures
        state_of(*final(cache), *final(stats)) == run(
            state_of(*old(cache), *old(stats)),
            *params,
            trace_accesses(trace@),
        ),
        shaped(final(cache)@, *params),
{
    let ghost start = state_of(*cache, *stats);
    let n: usize = trace.len();
    let mut i: usize = 0;
    assert(trace@.skip(0) =~= trace@);
    while i < n
        invariant
            i <= n,
            n == trace@.len(),
            params.wf(),
            shaped(cache@, *params),
            run_fits(state_of(*cache, *stats), *params, trace_accesses(trace@.skip(i as int))),
            run(state_of(*cache, *stats), *params, trace_accesses(trace@.skip(i as int))) == run(
                start,
                *params,
                trace_accesses(trace@),
            ),
        decreases n - i,
    {
        let ghost now = state_of(*cache, *stats);
        let ghost rest = trace@.skip(i as int);
        let ghost tail = trace_accesses(trace@.skip(i as int + 1));
        proof {
            assert(rest[0] == trace@[i as int]);
            assert(rest.drop_first() =~= trace@.skip(i as int + 1));
            assert(trace_accesses(rest) == accesses_of(trace@[i as int]) + tail);
            lemma_run_concat(now, *params, accesses_of(trace@[i as int]), tail);
        }
        match trace[i] {
            TraceLine::Access(record) => {
                access(cache, params, stats, &record);
            },
            _ => {},
        }
        i += 1;
    }
}

/// Replays a trace on a freshly built cache and returns the counters.
///
/// The result is `None` only for a trace of more than [`MAX_TRACE_LINES`]
/// lines, on which nothing is simulated.
pub fn run_trace(params: &CacheParameters, trace: &Vec<TraceLine>) -> (result: Option<
    CacheStatistics,
>)
    requires
        params.wf(),
    ensures
        result.is_some() <==> trace@.len() <= MAX_TRACE_LINES,
        match result {
            Some(stats) => {
                let end = run(initial_state(*params), *params, trace_accesses(trace@));
                &&& stats.hits == end.hits
                &&& stats.misses == end.misses
                &&& stats.evictions == end.evictions
                &&& stats.hits + stats.misses == access_count(trace@)
                &&& stats.evictions <= stats.misses
            },
            None => true,
        },
{
    if trace.len() as u64 > MAX_TRACE_LINES {
        return None;
    }
    let mut cache = make_cache(params.number_of_sets, params.associativity);
    let mut stats = CacheStatistics::new();
    proof {
        let addresses = trace_accesses(trace@);
        lemma_trace_accesses_len(trace@);
        lemma_initial_state_neat(*params);
        lemma_run_fits(initial_state(*params), *params, addresses);
        lemma_run_keeps_neat(initial_state(*params), *params, addresses);
        assert(state_of(cache, stats) == initial_state(*params));
    }
    replay(&mut cache, params, &mut stats, trace);
    Some(stats)
}

/// Over a whole replay from an empty cache, hits and misses together count
/// every data access of the trace: two for a modify, one for a load or a
/// store, none for any other line.
pub proof fn lemma_every_access_is_counted(p: CacheParameters, trace: Seq<TraceLine>)
    requires
        p.wf(),
    ensures
        ({
            let end = run(initial_state(p), p, trace_accesses(trace));
            end.hits + end.misses == access_count(trace)
        }),
{
    lemma_trace_accesses_len(trace);
    lemma_initial_state_neat(p);
    lemma_run_keeps_neat(initial_state(p), p, trace_accesses(trace));
}

/// At every point of a replay from an empty cache there are at most as many
/// evictions as misses.
pub proof fn lemma_evictions_at_most_misses(p: CacheParameters, trace: Seq<TraceLine>)
    requires
        p.wf(),
    ensures
        ({
            let end = run(initial_state(p), p, trace_accesses(trace));
            end.evictions <= end.misses
        }),
{
    lemma_initial_state_neat(p);
    lemma_run_keeps_neat(initial_state(p), p, trace_accesses(trace));
}

/// An access to a set that still has a free line evicts nothing.
pub proof fn lemma_no_eviction_while_room(st: SimState, p: CacheParameters, address: u64)
    requires
        !all_valid(target_set(st, p, address)),
    ensures
        step(st, p, address).evictions == st.evictions,
{
}

/// A second access to the same address right after the first is a hit: it
/// adds one hit, no miss and no eviction. So the second half of a modify
/// always hits.
pub proof fn lemma_repeated_access_hits(st: SimState, p: CacheParameters, address: u64)
    requires
        p.wf(),
        neat(st, p),
    ensures
        ({
            let once = step(st, p, address);
            let twice = step(once, p, address);
            &&& twice.hits == once.hits + 1
            &&& twice.misses == once.misses
            &&& twice.evictions == once.evictions
        }),
{
    lemma_set_index_in_range(p, address);
    lemma_step_keeps_neat(st, p, address);
    let index = set_index_of(address, p.set_index_bits, p.block_bits) as int;
    let tag = tag_of(address, p.set_index_bits, p.block_bits);
    let lines = st.sets[index];
    let after = lines_after(lines, tag);
    let once = step(st, p, address);
    assert(once.sets[index] == after);
    lemma_access_keeps_unique_tags(lines, tag);
    lemma_access_leaves_tag_resident(lines, tag);
    lemma_unique_tags_one_match(after, tag, after.len() as int);
}

/// Lines that send nothing to the cache leave a replay as it is without them:
/// an instruction fetch anywhere in a trace changes no counter and no line.
pub proof fn lemma_instruction_lines_are_ignored(
    st: SimState,
    p: CacheParameters,
    front: Seq<TraceLine>,
    back: Seq<TraceLine>,
)
    ensures
        run(st, p, trace_accesses(front + seq![TraceLine::Instruction] + back)) == run(
            st,
            p,
            trace_accesses(front + back),
        ),
{
    lemma_trace_accesses_concat(front, seq![TraceLine::Instruction]);
    lemma_trace_accesses_concat(front + seq![TraceLine::Instruction], back);
    lemma_trace_accesses_concat(front, back);
    let one = seq![TraceLine::Instruction];
    assert(one.drop_first() =~= Seq::<TraceLine>::empty());
    assert(trace_accesses(Seq::<TraceLine>::empty()) =~= Seq::<u64>::empty());
    assert(accesses_of(one[0]) =~= Seq::<u64>::empty());
    assert(trace_accesses(one) =~= Seq::<u64>::empty());
    assert(trace_accesses(front) + Seq::<u64>::empty() =~= trace_accesses(front));
}

/// The addresses of two traces in a row are those of the traces joined.
pub proof fn lemma_trace_accesses_concat(front: Seq<TraceLine>, back: Seq<TraceLine>)
    ensures
        trace_accesses(front + back) == trace_accesses(front) + trace_accesses(back),
    decreases front.len(),
{
    if front.len() == 0 {
        assert(front + back =~= back);
        assert(trace_accesses(front) + trace_accesses(back) =~= trace_accesses(back));
    } else {
        let all = front + back;
        assert(all[0] == front[0]);
        assert(all.drop_first() =~= front.drop_first() + back);
        lemma_trace_accesses_concat(front.drop_first(), back);
        assert(accesses_of(front[0]) + (trace_accesses(front.drop_first()) + trace_accesses(back))
            =~= (accesses_of(front[0]) + trace_accesses(front.drop_first())) + trace_accesses(
            back,
        ));
    }
}

/// Two replays of the same trace on fresh caches of the same geometry end
/// with the same counters.
pub proof fn lemma_replay_is_deterministic(
    p: CacheParameters,
    trace: Vec<TraceLine>,
    first: Option<CacheStatistics>,
    second: Option<CacheStatistics>,
)
    requires
        p.wf(),
        call_ensures(run_trace, (&p, &trace), first),
        call_ensures(run_trace, (&p, &trace), second),
    ensures
        first == second,
{
}

} // verus!
