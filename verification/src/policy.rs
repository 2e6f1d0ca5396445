//! What the replacement policy guarantees of a set from one access to the next.

use crate::set::{
    access_fits, all_valid, first_free, is_first_free, is_victim, lemma_match_count_bounds,
    lemma_match_count_zero, lemma_max_recency_exists, lemma_victim_is, line_matches, lines_after,
    match_count, max_recency, outcome_of, touched_line, victim, AccessOutcome, CacheLine,
};
use vstd::prelude::*;

verus! {

/// No two lines of the set hold the same block.
pub open spec fn unique_tags(lines: Seq<CacheLine>) -> bool {
    forall|i: int, j: int|
        0 <= i < j < lines.len() && (#[trigger] lines[i]).valid && (#[trigger] lines[j]).valid
            ==> lines[i].tag != lines[j].tag
}

/// A set that is not full has a first free line.
pub proof fn lemma_first_free_exists(lines: Seq<CacheLine>, from: int)
    requires
        !all_valid(lines),
        0 <= from <= lines.len(),
        forall|j: int| 0 <= j < from ==> (#[trigger] lines[j]).valid,
    ensures
        is_first_free(lines, first_free(lines)),
    decreases lines.len() - from,
{
    if from == lines.len() {
        assert(all_valid(lines));
    } else if !lines[from].valid {
        assert(is_first_free(lines, from));
    } else {
        lemma_first_free_exists(lines, from + 1);
    }
}

/// `i` is the lowest index among the lines of least recency within the first `n`.
pub open spec fn is_victim_within(lines: Seq<CacheLine>, n: int, i: int) -> bool {
    &&& 0 <= i < n
    &&& forall|j: int| 0 <= j < n ==> lines[i].recency <= (#[trigger] lines[j]).recency
    &&& forall|j: int| 0 <= j < i ==> lines[i].recency < (#[trigger] lines[j]).recency
}

/// Every non-empty prefix of a set has a victim.
pub proof fn lemma_victim_within_exists(lines: Seq<CacheLine>, n: int) -> (i: int)
    requires
        0 < n <= lines.len(),
    ensures
        is_victim_within(lines, n, i),
    decreases n,
{
    if n == 1 {
        0
    } else {
        let prev = lemma_victim_within_exists(lines, n - 1);
        if lines[n - 1].recency < lines[prev].recency {
            n - 1
        } else {
            prev
        }
    }
}

/// A non-empty set has a victim.
pub proof fn lemma_victim_exists(lines: Seq<CacheLine>)
    requires
        lines.len() > 0,
    ensures
        is_victim(lines, victim(lines)),
{
    let i = lemma_victim_within_exists(lines, lines.len() as int);
    assert(is_victim(lines, i));
}

/// Where no two lines hold the same block, at most one line matches a tag.
pub proof fn lemma_unique_tags_one_match(lines: Seq<CacheLine>, tag: u64, n: int)
    requires
        unique_tags(lines),
        0 <= n <= lines.len(),
    ensures
        match_count(lines, tag, n) <= 1,
    decreases n,
{
    if n > 0 {
        lemma_unique_tags_one_match(lines, tag, n - 1);
        if line_matches(lines[n - 1], tag) && match_count(lines, tag, n - 1) == 1 {
            lemma_match_count_zero(lines, tag, n - 1);
            let j = choose|j: int| 0 <= j < n - 1 && line_matches(#[trigger] lines[j], tag);
            assert(lines[j].tag == lines[n - 1].tag);
        }
    }
}

/// An access keeps the number of lines, and keeps the blocks of a set
/// distinct where they were distinct before.
pub proof fn lemma_access_keeps_unique_tags(lines: Seq<CacheLine>, tag: u64)
    requires
        lines.len() > 0,
        unique_tags(lines),
    ensures
        lines_after(lines, tag).len() == lines.len(),
        unique_tags(lines_after(lines, tag)),
        hits_plus_misses(outcome_of(lines, tag)) == 1,
{
    let after = lines_after(lines, tag);
    let n = lines.len() as int;
    lemma_unique_tags_one_match(lines, tag, n);
    if match_count(lines, tag, n) > 0 {
        assert forall|i: int, j: int|
            0 <= i < j < after.len() && (#[trigger] after[i]).valid && (#[trigger] after[j]).valid
            implies after[i].tag != after[j].tag by {
            assert(after[i].tag == lines[i].tag && after[i].valid == lines[i].valid);
            assert(after[j].tag == lines[j].tag && after[j].valid == lines[j].valid);
        }
    } else {
        lemma_match_count_zero(lines, tag, n);
        let at = if all_valid(lines) {
            lemma_victim_exists(lines);
            victim(lines)
        } else {
            lemma_first_free_exists(lines, 0);
            first_free(lines)
        };
        assert(0 <= at < n);
        assert(after[at].tag == tag);
        assert forall|i: int, j: int|
            0 <= i < j < after.len() && (#[trigger] after[i]).valid && (#[trigger] after[j]).valid
            implies after[i].tag != after[j].tag by {
            if i != at {
                assert(after[i] == lines[i]);
                assert(!line_matches(lines[i], tag));
            }
            if j != at {
                assert(after[j] == lines[j]);
                assert(!line_matches(lines[j], tag));
            }
        }
    }
}

/// What an access adds to hits and misses together.
pub open spec fn hits_plus_misses(outcome: AccessOutcome) -> nat {
    match outcome {
        AccessOutcome::Hit(lines) => lines as nat,
        _ => 1,
    }
}

/// Every recency stamp of the set is at most `bound`.
pub open spec fn stamps_within(lines: Seq<CacheLine>, bound: int) -> bool {
    forall|j: int| 0 <= j < lines.len() ==> (#[trigger] lines[j]).recency <= bound
}

/// In a set of distinct blocks whose stamps stay below the largest `i64`, an
/// access fits and raises the greatest stamp by at most one.
pub proof fn lemma_access_raises_stamps_by_one(lines: Seq<CacheLine>, tag: u64, bound: int)
    requires
        lines.len() > 0,
        unique_tags(lines),
        stamps_within(lines, bound),
        bound < i64::MAX,
    ensures
        access_fits(lines, tag),
        stamps_within(lines_after(lines, tag), bound + 1),
{
    let after = lines_after(lines, tag);
    let n = lines.len() as int;
    lemma_access_keeps_unique_tags(lines, tag);
    lemma_unique_tags_one_match(lines, tag, n);
    lemma_max_recency_exists(lines);
    let base = max_recency(lines);
    assert(base <= bound);
    if match_count(lines, tag, n) > 0 {
        assert forall|j: int| 0 <= j < after.len() implies (#[trigger] after[j]).recency <= bound
            + 1 by {
            lemma_match_count_bounds(lines, tag, j + 1, n);
            assert(after[j] == touched_line(lines, tag, base, j));
            assert(lines[j].recency <= bound);
        }
    } else {
        let at = if all_valid(lines) {
            lemma_victim_exists(lines);
            victim(lines)
        } else {
            lemma_first_free_exists(lines, 0);
            first_free(lines)
        };
        assert forall|j: int| 0 <= j < after.len() implies (#[trigger] after[j]).recency <= bound
            + 1 by {
            if j != at {
                assert(after[j] == lines[j]);
            }
        }
    }
}

/// Where all lines of a set carry the same recency stamp, the line to replace
/// is the one at index 0.
pub proof fn lemma_equal_recency_evicts_lowest(lines: Seq<CacheLine>)
    requires
        lines.len() > 0,
        forall|i: int, j: int|
            0 <= i < lines.len() && 0 <= j < lines.len() ==> (#[trigger] lines[i]).recency == (
            #[trigger] lines[j]).recency,
    ensures
        victim(lines) == 0,
{
    assert(is_victim(lines, 0));
    lemma_victim_is(lines, 0);
}

/// After an access for `tag` some line of the set holds that tag.
pub proof fn lemma_access_leaves_tag_resident(lines: Seq<CacheLine>, tag: u64)
    requires
        lines.len() > 0,
    ensures
        match_count(lines_after(lines, tag), tag, lines.len() as int) >= 1,
{
    let after = lines_after(lines, tag);
    let n = lines.len() as int;
    lemma_match_count_zero(lines, tag, n);
    let at = if match_count(lines, tag, n) > 0 {
        choose|j: int| 0 <= j < n && line_matches(#[trigger] lines[j], tag)
    } else if all_valid(lines) {
        lemma_victim_exists(lines);
        victim(lines)
    } else {
        lemma_first_free_exists(lines, 0);
        first_free(lines)
    };
    assert(0 <= at < n);
    assert(line_matches(after[at], tag));
    lemma_match_count_zero(after, tag, n);
}

} // verus!
