//! Cache lines, cache sets and the per-set replacement policy.

use vstd::prelude::*;

verus! {

/// One line of a set: whether it holds a block, which block, and when it was
/// last touched. The recency stamp only ranks lines within their own set.
#[derive(Clone, Copy, Debug, PartialEq, Eq)]
pub struct CacheLine {
    pub valid: bool,
    pub tag: u64,
    pub recency: i64,
}

/// A fixed-length row of lines that one set index selects.
#[derive(Clone, Debug, PartialEq, Eq)]
pub struct CacheSet {
    pub lines: Vec<CacheLine>,
}

impl View for CacheSet {
    type V = Seq<CacheLine>;

    open spec fn view(&self) -> Seq<CacheLine> {
        self.lines@
    }
}

/// How one access to a set was classified.
#[derive(Clone, Copy, Debug, PartialEq, Eq)]
pub enum AccessOutcome {
    /// The tag was resident; the payload is the number of lines that matched.
    Hit(usize),
    /// The tag was absent and went into the free line at this index.
    Fill(usize),
    /// The tag was absent, the set was full, and the line at this index was replaced.
    Evict(usize),
}

/// The line with no block in it that every cache starts from.
pub open spec fn empty_line() -> CacheLine {
    CacheLine { valid: false, tag: 0, recency: 0 }
}

/// A line holds the block named by `tag`.
pub open spec fn line_matches(line: CacheLine, tag: u64) -> bool {
    line.valid && line.tag == tag
}

/// Every line of the set holds a block.
pub open spec fn all_valid(lines: Seq<CacheLine>) -> bool {
    forall|i: int| 0 <= i < lines.len() ==> (#[trigger] lines[i]).valid
}

/// `i` is the lowest index of a line that holds no block.
pub open spec fn is_first_free(lines: Seq<CacheLine>, i: int) -> bool {
    &&& 0 <= i < lines.len()
    &&& !lines[i].valid
    &&& forall|j: int| 0 <= j < i ==> (#[trigger] lines[j]).valid
}

/// The lowest index of a line that holds no block, where there is one.
pub open spec fn first_free(lines: Seq<CacheLine>) -> int {
    choose|i: int| is_first_free(lines, i)
}

/// `i` is the lowest index among the lines of least recency.
pub open spec fn is_victim(lines: Seq<CacheLine>, i: int) -> bool {
    &&& 0 <= i < lines.len()
    &&& forall|j: int| 0 <= j < lines.len() ==> lines[i].recency <= (#[trigger] lines[j]).recency
    &&& forall|j: int| 0 <= j < i ==> lines[i].recency < (#[trigger] lines[j]).recency
}

/// The line to replace in a full set: least recency, lowest index on a tie.
pub open spec fn victim(lines: Seq<CacheLine>) -> int {
    choose|i: int| is_victim(lines, i)
}

/// `m` is the greatest recency stamp that occurs in the set.
pub open spec fn is_max_recency(lines: Seq<CacheLine>, m: int) -> bool {
    &&& forall|j: int| 0 <= j < lines.len() ==> (#[trigger] lines[j]).recency <= m
    &&& exists|j: int| 0 <= j < lines.len() && (#[trigger] lines[j]).recency == m
}

/// The greatest recency stamp in a non-empty set.
pub open spec fn max_recency(lines: Seq<CacheLine>) -> int {
    choose|m: int| is_max_recency(lines, m)
}

/// How many of the first `n` lines hold the block named by `tag`.
pub open spec fn match_count(lines: Seq<CacheLine>, tag: u64, n: int) -> nat
    decreases n,
{
    if n <= 0 {
        0
    } else {
        match_count(lines, tag, n - 1) + if line_matches(lines[n - 1], tag) {
            1nat
        } else {
            0nat
        }
    }
}

/// A set is never asked for more matches than it has lines, and the count
/// only grows along the set.
pub proof fn lemma_match_count_bounds(lines: Seq<CacheLine>, tag: u64, a: int, b: int)
    requires
        0 <= a <= b,
    ensures
        match_count(lines, tag, a) <= match_count(lines, tag, b),
        match_count(lines, tag, b) <= b,
    decreases b,
{
    if b > 0 {
        if a < b {
            lemma_match_count_bounds(lines, tag, a, b - 1);
        } else {
            lemma_match_count_bounds(lines, tag, a - 1, b - 1);
        }
    }
}

/// No line matches exactly when the count over the whole prefix is zero.
pub proof fn lemma_match_count_zero(lines: Seq<CacheLine>, tag: u64, n: int)
    requires
        0 <= n <= lines.len(),
    ensures
        match_count(lines, tag, n) == 0 <==> forall|j: int|
            0 <= j < n ==> !line_matches(#[trigger] lines[j], tag),
    decreases n,
{
    if n > 0 {
        lemma_match_count_zero(lines, tag, n - 1);
        if match_count(lines, tag, n) == 0 {
            assert forall|j: int| 0 <= j < n implies !line_matches(#[trigger] lines[j], tag) by {
                if j < n - 1 {
                }
            }
        }
    }
}

/// A set has at most one greatest recency stamp.
pub proof fn lemma_max_recency_is(lines: Seq<CacheLine>, m: int)
    requires
        is_max_recency(lines, m),
    ensures
        max_recency(lines) == m,
{
    let c = max_recency(lines);
    assert(is_max_recency(lines, c));
}

/// A non-empty set has a greatest recency stamp.
pub proof fn lemma_max_recency_exists(lines: Seq<CacheLine>)
    requires
        lines.len() > 0,
    ensures
        is_max_recency(lines, max_recency(lines)),
    decreases lines.len(),
{
    let last = lines.last().recency as int;
    if lines.len() == 1 {
        assert(lines[0].recency == last);
        assert(is_max_recency(lines, last));
    } else {
        let front = lines.drop_last();
        lemma_max_recency_exists(front);
        let m = max_recency(front);
        let at = choose|j: int| 0 <= j < front.len() && (#[trigger] front[j]).recency == m;
        assert(lines[at] == front[at]);
        assert(lines[lines.len() - 1].recency == last);
        let top = if m >= last { m } else { last };
        assert forall|j: int| 0 <= j < lines.len() implies (#[trigger] lines[j]).recency <= top by {
            if j < front.len() {
                assert(lines[j] == front[j]);
            }
        }
        assert(is_max_recency(lines, top));
    }
}

/// A set has at most one replacement victim.
pub proof fn lemma_victim_is(lines: Seq<CacheLine>, i: int)
    requires
        is_victim(lines, i),
    ensures
        victim(lines) == i,
{
    let c = victim(lines);
    assert(is_victim(lines, c));
    if c < i {
        assert(lines[i].recency < lines[c].recency);
    } else if i < c {
        assert(lines[c].recency < lines[i].recency);
    }
}

/// A set has at most one first free line.
pub proof fn lemma_first_free_is(lines: Seq<CacheLine>, i: int)
    requires
        is_first_free(lines, i),
    ensures
        first_free(lines) == i,
{
    let c = first_free(lines);
    assert(is_first_free(lines, c));
    if c < i {
        assert(lines[c].valid);
    } else if i < c {
        assert(lines[i].valid);
    }
}

/// Does the line hold the block named by `tag`?
pub fn check_hit(line: &CacheLine, tag: u64) -> (hit: bool)
    ensures
        hit == line_matches(*line, tag),
{
    line.valid && line.tag == tag
}

/// Does every line of the set hold a block?
pub fn check_full(set: &CacheSet) -> (full: bool)
    ensures
        full == all_valid(set@),
{
    let n: usize = set.lines.len();
    let mut i: usize = 0;
    while i < n
        invariant
            n == set@.len(),
            i <= n,
            forall|j: int| 0 <= j < i ==> (#[trigger] set@[j]).valid,
        decreases n - i,
    {
        if !set.lines[i].valid {
            return false;
        }
        i += 1;
    }
    true
}

/// The index of the first free line of a set that is not full.
pub fn find_index(set: &CacheSet) -> (index: usize)
    requires
        !all_valid(set@),
    ensures
        is_first_free(set@, index as int),
        index == first_free(set@),
{
    let n: usize = set.lines.len();
    let mut i: usize = 0;
    while i < n
        invariant
            n == set@.len(),
            i <= n,
            forall|j: int| 0 <= j < i ==> (#[trigger] set@[j]).valid,
        decreases n - i,
    {
        if !set.lines[i].valid {
            proof {
                lemma_first_free_is(set@, i as int);
            }
            return i;
        }
        i += 1;
    }
    proof {
        assert(all_valid(set@));
    }
    0
}

/// The index of the line to replace: the least recency stamp, and among
/// equals the lowest index.
pub fn find_evict(set: &CacheSet) -> (index: usize)
    requires
        set@.len() > 0,
    ensures
        is_victim(set@, index as int),
        index == victim(set@),
{
    let n: usize = set.lines.len();
    let mut min: i64 = set.lines[0].recency;
    let mut index: usize = 0;
    let mut i: usize = 0;
    while i < n
        invariant
            n == set@.len(),
            i <= n,
            index < n,
            index <= i,
            min == set@[index as int].recency,
            forall|j: int| 0 <= j < i ==> min <= (#[trigger] set@[j]).recency,
            forall|j: int| 0 <= j < index ==> min < (#[trigger] set@[j]).recency,
        decreases n - i,
    {
        if min > set.lines[i].recency {
            index = i;
            min = set.lines[i].recency;
        }
        i += 1;
    }
    proof {
        lemma_victim_is(set@, index as int);
    }
    index
}

/// The greatest recency stamp in the set.
pub fn find_max(set: &CacheSet) -> (max: i64)
    requires
        set@.len() > 0,
    ensures
        is_max_recency(set@, max as int),
        max == max_recency(set@),
{
    let n: usize = set.lines.len();
    let mut max: i64 = set.lines[0].recency;
    let ghost mut at: int = 0;
    let mut i: usize = 0;
    while i < n
        invariant
            n == set@.len(),
            i <= n,
            0 <= at < n,
            max == set@[at].recency,
            forall|j: int| 0 <= j < i ==> (#[trigger] set@[j]).recency <= max,
        decreases n - i,
    {
        if set.lines[i].recency > max {
            max = set.lines[i].recency;
            proof {
                at = i as int;
            }
        }
        i += 1;
    }
    proof {
        lemma_max_recency_is(set@, max as int);
    }
    max
}

/// What a hit leaves in line `j`: a matching line is stamped one past the
/// greatest stamp of the moment, so the matching lines take `base + 1`,
/// `base + 2`, ... in index order; every other line is untouched.
pub open spec fn touched_line(lines: Seq<CacheLine>, tag: u64, base: int, j: int) -> CacheLine {
    if line_matches(lines[j], tag) {
        CacheLine {
            valid: lines[j].valid,
            tag: lines[j].tag,
            recency: (base + match_count(lines, tag, j + 1)) as i64,
        }
    } else {
        lines[j]
    }
}

/// The classification of an access for `tag` to a set in the given state.
pub open spec fn outcome_of(lines: Seq<CacheLine>, tag: u64) -> AccessOutcome {
    let hits = match_count(lines, tag, lines.len() as int);
    if hits > 0 {
        AccessOutcome::Hit(hits as usize)
    } else if all_valid(lines) {
        AccessOutcome::Evict(victim(lines) as usize)
    } else {
        AccessOutcome::Fill(first_free(lines) as usize)
    }
}

/// The lines of a set after an access for `tag`.
pub open spec fn lines_after(lines: Seq<CacheLine>, tag: u64) -> Seq<CacheLine> {
    let base = max_recency(lines);
    if match_count(lines, tag, lines.len() as int) > 0 {
        Seq::new(lines.len(), |j: int| touched_line(lines, tag, base, j))
    } else if all_valid(lines) {
        lines.update(
            victim(lines),
            CacheLine { valid: lines[victim(lines)].valid, tag, recency: (base + 1) as i64 },
        )
    } else {
        lines.update(first_free(lines), CacheLine { valid: true, tag, recency: (base + 1) as i64 })
    }
}

/// The recency stamps that an access for `tag` writes fit in an `i64`.
pub open spec fn access_fits(lines: Seq<CacheLine>, tag: u64) -> bool {
    let hits = match_count(lines, tag, lines.len() as int);
    if hits > 0 {
        max_recency(lines) + hits <= i64::MAX
    } else {
        max_recency(lines) < i64::MAX
    }
}

impl CacheSet {
    /// A set of `associativity` empty lines.
    pub fn new(associativity: usize) -> (set: CacheSet)
        ensures
            set@ == Seq::new(associativity as nat, |j: int| empty_line()),
    {
        let mut lines: Vec<CacheLine> = Vec::new();
        let mut i: usize = 0;
        while i < associativity
            invariant
                i <= associativity,
                lines@ == Seq::new(i as nat, |j: int| empty_line()),
            decreases associativity - i,
        {
            lines.push(CacheLine { valid: false, tag: 0, recency: 0 });
            i += 1;
            assert(lines@ =~= Seq::new(i as nat, |j: int| empty_line()));
        }
        CacheSet { lines }
    }

    /// Performs one access for `tag` on this set and says how it was classified.
    ///
    /// Every line that holds the tag is stamped in turn with one more than the
    /// greatest stamp then in the set. If none holds it, the tag goes into the
    /// first free line, or, in a full set, replaces the victim.
    pub fn access(&mut self, tag: u64) -> (outcome: AccessOutcome)
        requires
            old(self)@.len() > 0,
            access_fits(old(self)@, tag),
        ensures
            final(self)@ == lines_after(old(self)@, tag),
            final(self)@.len() == old(self)@.len(),
            outcome == outcome_of(old(self)@, tag),
    {
        let n: usize = self.lines.len();
        let ghost before = self@;
        let ghost base = max_recency(before);
        let mut matched: usize = 0;
        let mut i: usize = 0;
        proof {
            lemma_max_recency_exists(before);
        }
        while i < n
            invariant
                i <= n,
                n == before.len(),
                self@.len() == n,
                base == max_recency(before),
                access_fits(before, tag),
                matched == match_count(before, tag, i as int),
                matched == 0 ==> self@ == before,
                is_max_recency(self@, base + matched),
                forall|j: int| i <= j < n ==> (#[trigger] self@[j]) == before[j],
                forall|j: int| 0 <= j < i ==> (#[trigger] self@[j]) == touched_line(before, tag, base, j),
            decreases n - i,
        {
            let line: CacheLine = self.lines[i];
            proof {
                lemma_match_count_bounds(before, tag, i as int + 1, n as int);
            }
            if check_hit(&line, tag) {
                let max: i64 = find_max(self);
                proof {
                    lemma_max_recency_is(self@, base + matched);
                }
                let ghost prior = self@;
                matched += 1;
                self.lines.set(i, CacheLine { valid: line.valid, tag: line.tag, recency: max + 1 });
                assert(self@[i as int].recency == base + matched);
                assert(is_max_recency(self@, base + matched)) by {
                    assert forall|j: int| 0 <= j < n implies (#[trigger] self@[j]).recency <= base
                        + matched by {
                        if j != i {
                            assert(self@[j] == prior[j]);
                        }
                    }
                }
            }
            i += 1;
        }
        if matched > 0 {
            assert(self@ =~= lines_after(before, tag));
            return AccessOutcome::Hit(matched);
        }
        let max: i64 = find_max(self);
        let stamp: i64 = max + 1;
        if check_full(self) {
            let at: usize = find_evict(self);
            let kept: bool = self.lines[at].valid;
            self.lines.set(at, CacheLine { valid: kept, tag, recency: stamp });
            AccessOutcome::Evict(at)
        } else {
            let at: usize = find_index(self);
            self.lines.set(at, CacheLine { valid: true, tag, recency: stamp });
            AccessOutcome::Fill(at)
        }
    }
}

} // verus!
