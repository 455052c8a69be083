use vstd::prelude::*;

verus! {

/// One matched phrase: its text, its content hash, and how many milliseconds
/// after the branch started it was found.
pub struct SolutionRecord {
    pub anagram_phrase: String,
    pub anagram_phrase_checksum: Vec<u8>,
    pub anagram_phrase_millis: u64,
}

/// Per-branch counters, merged into a global total by the scheduler. The
/// ghost field records which key compositions the search accepted, so that
/// the completeness of the combination search can be stated and proved.
pub struct Metrics {
    pub anagram_phrase_solution: Vec<SolutionRecord>,
    pub anagram_phrases_incomplete: u64,
    pub anagram_roots_exhausted: u64,
    pub anagram_phrases_found: u64,
    pub anagram_phrase_max_depth: u32,
    pub is_done: bool,
    pub compositions: Ghost<Set<Seq<usize>>>,
}

/// A mathematical count capped at the largest 64-bit value.
pub open spec fn sat64(n: nat) -> u64 {
    if n <= u64::MAX {
        n as u64
    } else {
        u64::MAX
    }
}

/// Saturating addition on 64-bit counters.
pub open spec fn spec_sat_add64(a: u64, b: u64) -> u64 {
    if a + b <= u64::MAX {
        (a + b) as u64
    } else {
        u64::MAX
    }
}

/// Capping once more after an addition is the same as capping the whole sum.
pub proof fn lemma_sat64_chain(x: nat, m: nat)
    ensures
        sat64(sat64(x) as nat + m) == sat64(x + m),
{
}

/// Add two counters, stopping at the largest representable value.
pub fn sat_add64(a: u64, b: u64) -> (r: u64)
    ensures
        r == spec_sat_add64(a, b),
{
    if b <= u64::MAX - a {
        a + b
    } else {
        u64::MAX
    }
}

impl Metrics {
    /// Fresh metrics: no solutions, all counters zero.
    pub fn new() -> (m: Metrics)
        ensures
            m.anagram_phrase_solution@.len() == 0,
            m.anagram_phrases_incomplete == 0,
            m.anagram_roots_exhausted == 0,
            m.anagram_phrases_found == 0,
            m.anagram_phrase_max_depth == 0,
            !m.is_done,
            m.compositions@ == Set::<Seq<usize>>::empty(),
    {
        Metrics {
            anagram_phrase_solution: Vec::new(),
            anagram_phrases_incomplete: 0,
            anagram_roots_exhausted: 0,
            anagram_phrases_found: 0,
            anagram_phrase_max_depth: 0,
            is_done: false,
            compositions: Ghost(Set::empty()),
        }
    }
}

/// Merge a finished branch's counters into the running totals: one more root
/// exhausted, sums for the phrase counters, maximum for the depth. The
/// solution list is merged separately.
pub fn add_metrics(total_metric: &mut Metrics, add_metric: &Metrics)
    ensures
        final(total_metric).anagram_roots_exhausted == spec_sat_add64(
            old(total_metric).anagram_roots_exhausted,
            1,
        ),
        final(total_metric).anagram_phrases_incomplete == spec_sat_add64(
            old(total_metric).anagram_phrases_incomplete,
            add_metric.anagram_phrases_incomplete,
        ),
        final(total_metric).anagram_phrases_found == spec_sat_add64(
            old(total_metric).anagram_phrases_found,
            add_metric.anagram_phrases_found,
        ),
        final(total_metric).anagram_phrase_max_depth == (if old(
            total_metric,
        ).anagram_phrase_max_depth < add_metric.anagram_phrase_max_depth {
            add_metric.anagram_phrase_max_depth
        } else {
            old(total_metric).anagram_phrase_max_depth
        }),
        final(total_metric).anagram_phrase_solution == old(total_metric).anagram_phrase_solution,
        final(total_metric).is_done == old(total_metric).is_done,
{
    total_metric.anagram_roots_exhausted = sat_add64(total_metric.anagram_roots_exhausted, 1);
    total_metric.anagram_phrases_incomplete = sat_add64(
        total_metric.anagram_phrases_incomplete,
        add_metric.anagram_phrases_incomplete,
    );
    total_metric.anagram_phrases_found = sat_add64(
        total_metric.anagram_phrases_found,
        add_metric.anagram_phrases_found,
    );
    if total_metric.anagram_phrase_max_depth < add_metric.anagram_phrase_max_depth {
        total_metric.anagram_phrase_max_depth = add_metric.anagram_phrase_max_depth;
    }
}

} // verus!
