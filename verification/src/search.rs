use vstd::prelude::*;

verus! {

use vstd::multiset::Multiset;
use vstd::seq_lib::group_to_multiset_ensures;
use crate::chars::CharMultiset;
use crate::chars::add_chars;
use crate::chars::chars_empty;
use crate::chars::lemma_count_bounded;
use crate::chars::lemma_subtract_add_inverse;
use crate::chars::subtract_chars;
use crate::chars::text_mset;
use crate::checksum::clock_elapsed_ms;
use crate::checksum::clock_now;
use crate::checksum::compute_md5;
use crate::checksum::digest_in;
use crate::checksum::digest_listed;
use crate::checksum::copy_bytes;
use crate::checksum::md5_of;
use crate::dict::DictionaryIndex;
use crate::dict::group_wf;
use crate::metrics::Metrics;
use crate::metrics::SolutionRecord;
use crate::metrics::add_metrics;
use crate::metrics::lemma_sat64_chain;
use crate::metrics::sat64;
use crate::metrics::sat_add64;
use crate::metrics::spec_sat_add64;
use crate::permute::permutate_anagram_sorted;

broadcast use vstd::multiset::group_multiset_axioms, group_to_multiset_ensures;

/// Every chosen index points at a key group of the index.
pub open spec fn chosen_ok(d: DictionaryIndex, s: Seq<usize>) -> bool {
    forall|k: int| 0 <= k < s.len() ==> (#[trigger] s[k]) < d.entries@.len()
}

/// The combined character multiset of a sequence of chosen key groups.
pub open spec fn sum_key_msets(d: DictionaryIndex, s: Seq<usize>) -> Multiset<char>
    decreases s.len(),
{
    if s.len() == 0 {
        Multiset::empty()
    } else {
        sum_key_msets(d, s.drop_last()).add(d.entries@[s.last() as int].chars@)
    }
}

/// The words of a phrase joined by single separating spaces.
pub open spec fn join_words(ws: Seq<Seq<char>>) -> Seq<char>
    decreases ws.len(),
{
    if ws.len() == 0 {
        Seq::empty()
    } else if ws.len() == 1 {
        ws[0]
    } else {
        join_words(ws.drop_last()) + seq![' '] + ws.last()
    }
}

/// The combined character multiset of a sequence of words.
pub open spec fn sum_word_msets(ws: Seq<Seq<char>>) -> Multiset<char>
    decreases ws.len(),
{
    if ws.len() == 0 {
        Multiset::empty()
    } else {
        sum_word_msets(ws.drop_last()).add(text_mset(ws.last()))
    }
}

/// Whether the dictionary index holds this concrete word.
pub open spec fn dict_word(d: DictionaryIndex, w: Seq<char>) -> bool {
    exists|i: int, j: int|
        0 <= i < d.entries@.len() && 0 <= j < (#[trigger] d.entries@[i]).words@.len()
            && (#[trigger] d.entries@[i].words@[j])@ == w
}

/// A phrase is sound for a dictionary and target when it is the space-joined
/// rendering of dictionary words whose combined letters are exactly the
/// target multiset.
pub open spec fn phrase_sound(d: DictionaryIndex, target: Multiset<char>, p: Seq<char>) -> bool {
    exists|ws: Seq<Seq<char>>|
        #![all_triggers]
        ws.len() >= 1 && p == join_words(ws) && (forall|k: int|
            0 <= k < ws.len() ==> dict_word(d, #[trigger] ws[k])) && sum_word_msets(ws) == target
}

/// A recorded solution carries the digest of its own phrase text, a digest
/// that stands among the targets, and a sound phrase.
pub open spec fn solution_ok(
    d: DictionaryIndex,
    target: Multiset<char>,
    targets: Seq<Vec<u8>>,
    s: SolutionRecord,
) -> bool {
    &&& s.anagram_phrase_checksum@ == md5_of(s.anagram_phrase@)
    &&& digest_listed(targets, s.anagram_phrase_checksum@)
    &&& phrase_sound(d, target, s.anagram_phrase@)
}

/// Every solution the metrics hold is sound.
pub open spec fn metrics_ok(
    d: DictionaryIndex,
    target: Multiset<char>,
    targets: Seq<Vec<u8>>,
    m: Metrics,
) -> bool {
    forall|k: int|
        0 <= k < m.anagram_phrase_solution@.len() ==> solution_ok(
            d,
            target,
            targets,
            #[trigger] m.anagram_phrase_solution@[k],
        )
}

/// Whether the solution list holds a record with exactly this phrase text.
pub open spec fn has_solution(sols: Seq<SolutionRecord>, p: Seq<char>) -> bool {
    exists|j: int| 0 <= j < sols.len() && (#[trigger] sols[j]).anagram_phrase@ == p
}

/// No two records hold the same phrase text.
pub open spec fn sols_distinct(sols: Seq<SolutionRecord>) -> bool {
    forall|a: int, b: int|
        0 <= a < b < sols.len() ==> sols[a].anagram_phrase@ != sols[b].anagram_phrase@
}

/// The second solution list keeps every record of the first, in place.
pub open spec fn sols_extends(sols0: Seq<SolutionRecord>, sols1: Seq<SolutionRecord>) -> bool {
    sols1.len() >= sols0.len() && forall|k: int| 0 <= k < sols0.len() ==> sols1[k] == sols0[k]
}

/// A choice of one word per position of an ordering: `choice[k]` picks a word
/// of the group that position `k` names.
pub open spec fn choice_ok(d: DictionaryIndex, perm: Seq<usize>, choice: Seq<int>) -> bool {
    choice.len() == perm.len() && forall|k: int|
        0 <= k < choice.len() ==> 0 <= #[trigger] choice[k] < d.entries@[
            perm[k] as int
        ].words@.len()
}

/// The words a choice picks, in ordering order.
pub open spec fn chosen_words(d: DictionaryIndex, perm: Seq<usize>, choice: Seq<int>) -> Seq<
    Seq<char>,
> {
    Seq::new(choice.len(), |k: int| d.entries@[perm[k] as int].words@[choice[k]]@)
}

/// How many of the first `upto` key groups fit into the target multiset.
pub open spec fn fitting_roots(d: DictionaryIndex, target: Multiset<char>, upto: int) -> nat
    decreases upto,
{
    if upto <= 0 {
        0
    } else {
        fitting_roots(d, target, upto - 1) + (if d.entries@[upto - 1].chars@.subset_of(target) {
            1 as nat
        } else {
            0 as nat
        })
    }
}

/// Every record of `sols1` beyond `sols0` copies a record of `bs`.
pub open spec fn sols_from(
    sols0: Seq<SolutionRecord>,
    sols1: Seq<SolutionRecord>,
    bs: Seq<SolutionRecord>,
) -> bool {
    forall|q: int|
        sols0.len() <= q < sols1.len() ==> exists|j: int|
            0 <= j < bs.len() && (#[trigger] sols1[q]).anagram_phrase@ == bs[j].anagram_phrase@
                && sols1[q].anagram_phrase_checksum@ == bs[j].anagram_phrase_checksum@ && sols1[
                q
            ].anagram_phrase_millis == bs[j].anagram_phrase_millis
}

/// How many failed pre-checks the whole combination search performs, scanning
/// keys `cursor..i` of the ordered list against the remaining multiset `rem`:
/// a key that does not fit counts one rejection; a key that fits contributes
/// the rejections of the deeper scan it opens.
pub open spec fn rejected_count(d: DictionaryIndex, rem: Multiset<char>, cursor: int, i: int) -> nat
    decreases rem.len(), i,
        when d.wf() via rejected_count_decreases
{
    if rem == Multiset::<char>::empty() || cursor < 0 || i <= cursor || i > d.entries@.len() {
        0
    } else {
        let q = i - 1;
        rejected_count(d, rem, cursor, i - 1) + (if d.entries@[q].chars@.subset_of(rem) {
            rejected_count(d, rem.sub(d.entries@[q].chars@), q, d.entries@.len() as int)
        } else {
            1 as nat
        })
    }
}

#[via_fn]
proof fn rejected_count_decreases(d: DictionaryIndex, rem: Multiset<char>, cursor: int, i: int) {
    if !(rem == Multiset::<char>::empty() || cursor < 0 || i <= cursor || i
        > d.entries@.len()) {
        let q = i - 1;
        let km = d.entries@[q].chars@;
        if km.subset_of(rem) {
            assert(group_wf(d.entries@[q]));
            lemma_subtract_add_inverse(rem, km);
            vstd::multiset::axiom_len_add::<char>(rem.sub(km), km);
            assert(rem.sub(km).len() < rem.len());
        }
    }
}

/// The larger of two counts.
pub open spec fn nmax(a: nat, b: nat) -> nat {
    if a >= b {
        a
    } else {
        b
    }
}

/// The deepest composition the combination search accepts, scanning keys
/// `cursor..i` against the remaining multiset `rem` with `depth` keys already
/// chosen: an empty remainder is an accepted composition of the current
/// depth; a fitting key opens a deeper scan one key deeper.
pub open spec fn depth_reached(
    d: DictionaryIndex,
    rem: Multiset<char>,
    cursor: int,
    i: int,
    depth: nat,
) -> nat
    decreases rem.len(), i,
        when d.wf() via depth_reached_decreases
{
    if rem == Multiset::<char>::empty() {
        depth
    } else if cursor < 0 || i <= cursor || i > d.entries@.len() {
        0
    } else {
        let q = i - 1;
        nmax(
            depth_reached(d, rem, cursor, i - 1, depth),
            if d.entries@[q].chars@.subset_of(rem) {
                depth_reached(
                    d,
                    rem.sub(d.entries@[q].chars@),
                    q,
                    d.entries@.len() as int,
                    depth + 1,
                )
            } else {
                0
            },
        )
    }
}

#[via_fn]
proof fn depth_reached_decreases(
    d: DictionaryIndex,
    rem: Multiset<char>,
    cursor: int,
    i: int,
    depth: nat,
) {
    if rem != Multiset::<char>::empty() && !(cursor < 0 || i <= cursor || i
        > d.entries@.len()) {
        let q = i - 1;
        let km = d.entries@[q].chars@;
        if km.subset_of(rem) {
            assert(group_wf(d.entries@[q]));
            lemma_subtract_add_inverse(rem, km);
            vstd::multiset::axiom_len_add::<char>(rem.sub(km), km);
            assert(rem.sub(km).len() < rem.len());
        }
    }
}

/// At most one fitting root per key group.
proof fn lemma_fitting_roots_bound(d: DictionaryIndex, target: Multiset<char>, upto: int)
    requires
        upto >= 0,
    ensures
        fitting_roots(d, target, upto) <= upto,
    decreases upto,
{
    if upto > 0 {
        lemma_fitting_roots_bound(d, target, upto - 1);
    }
}

/// A record that stands in a list stands in every extension of it.
proof fn lemma_extends_has_solution(s0: Seq<SolutionRecord>, s1: Seq<SolutionRecord>, p: Seq<char>)
    requires
        sols_extends(s0, s1),
        has_solution(s0, p),
    ensures
        has_solution(s1, p),
{
    let j = choose|j: int| 0 <= j < s0.len() && (#[trigger] s0[j]).anagram_phrase@ == p;
    assert(s1[j].anagram_phrase@ == p);
}

/// When the remaining multiset is empty, the chosen keys' combined letters
/// are exactly the whole target: the soundness of an accepted composition.
pub proof fn lemma_accepted_composition_exact(
    remaining: Multiset<char>,
    chosen_sum: Multiset<char>,
    target: Multiset<char>,
)
    requires
        remaining.add(chosen_sum) == target,
        remaining == Multiset::<char>::empty(),
    ensures
        chosen_sum == target,
{
    assert(Multiset::<char>::empty().add(chosen_sum) =~= chosen_sum);
}

/// Index values that never decrease along the sequence.
pub open spec fn non_decreasing(s: Seq<usize>) -> bool {
    forall|a: int, b: int| 0 <= a < b < s.len() ==> s[a] <= s[b]
}

/// A continuation of a composition from a cursor: indexes of key groups, in
/// non-decreasing order, none before the cursor.
pub open spec fn valid_ext(d: DictionaryIndex, s: Seq<usize>, cursor: int) -> bool {
    non_decreasing(s) && forall|k: int|
        0 <= k < s.len() ==> cursor <= (#[trigger] s[k]) < d.entries@.len()
}

/// Taking one chosen group out of the sequence takes exactly its letters out
/// of the combined multiset.
proof fn lemma_sum_key_remove(d: DictionaryIndex, s: Seq<usize>, i: int)
    requires
        0 <= i < s.len(),
    ensures
        sum_key_msets(d, s.remove(i)).add(d.entries@[s[i] as int].chars@) == sum_key_msets(d, s),
    decreases s.len(),
{
    let ch_i = d.entries@[s[i] as int].chars@;
    if i == s.len() - 1 {
        assert(s.remove(i) =~= s.drop_last());
    } else {
        let ch_last = d.entries@[s.last() as int].chars@;
        assert(s.remove(i).drop_last() =~= s.drop_last().remove(i));
        assert(s.remove(i).last() == s.last());
        lemma_sum_key_remove(d, s.drop_last(), i);
        assert(sum_key_msets(d, s.drop_last().remove(i)).add(ch_last).add(ch_i) =~= sum_key_msets(
            d,
            s.drop_last().remove(i),
        ).add(ch_i).add(ch_last));
    }
}

/// Reordering a composition leaves its combined letters unchanged.
proof fn lemma_sum_key_perm(d: DictionaryIndex, a: Seq<usize>, b: Seq<usize>)
    requires
        a.to_multiset() == b.to_multiset(),
    ensures
        sum_key_msets(d, a) == sum_key_msets(d, b),
    decreases a.len(),
{
    if a.len() == 0 {
        assert(a.to_multiset().len() == a.len());
        assert(b.to_multiset().len() == b.len());
        assert(b.len() == 0);
    } else {
        let x = a.last();
        assert(a.contains(x));
        assert(a.to_multiset().count(x) > 0);
        assert(b.to_multiset().count(x) > 0);
        assert(b.contains(x));
        let j = choose|j: int| 0 <= j < b.len() && b[j] == x;
        assert(b.remove(j).to_multiset() =~= b.to_multiset().remove(x));
        assert(a.drop_last().push(x) =~= a);
        assert(a.drop_last().to_multiset().insert(x) =~= a.to_multiset());
        assert(a.drop_last().to_multiset() =~= a.to_multiset().remove(x));
        lemma_sum_key_perm(d, a.drop_last(), b.remove(j));
        lemma_sum_key_remove(d, b, j);
    }
}

/// One chosen group's letters are contained in the whole sum.
proof fn lemma_sum_component(d: DictionaryIndex, s: Seq<usize>, q: int)
    requires
        0 <= q < s.len(),
    ensures
        d.entries@[s[q] as int].chars@.subset_of(sum_key_msets(d, s)),
{
    lemma_sum_key_remove(d, s, q);
}

/// Only the empty continuation sums to the empty multiset: every key group
/// holds at least one letter.
proof fn lemma_empty_sum(d: DictionaryIndex, s: Seq<usize>)
    requires
        d.wf(),
        forall|k: int| 0 <= k < s.len() ==> (#[trigger] s[k]) < d.entries@.len(),
        sum_key_msets(d, s) == Multiset::<char>::empty(),
    ensures
        s == Seq::<usize>::empty(),
{
    if s.len() > 0 {
        let ch_last = d.entries@[s.last() as int].chars@;
        assert(group_wf(d.entries@[s.last() as int]));
        vstd::multiset::axiom_len_add::<char>(sum_key_msets(d, s.drop_last()), ch_last);
        assert(sum_key_msets(d, s).len() > 0);
        assert(Multiset::<char>::empty().len() == 0);
    } else {
        assert(s =~= Seq::<usize>::empty());
    }
}

/// A rearrangement of in-range indexes stays in range.
proof fn lemma_indices_in_range(d: DictionaryIndex, a: Seq<usize>, b: Seq<usize>)
    requires
        chosen_ok(d, a),
        b.to_multiset() == a.to_multiset(),
    ensures
        chosen_ok(d, b),
{
    assert forall|k: int| 0 <= k < b.len() implies (#[trigger] b[k]) < d.entries@.len() by {
        assert(b.contains(b[k]));
        assert(b.to_multiset().count(b[k]) > 0);
        assert(a.to_multiset().count(b[k]) > 0);
        assert(a.contains(b[k]));
        let q = choose|q: int| 0 <= q < a.len() && a[q] == b[k];
        assert(a[q] < d.entries@.len());
    }
}

/// Words that are anagrams of their key groups sum to the same letters as
/// the groups themselves.
proof fn lemma_sum_words_keys(d: DictionaryIndex, ordering: Seq<usize>, wsv: Seq<Seq<char>>)
    requires
        wsv.len() == ordering.len(),
        chosen_ok(d, ordering),
        forall|k: int|
            0 <= k < wsv.len() ==> text_mset(#[trigger] wsv[k]) == d.entries@[
                ordering[k] as int
            ].chars@,
    ensures
        sum_word_msets(wsv) == sum_key_msets(d, ordering),
    decreases wsv.len(),
{
    if wsv.len() > 0 {
        lemma_sum_words_keys(d, ordering.drop_last(), wsv.drop_last());
        assert(wsv.last() == wsv[wsv.len() - 1]);
        assert(ordering.last() == ordering[ordering.len() - 1]);
    }
}

/// Render a phrase: the words joined by a single separating space, with no
/// trailing separator.
fn render_phrase(words: &Vec<String>) -> (r: String)
    requires
        words@.len() >= 1,
    ensures
        r@ == join_words(words@.map_values(|w: String| w@)),
{
    let mut s = String::new();
    let mut i: usize = 0;
    while i < words.len()
        invariant
            i <= words@.len(),
            s@ == join_words(words@.subrange(0, i as int).map_values(|w: String| w@)),
        decreases words@.len() - i,
    {
        if i > 0 {
            s.append(" ");
        }
        s.append(words[i].as_str());
        proof {
            reveal_strlit(" ");
            assert(" "@ =~= seq![' ']);
            let p = words@.subrange(0, i as int).map_values(|w: String| w@);
            let p2 = words@.subrange(0, i + 1 as int).map_values(|w: String| w@);
            assert(p2.drop_last() =~= p);
            assert(p2.last() == words@[i as int]@);
            if i == 0 {
                assert(p2.len() == 1);
                assert(s@ =~= p2[0]);
            } else {
                assert(s@ =~= join_words(p) + seq![' '] + words@[i as int]@);
            }
        }
        i = i + 1;
    }
    proof {
        assert(words@.subrange(0, words@.len() as int) =~= words@);
    }
    s
}

/// Whether a phrase text already stands among the recorded solutions.
fn has_phrase(v: &Vec<SolutionRecord>, p: &String) -> (r: bool)
    ensures
        r == exists|j: int| 0 <= j < v@.len() && (#[trigger] v@[j]).anagram_phrase@ == p@,
{
    let mut j: usize = 0;
    while j < v.len()
        invariant
            j <= v@.len(),
            forall|q: int| 0 <= q < j ==> (#[trigger] v@[q]).anagram_phrase@ != p@,
        decreases v@.len() - j,
    {
        if v[j].anagram_phrase.eq(p) {
            return true;
        }
        j = j + 1;
    }
    false
}

/// Hash a rendered phrase and record it as a solution when its digest stands
/// among the targets. Every rendered phrase counts as one composed phrase.
pub(crate) fn test_md5_checksums(
    phrase: &String,
    md5_checksums: &Vec<Vec<u8>>,
    anagram_metrics: &mut Metrics,
    start: &std::time::Instant,
    Ghost(d): Ghost<DictionaryIndex>,
    Ghost(target): Ghost<Multiset<char>>,
)
    requires
        phrase_sound(d, target, phrase@),
        metrics_ok(d, target, md5_checksums@, *old(anagram_metrics)),
    ensures
        metrics_ok(d, target, md5_checksums@, *final(anagram_metrics)),
        final(anagram_metrics).anagram_phrases_found == spec_sat_add64(
            old(anagram_metrics).anagram_phrases_found,
            1,
        ),
        final(anagram_metrics).anagram_phrases_incomplete == old(
            anagram_metrics,
        ).anagram_phrases_incomplete,
        final(anagram_metrics).anagram_roots_exhausted == old(
            anagram_metrics,
        ).anagram_roots_exhausted,
        final(anagram_metrics).anagram_phrase_max_depth == old(
            anagram_metrics,
        ).anagram_phrase_max_depth,
        final(anagram_metrics).is_done == old(anagram_metrics).is_done,
        final(anagram_metrics).compositions == old(anagram_metrics).compositions,
        sols_extends(
            old(anagram_metrics).anagram_phrase_solution@,
            final(anagram_metrics).anagram_phrase_solution@,
        ),
        ({
            let sols0 = old(anagram_metrics).anagram_phrase_solution@;
            let sols1 = final(anagram_metrics).anagram_phrase_solution@;
            if digest_listed(md5_checksums@, md5_of(phrase@)) && !has_solution(sols0, phrase@) {
                sols1.len() == sols0.len() + 1 && sols1.last().anagram_phrase@ == phrase@
                    && sols1.last().anagram_phrase_checksum@ == md5_of(phrase@)
            } else {
                sols1 == sols0
            }
        }),
        digest_listed(md5_checksums@, md5_of(phrase@)) ==> has_solution(
            final(anagram_metrics).anagram_phrase_solution@,
            phrase@,
        ),
        sols_distinct(old(anagram_metrics).anagram_phrase_solution@) ==> sols_distinct(
            final(anagram_metrics).anagram_phrase_solution@,
        ),
{
    anagram_metrics.anagram_phrases_found = sat_add64(anagram_metrics.anagram_phrases_found, 1);
    let digest = compute_md5(phrase.as_str());
    if digest_in(md5_checksums, &digest) {
        if !has_phrase(&anagram_metrics.anagram_phrase_solution, phrase) {
            let ghost pre = anagram_metrics.anagram_phrase_solution@;
            let rec = SolutionRecord {
                anagram_phrase: phrase.clone(),
                anagram_phrase_checksum: digest,
                anagram_phrase_millis: clock_elapsed_ms(start),
            };
            anagram_metrics.anagram_phrase_solution.push(rec);
            proof {
                let post = anagram_metrics.anagram_phrase_solution@;
                assert(forall|k: int| 0 <= k < pre.len() ==> post[k] == pre[k]);
                assert(post.last().anagram_phrase@ == phrase@);
                assert(has_solution(post, phrase@));
                if sols_distinct(pre) {
                    assert forall|a: int, b: int| 0 <= a < b < post.len() implies post[
                        a
                    ].anagram_phrase@ != post[b].anagram_phrase@ by {
                        if b == post.len() - 1 {
                            assert(!has_solution(pre, phrase@));
                            assert(pre[a].anagram_phrase@ != phrase@);
                        }
                    }
                }
            }
        } else {
            proof {
                assert(has_solution(anagram_metrics.anagram_phrase_solution@, phrase@));
            }
        }
    } else {
        proof {
            assert(!digest_listed(md5_checksums@, md5_of(phrase@)));
        }
    }
}

/// How many concrete phrases the expansion of positions `idx..` of an
/// ordering yields: the product of the groups' word counts.
pub open spec fn prod_words_from(d: DictionaryIndex, ordering: Seq<usize>, idx: int) -> nat
    decreases ordering.len() - idx,
{
    if idx < 0 || idx >= ordering.len() {
        1
    } else {
        d.entries@[ordering[idx] as int].words@.len() * prod_words_from(d, ordering, idx + 1)
    }
}

/// All chosen words so far are dictionary words of the groups the ordering
/// names, anagrams of their keys.
pub open spec fn words_match(
    d: DictionaryIndex,
    ordering: Seq<usize>,
    ws: Seq<String>,
) -> bool {
    forall|k: int|
        0 <= k < ws.len() ==> dict_word(d, (#[trigger] ws[k])@) && text_mset(ws[k]@) == d.entries@[
            ordering[k] as int
        ].chars@
}

/// Depth-first cartesian expansion of an ordering of key groups into concrete
/// phrases: choose one word for each position in turn; at a full selection,
/// render the phrase and test its checksum. Exactly the product of the
/// remaining groups' word counts is composed, and every choice whose phrase's
/// digest is listed ends recorded.
pub(crate) fn permutate_anagram_words(
    lookups: &DictionaryIndex,
    md5_checksums: &Vec<Vec<u8>>,
    anagram_metrics: &mut Metrics,
    ordering: &Vec<usize>,
    resume_idx: usize,
    anagram_phrase_vec: &mut Vec<String>,
    start: &std::time::Instant,
    Ghost(target): Ghost<Multiset<char>>,
)
    requires
        lookups.wf(),
        chosen_ok(*lookups, ordering@),
        ordering@.len() >= 1,
        sum_key_msets(*lookups, ordering@) == target,
        resume_idx <= ordering@.len(),
        old(anagram_phrase_vec)@.len() == resume_idx,
        words_match(*lookups, ordering@, old(anagram_phrase_vec)@),
        metrics_ok(*lookups, target, md5_checksums@, *old(anagram_metrics)),
    ensures
        final(anagram_phrase_vec)@ == old(anagram_phrase_vec)@,
        metrics_ok(*lookups, target, md5_checksums@, *final(anagram_metrics)),
        final(anagram_metrics).anagram_phrases_found == sat64(
            old(anagram_metrics).anagram_phrases_found as nat + prod_words_from(
                *lookups,
                ordering@,
                resume_idx as int,
            ),
        ),
        final(anagram_metrics).anagram_phrases_incomplete == old(
            anagram_metrics,
        ).anagram_phrases_incomplete,
        final(anagram_metrics).anagram_roots_exhausted == old(
            anagram_metrics,
        ).anagram_roots_exhausted,
        final(anagram_metrics).anagram_phrase_max_depth == old(
            anagram_metrics,
        ).anagram_phrase_max_depth,
        final(anagram_metrics).is_done == old(anagram_metrics).is_done,
        final(anagram_metrics).compositions == old(anagram_metrics).compositions,
        sols_extends(
            old(anagram_metrics).anagram_phrase_solution@,
            final(anagram_metrics).anagram_phrase_solution@,
        ),
        sols_distinct(old(anagram_metrics).anagram_phrase_solution@) ==> sols_distinct(
            final(anagram_metrics).anagram_phrase_solution@,
        ),
        forall|choice: Seq<int>|
            #![trigger chosen_words(*lookups, ordering@.subrange(resume_idx as int, ordering@.len() as int), choice)]
            choice_ok(
                *lookups,
                ordering@.subrange(resume_idx as int, ordering@.len() as int),
                choice,
            ) && digest_listed(
                md5_checksums@,
                md5_of(
                    join_words(
                        old(anagram_phrase_vec)@.map_values(|w: String| w@) + chosen_words(
                            *lookups,
                            ordering@.subrange(resume_idx as int, ordering@.len() as int),
                            choice,
                        ),
                    ),
                ),
            ) ==> has_solution(
                final(anagram_metrics).anagram_phrase_solution@,
                join_words(
                    old(anagram_phrase_vec)@.map_values(|w: String| w@) + chosen_words(
                        *lookups,
                        ordering@.subrange(resume_idx as int, ordering@.len() as int),
                        choice,
                    ),
                ),
            ),
    decreases ordering@.len() - resume_idx,
{
    let ghost suffix = ordering@.subrange(resume_idx as int, ordering@.len() as int);
    let ghost pv = old(anagram_phrase_vec)@.map_values(|w: String| w@);
    if resume_idx >= ordering.len() {
        proof {
            assert(prod_words_from(*lookups, ordering@, resume_idx as int) == 1);
        }
        let phrase = render_phrase(anagram_phrase_vec);
        proof {
            let wsv = anagram_phrase_vec@.map_values(|w: String| w@);
            assert(wsv.len() == ordering@.len());
            assert forall|k: int| 0 <= k < wsv.len() implies text_mset(#[trigger] wsv[k])
                == lookups.entries@[ordering@[k] as int].chars@ by {
                assert(words_match(*lookups, ordering@, anagram_phrase_vec@));
                assert(wsv[k] == anagram_phrase_vec@[k]@);
            }
            lemma_sum_words_keys(*lookups, ordering@, wsv);
            assert(forall|k: int| 0 <= k < wsv.len() ==> dict_word(*lookups, #[trigger] wsv[k]));
            assert(phrase_sound(*lookups, target, phrase@));
        }
        test_md5_checksums(
            &phrase,
            md5_checksums,
            anagram_metrics,
            start,
            Ghost(*lookups),
            Ghost(target),
        );
        proof {
            // the one choice with no position left is the rendered phrase
            assert forall|choice: Seq<int>|
                choice_ok(*lookups, suffix, choice) && digest_listed(
                    md5_checksums@,
                    md5_of(join_words(pv + chosen_words(*lookups, suffix, choice))),
                ) implies has_solution(
                anagram_metrics.anagram_phrase_solution@,
                join_words(pv + chosen_words(*lookups, suffix, choice)),
            ) by {
                assert(chosen_words(*lookups, suffix, choice) =~= Seq::<Seq<char>>::empty());
                assert(pv + chosen_words(*lookups, suffix, choice) =~= pv);
                assert(join_words(pv + chosen_words(*lookups, suffix, choice)) == phrase@);
            }
        }
        return ;
    }
    let key_index = ordering[resume_idx];
    proof {
        assert(group_wf(lookups.entries@[key_index as int]));
    }
    let group_word_count = lookups.entries[key_index].words.len();
    let mut widx: usize = 0;
    while widx < group_word_count
        invariant
            widx <= group_word_count,
            lookups.wf(),
            chosen_ok(*lookups, ordering@),
            ordering@.len() >= 1,
            sum_key_msets(*lookups, ordering@) == target,
            resume_idx < ordering@.len(),
            ordering@.len() <= usize::MAX,
            key_index == ordering@[resume_idx as int],
            key_index < lookups.entries@.len(),
            group_word_count == lookups.entries@[key_index as int].words@.len(),
            anagram_phrase_vec@ == old(anagram_phrase_vec)@,
            anagram_phrase_vec@.len() == resume_idx,
            words_match(*lookups, ordering@, anagram_phrase_vec@),
            metrics_ok(*lookups, target, md5_checksums@, *anagram_metrics),
            anagram_metrics.anagram_phrases_found == sat64(
                (old(anagram_metrics).anagram_phrases_found + widx * prod_words_from(
                    *lookups,
                    ordering@,
                    resume_idx + 1,
                )) as nat,
            ),
            anagram_metrics.anagram_phrases_incomplete == old(
                anagram_metrics,
            ).anagram_phrases_incomplete,
            anagram_metrics.anagram_roots_exhausted == old(
                anagram_metrics,
            ).anagram_roots_exhausted,
            anagram_metrics.anagram_phrase_max_depth == old(
                anagram_metrics,
            ).anagram_phrase_max_depth,
            anagram_metrics.is_done == old(anagram_metrics).is_done,
            anagram_metrics.compositions == old(anagram_metrics).compositions,
            suffix == ordering@.subrange(resume_idx as int, ordering@.len() as int),
            pv == old(anagram_phrase_vec)@.map_values(|w: String| w@),
            sols_extends(
                old(anagram_metrics).anagram_phrase_solution@,
                anagram_metrics.anagram_phrase_solution@,
            ),
            sols_distinct(old(anagram_metrics).anagram_phrase_solution@) ==> sols_distinct(
                anagram_metrics.anagram_phrase_solution@,
            ),
            forall|choice: Seq<int>|
                #![trigger chosen_words(*lookups, suffix, choice)]
                choice_ok(*lookups, suffix, choice) && 0 <= choice[0] < widx && digest_listed(
                    md5_checksums@,
                    md5_of(join_words(pv + chosen_words(*lookups, suffix, choice))),
                ) ==> has_solution(
                    anagram_metrics.anagram_phrase_solution@,
                    join_words(pv + chosen_words(*lookups, suffix, choice)),
                ),
        decreases group_word_count - widx,
    {
        let ghost sols_at_top = anagram_metrics.anagram_phrase_solution@;
        let word = lookups.entries[key_index].words[widx].clone();
        let ghost wv = lookups.entries@[key_index as int].words@[widx as int]@;
        let ghost before = anagram_phrase_vec@;
        anagram_phrase_vec.push(word);
        let ghost pushed = anagram_phrase_vec@;
        proof {
            assert(group_wf(lookups.entries@[key_index as int]));
            assert(anagram_phrase_vec@.drop_last() =~= before);
            assert forall|k: int| 0 <= k < anagram_phrase_vec@.len() implies dict_word(
                *lookups,
                (#[trigger] anagram_phrase_vec@[k])@,
            ) && text_mset(anagram_phrase_vec@[k]@) == lookups.entries@[
                ordering@[k] as int
            ].chars@ by {
                if k < before.len() {
                    assert(anagram_phrase_vec@[k] == before[k]);
                } else {
                    assert(anagram_phrase_vec@[k]@ == lookups.entries@[key_index as int].words@[
                        widx as int
                    ]@);
                    assert(dict_word(*lookups, anagram_phrase_vec@[k]@));
                }
            }
        }
        permutate_anagram_words(
            lookups,
            md5_checksums,
            anagram_metrics,
            ordering,
            resume_idx + 1,
            anagram_phrase_vec,
            start,
            Ghost(target),
        );
        anagram_phrase_vec.pop();
        proof {
            assert(anagram_phrase_vec@ =~= before);
            let f0 = old(anagram_metrics).anagram_phrases_found as nat;
            let p = prod_words_from(*lookups, ordering@, resume_idx + 1);
            lemma_sat64_chain((f0 + widx * p) as nat, p);
            assert((widx + 1) * p == widx * p + p) by (nonlinear_arith);
            assert(anagram_metrics.anagram_phrases_found == sat64((f0 + (widx + 1) * p) as nat));
            // coverage: the choices that pick this word at the cursor were
            // all expanded by the deeper call
            let suffix2 = ordering@.subrange(resume_idx as int + 1, ordering@.len() as int);
            let pv2 = pushed.map_values(|w: String| w@);
            assert(pushed.drop_last() =~= before);
            assert(pushed.last()@ == wv);
            assert(pv2 =~= pv.push(wv));
            assert forall|choice: Seq<int>|
                #![trigger chosen_words(*lookups, suffix, choice)]
                choice_ok(*lookups, suffix, choice) && 0 <= choice[0] < widx + 1 && digest_listed(
                    md5_checksums@,
                    md5_of(join_words(pv + chosen_words(*lookups, suffix, choice))),
                ) implies has_solution(
                anagram_metrics.anagram_phrase_solution@,
                join_words(pv + chosen_words(*lookups, suffix, choice)),
            ) by {
                if choice[0] < widx {
                    lemma_extends_has_solution(
                        sols_at_top,
                        anagram_metrics.anagram_phrase_solution@,
                        join_words(pv + chosen_words(*lookups, suffix, choice)),
                    );
                } else {
                    let choice2 = choice.drop_first();
                    assert forall|k: int| 0 <= k < choice2.len() implies 0 <= (
                    #[trigger] choice2[k]) < lookups.entries@[
                        suffix2[k] as int
                    ].words@.len() by {
                        assert(choice2[k] == choice[k + 1]);
                        assert(suffix2[k] == suffix[k + 1]);
                    }
                    assert(choice_ok(*lookups, suffix2, choice2));
                    assert(chosen_words(*lookups, suffix, choice) =~= seq![wv] + chosen_words(
                        *lookups,
                        suffix2,
                        choice2,
                    )) by {
                        assert forall|k: int|
                            0 <= k < choice.len() implies chosen_words(
                            *lookups,
                            suffix,
                            choice,
                        )[k] == (seq![wv] + chosen_words(*lookups, suffix2, choice2))[k] by {
                            if k > 0 {
                                assert(suffix[k] == suffix2[k - 1]);
                                assert(choice[k] == choice2[k - 1]);
                            }
                        }
                    }
                    assert((pv + chosen_words(*lookups, suffix, choice)) =~= (pv2 + chosen_words(
                        *lookups,
                        suffix2,
                        choice2,
                    )));
                }
            }
        }
        widx = widx + 1;
    }
    proof {
        let p = prod_words_from(*lookups, ordering@, resume_idx + 1);
        assert(prod_words_from(*lookups, ordering@, resume_idx as int) == group_word_count * p);
        // every choice at this level picks one of the group's words
        assert forall|choice: Seq<int>|
            choice_ok(*lookups, suffix, choice) && digest_listed(
                md5_checksums@,
                md5_of(join_words(pv + chosen_words(*lookups, suffix, choice))),
            ) implies has_solution(
            anagram_metrics.anagram_phrase_solution@,
            join_words(pv + chosen_words(*lookups, suffix, choice)),
        ) by {
            assert(suffix[0] == ordering@[resume_idx as int]);
            assert(0 <= choice[0] < group_word_count);
        }
    }
}

/// The recursive combination search: scan the ordered key list from the
/// cursor on; subtract each key that fits, recurse without advancing the
/// cursor past it, and undo the subtraction afterwards. When the remaining
/// multiset is empty, the chosen composition is permuted and expanded. The
/// ghost composition set gains exactly the accepted compositions; every
/// listed phrase of every reachable composition is recorded; and the
/// rejected counter grows by exactly one per failed pre-check, so a failed
/// key opens no deeper scan.
pub fn traverse_anagram_phrases(
    anagram_search: &mut CharMultiset,
    lookups: &DictionaryIndex,
    md5_checksums: &Vec<Vec<u8>>,
    anagram_metrics: &mut Metrics,
    anagrams_collected: &mut Vec<usize>,
    resume_index: usize,
    start: &std::time::Instant,
    Ghost(target): Ghost<Multiset<char>>,
)
    requires
        old(anagram_search).wf(),
        lookups.wf(),
        chosen_ok(*lookups, old(anagrams_collected)@),
        old(anagrams_collected)@.len() >= 1,
        old(anagram_search)@.add(sum_key_msets(*lookups, old(anagrams_collected)@)) == target,
        forall|c: char| target.count(c) <= u32::MAX,
        old(anagrams_collected)@.len() + old(anagram_search)@.len() <= u32::MAX,
        metrics_ok(*lookups, target, md5_checksums@, *old(anagram_metrics)),
    ensures
        final(anagram_search).wf(),
        final(anagram_search)@ == old(anagram_search)@,
        final(anagrams_collected)@ == old(anagrams_collected)@,
        metrics_ok(*lookups, target, md5_checksums@, *final(anagram_metrics)),
        final(anagram_metrics).anagram_roots_exhausted == old(
            anagram_metrics,
        ).anagram_roots_exhausted,
        final(anagram_metrics).is_done == old(anagram_metrics).is_done,
        final(anagram_metrics).anagram_phrases_incomplete == sat64(
            old(anagram_metrics).anagram_phrases_incomplete as nat + rejected_count(
                *lookups,
                old(anagram_search)@,
                resume_index as int,
                lookups.entries@.len() as int,
            ),
        ),
        final(anagram_metrics).anagram_phrase_max_depth as nat == nmax(
            old(anagram_metrics).anagram_phrase_max_depth as nat,
            depth_reached(
                *lookups,
                old(anagram_search)@,
                resume_index as int,
                lookups.entries@.len() as int,
                old(anagrams_collected)@.len() as nat,
            ),
        ),
        old(anagram_metrics).compositions@.subset_of(final(anagram_metrics).compositions@),
        forall|ext: Seq<usize>|
            valid_ext(*lookups, ext, resume_index as int) && #[trigger] sum_key_msets(
                *lookups,
                ext,
            ) == old(anagram_search)@ ==> final(anagram_metrics).compositions@.contains(
                old(anagrams_collected)@ + ext,
            ),
        forall|comp: Seq<usize>|
            #![trigger final(anagram_metrics).compositions@.contains(comp)]
            final(anagram_metrics).compositions@.contains(comp) && !old(
                anagram_metrics,
            ).compositions@.contains(comp) ==> sum_key_msets(*lookups, comp) == target,
        sols_extends(
            old(anagram_metrics).anagram_phrase_solution@,
            final(anagram_metrics).anagram_phrase_solution@,
        ),
        sols_distinct(old(anagram_metrics).anagram_phrase_solution@) ==> sols_distinct(
            final(anagram_metrics).anagram_phrase_solution@,
        ),
        forall|ext: Seq<usize>, perm: Seq<usize>, choice: Seq<int>|
            #![trigger sum_key_msets(*lookups, ext), chosen_words(*lookups, perm, choice)]
            valid_ext(*lookups, ext, resume_index as int) && sum_key_msets(*lookups, ext) == old(
                anagram_search,
            )@ && perm.to_multiset() == (old(anagrams_collected)@ + ext).to_multiset()
                && choice_ok(*lookups, perm, choice) && digest_listed(
                md5_checksums@,
                md5_of(join_words(chosen_words(*lookups, perm, choice))),
            ) ==> has_solution(
                final(anagram_metrics).anagram_phrase_solution@,
                join_words(chosen_words(*lookups, perm, choice)),
            ),
    decreases old(anagram_search)@.len(),
{
    let ghost rem0 = anagram_search@;
    let ghost chosen0 = anagrams_collected@;
    let ghost sols0 = anagram_metrics.anagram_phrase_solution@;
    if chars_empty(&*anagram_search) {
        proof {
            lemma_accepted_composition_exact(
                anagram_search@,
                sum_key_msets(*lookups, anagrams_collected@),
                target,
            );
        }
        if anagrams_collected.len() > anagram_metrics.anagram_phrase_max_depth as usize {
            anagram_metrics.anagram_phrase_max_depth = anagrams_collected.len() as u32;
        }
        anagram_metrics.compositions = Ghost(
            anagram_metrics.compositions@.insert(anagrams_collected@),
        );
        let ghost comp_snap = anagram_metrics.compositions@;
        proof {
            // an empty remaining multiset accepts only the empty continuation
            assert forall|ext: Seq<usize>|
                valid_ext(*lookups, ext, resume_index as int) && #[trigger] sum_key_msets(
                    *lookups,
                    ext,
                ) == rem0 implies comp_snap.contains(chosen0 + ext) by {
                lemma_empty_sum(*lookups, ext);
                assert(chosen0 + ext =~= chosen0);
            }
            // an empty remaining multiset rejects nothing
            assert(rejected_count(
                *lookups,
                rem0,
                resume_index as int,
                lookups.entries@.len() as int,
            ) == 0);
            // the one new member of the set is the accepted composition, and
            // its letters are exactly the target
            assert(sum_key_msets(*lookups, chosen0) == target);
            assert forall|comp: Seq<usize>|
                comp_snap.contains(comp) && !old(anagram_metrics).compositions@.contains(
                    comp,
                ) implies sum_key_msets(*lookups, comp) == target by {
                if comp != chosen0 {
                    assert(old(anagram_metrics).compositions@.contains(comp));
                }
            }
        }
        let mut orderings: Vec<Vec<usize>> = Vec::new();
        permutate_anagram_sorted(anagrams_collected, 0, &mut orderings);
        let total = orderings.len();
        let mut oi: usize = 0;
        while oi < total
            invariant
                oi <= total,
                total == orderings@.len(),
                lookups.wf(),
                anagram_search.wf(),
                anagram_search@ == rem0,
                rem0 == old(anagram_search)@,
                chosen0 == old(anagrams_collected)@,
                anagrams_collected@ == chosen0,
                chosen0.len() >= 1,
                chosen_ok(*lookups, chosen0),
                sum_key_msets(*lookups, chosen0) == target,
                forall|k: int|
                    0 <= k < orderings@.len() ==> (#[trigger] orderings@[k])@.to_multiset()
                        == chosen0.to_multiset() && orderings@[k]@.len() == chosen0.len(),
                metrics_ok(*lookups, target, md5_checksums@, *anagram_metrics),
                anagram_metrics.anagram_roots_exhausted == old(
                    anagram_metrics,
                ).anagram_roots_exhausted,
                anagram_metrics.is_done == old(anagram_metrics).is_done,
                anagram_metrics.anagram_phrases_incomplete == old(
                    anagram_metrics,
                ).anagram_phrases_incomplete,
                anagram_metrics.anagram_phrase_max_depth as nat == nmax(
                    old(anagram_metrics).anagram_phrase_max_depth as nat,
                    chosen0.len() as nat,
                ),
                anagram_metrics.compositions@ == comp_snap,
                sols0 == old(anagram_metrics).anagram_phrase_solution@,
                sols_extends(sols0, anagram_metrics.anagram_phrase_solution@),
                sols_distinct(sols0) ==> sols_distinct(
                    anagram_metrics.anagram_phrase_solution@,
                ),
                forall|ko: int, choice: Seq<int>|
                    #![trigger chosen_words(*lookups, orderings@[ko]@, choice)]
                    0 <= ko < oi && choice_ok(*lookups, orderings@[ko]@, choice)
                        && digest_listed(
                        md5_checksums@,
                        md5_of(join_words(chosen_words(*lookups, orderings@[ko]@, choice))),
                    ) ==> has_solution(
                        anagram_metrics.anagram_phrase_solution@,
                        join_words(chosen_words(*lookups, orderings@[ko]@, choice)),
                    ),
            decreases total - oi,
        {
            let ordering = &orderings[oi];
            proof {
                lemma_indices_in_range(*lookups, chosen0, ordering@);
                lemma_sum_key_perm(*lookups, chosen0, ordering@);
            }
            let ghost sols_top = anagram_metrics.anagram_phrase_solution@;
            let mut anagram_phrase_vec: Vec<String> = Vec::new();
            permutate_anagram_words(
                lookups,
                md5_checksums,
                anagram_metrics,
                ordering,
                0,
                &mut anagram_phrase_vec,
                start,
                Ghost(target),
            );
            proof {
                let whole = ordering@.subrange(0, ordering@.len() as int);
                assert(whole =~= ordering@);
                let pv0 = Seq::<String>::empty().map_values(|w: String| w@);
                assert(pv0 =~= Seq::<Seq<char>>::empty());
                assert forall|ko: int, choice: Seq<int>|
                    #![trigger chosen_words(*lookups, orderings@[ko]@, choice)]
                    0 <= ko < oi + 1 && choice_ok(*lookups, orderings@[ko]@, choice)
                        && digest_listed(
                        md5_checksums@,
                        md5_of(join_words(chosen_words(*lookups, orderings@[ko]@, choice))),
                    ) implies has_solution(
                    anagram_metrics.anagram_phrase_solution@,
                    join_words(chosen_words(*lookups, orderings@[ko]@, choice)),
                ) by {
                    if ko < oi {
                        lemma_extends_has_solution(
                            sols_top,
                            anagram_metrics.anagram_phrase_solution@,
                            join_words(chosen_words(*lookups, orderings@[ko]@, choice)),
                        );
                    } else {
                        assert(orderings@[ko]@ == ordering@);
                        assert(chosen_words(*lookups, whole, choice) == chosen_words(
                            *lookups,
                            ordering@,
                            choice,
                        ));
                        assert(pv0 + chosen_words(*lookups, whole, choice) =~= chosen_words(
                            *lookups,
                            whole,
                            choice,
                        ));
                    }
                }
            }
            oi = oi + 1;
        }
        proof {
            // every arrangement of the accepted composition was generated, so
            // every listed phrase of the composition was recorded
            assert forall|ext: Seq<usize>, perm: Seq<usize>, choice: Seq<int>|
                #![trigger sum_key_msets(*lookups, ext), chosen_words(*lookups, perm, choice)]
                valid_ext(*lookups, ext, resume_index as int) && sum_key_msets(*lookups, ext)
                    == rem0 && perm.to_multiset() == (chosen0 + ext).to_multiset() && choice_ok(
                    *lookups,
                    perm,
                    choice,
                ) && digest_listed(
                    md5_checksums@,
                    md5_of(join_words(chosen_words(*lookups, perm, choice))),
                ) implies has_solution(
                anagram_metrics.anagram_phrase_solution@,
                join_words(chosen_words(*lookups, perm, choice)),
            ) by {
                lemma_empty_sum(*lookups, ext);
                assert(chosen0 + ext =~= chosen0);
                assert(perm.to_multiset() == chosen0.to_multiset());
                assert(perm.to_multiset().len() == perm.len());
                assert(chosen0.to_multiset().len() == chosen0.len());
                assert(perm.subrange(0, 0) =~= chosen0.subrange(0, 0));
                let ko = choose|ko: int|
                    0 <= ko < orderings@.len() && (#[trigger] orderings@[ko])@ == perm;
                assert(chosen_words(*lookups, orderings@[ko]@, choice) == chosen_words(
                    *lookups,
                    perm,
                    choice,
                ));
            }
        }
        return ;
    }
    let key_total = lookups.entries.len();
    let mut i: usize = resume_index;
    while i < key_total
        invariant
            resume_index <= i,
            i <= key_total || i == resume_index,
            key_total == lookups.entries@.len(),
            lookups.wf(),
            anagram_search.wf(),
            anagram_search@ == rem0,
            rem0 == old(anagram_search)@,
            chosen0 == old(anagrams_collected)@,
            anagrams_collected@ == chosen0,
            chosen0.len() >= 1,
            chosen_ok(*lookups, chosen0),
            rem0.add(sum_key_msets(*lookups, chosen0)) == target,
            forall|c: char| target.count(c) <= u32::MAX,
            chosen0.len() + rem0.len() <= u32::MAX,
            metrics_ok(*lookups, target, md5_checksums@, *anagram_metrics),
            anagram_metrics.anagram_roots_exhausted == old(
                anagram_metrics,
            ).anagram_roots_exhausted,
            anagram_metrics.is_done == old(anagram_metrics).is_done,
            anagram_metrics.anagram_phrases_incomplete == sat64(
                old(anagram_metrics).anagram_phrases_incomplete as nat + rejected_count(
                    *lookups,
                    rem0,
                    resume_index as int,
                    i as int,
                ),
            ),
            anagram_metrics.anagram_phrase_max_depth as nat == nmax(
                old(anagram_metrics).anagram_phrase_max_depth as nat,
                depth_reached(*lookups, rem0, resume_index as int, i as int, chosen0.len() as nat),
            ),
            rem0 != Multiset::<char>::empty(),
            old(anagram_metrics).compositions@.subset_of(anagram_metrics.compositions@),
            forall|comp: Seq<usize>|
                #![trigger anagram_metrics.compositions@.contains(comp)]
                anagram_metrics.compositions@.contains(comp) && !old(
                    anagram_metrics,
                ).compositions@.contains(comp) ==> sum_key_msets(*lookups, comp) == target,
            sols0 == old(anagram_metrics).anagram_phrase_solution@,
            sols_extends(sols0, anagram_metrics.anagram_phrase_solution@),
            sols_distinct(sols0) ==> sols_distinct(anagram_metrics.anagram_phrase_solution@),
            forall|ext: Seq<usize>, perm: Seq<usize>, choice: Seq<int>|
                #![trigger sum_key_msets(*lookups, ext), chosen_words(*lookups, perm, choice)]
                valid_ext(*lookups, ext, resume_index as int) && sum_key_msets(*lookups, ext)
                    == rem0 && ext.len() > 0 && ext[0] < i && perm.to_multiset() == (chosen0
                    + ext).to_multiset() && choice_ok(*lookups, perm, choice) && digest_listed(
                    md5_checksums@,
                    md5_of(join_words(chosen_words(*lookups, perm, choice))),
                ) ==> has_solution(
                    anagram_metrics.anagram_phrase_solution@,
                    join_words(chosen_words(*lookups, perm, choice)),
                ),
            forall|ext: Seq<usize>|
                valid_ext(*lookups, ext, resume_index as int) && #[trigger] sum_key_msets(
                    *lookups,
                    ext,
                ) == rem0 && ext.len() > 0 && ext[0] < i ==> anagram_metrics.compositions@.contains(
                    chosen0 + ext,
                ),
        decreases key_total - i,
    {
        let ghost comp_before = anagram_metrics.compositions@;
        let ghost sols_top = anagram_metrics.anagram_phrase_solution@;
        proof {
            assert(group_wf(lookups.entries@[i as int]));
        }
        if subtract_chars(anagram_search, &lookups.entries[i].chars) {
            let ghost km = lookups.entries@[i as int].chars@;
            anagrams_collected.push(i);
            let ghost chosen1 = anagrams_collected@;
            proof {
                assert(chosen1.drop_last() =~= chosen0);
                assert(chosen1.last() == i);
                assert(sum_key_msets(*lookups, chosen1) == sum_key_msets(*lookups, chosen0).add(
                    km,
                ));
                // the invariant of the deeper call: remaining plus chosen sum
                // is still the whole target
                assert(anagram_search@.add(sum_key_msets(*lookups, chosen1)) =~= rem0.add(
                    sum_key_msets(*lookups, chosen0),
                ));
                // the remaining multiset shrank by at least one letter
                lemma_subtract_add_inverse(rem0, km);
                vstd::multiset::axiom_len_add::<char>(rem0.sub(km), km);
                assert(km.len() > 0);
                assert(anagram_search@.len() < rem0.len());
                assert(chosen1.len() + anagram_search@.len() <= u32::MAX);
            }
            let ghost rem_after = anagram_search@;
            traverse_anagram_phrases(
                anagram_search,
                lookups,
                md5_checksums,
                anagram_metrics,
                anagrams_collected,
                i,
                start,
                Ghost(target),
            );
            anagrams_collected.pop();
            add_chars(anagram_search, &lookups.entries[i].chars);
            proof {
                assert(anagrams_collected@ =~= chosen0);
                lemma_subtract_add_inverse(rem0, km);
                assert(comp_before.subset_of(anagram_metrics.compositions@));
                // completeness: a continuation that starts at this key was
                // handed whole to the deeper call
                assert forall|ext: Seq<usize>|
                    valid_ext(*lookups, ext, resume_index as int) && #[trigger] sum_key_msets(
                        *lookups,
                        ext,
                    ) == rem0 && ext.len() > 0 && ext[0] < i + 1 implies anagram_metrics
                    .compositions@.contains(chosen0 + ext) by {
                    if ext[0] < i {
                        assert(comp_before.contains(chosen0 + ext));
                    } else {
                        let ext2 = ext.drop_first();
                        assert(ext.remove(0) =~= ext2);
                        lemma_sum_key_remove(*lookups, ext, 0);
                        assert(sum_key_msets(*lookups, ext2).add(km) == rem0);
                        assert(sum_key_msets(*lookups, ext2) =~= rem_after);
                        assert forall|k: int| 0 <= k < ext2.len() implies i as int <= (
                        #[trigger] ext2[k]) < lookups.entries@.len() by {
                            assert(ext2[k] == ext[k + 1]);
                            assert(ext[0] <= ext[k + 1]);
                        }
                        assert forall|a: int, b: int| 0 <= a < b < ext2.len() implies ext2[a]
                            <= ext2[b] by {
                            assert(ext2[a] == ext[a + 1] && ext2[b] == ext[b + 1]);
                        }
                        assert(valid_ext(*lookups, ext2, i as int));
                        assert(sum_key_msets(*lookups, ext2) == rem_after);
                        assert(anagram_metrics.compositions@.contains(chosen1 + ext2));
                        assert(chosen1 + ext2 =~= chosen0 + ext);
                    }
                }
                assert forall|comp: Seq<usize>|
                    anagram_metrics.compositions@.contains(comp) && !old(
                        anagram_metrics,
                    ).compositions@.contains(comp) implies sum_key_msets(*lookups, comp)
                    == target by {
                    if comp_before.contains(comp) {
                    }
                }
                // the rejected counter grew by exactly the deeper scan's count
                let inc0 = old(anagram_metrics).anagram_phrases_incomplete as nat;
                let rc = rejected_count(*lookups, rem0, resume_index as int, i as int);
                let sub_rc = rejected_count(
                    *lookups,
                    rem_after,
                    i as int,
                    lookups.entries@.len() as int,
                );
                lemma_sat64_chain((inc0 + rc) as nat, sub_rc);
                assert(rejected_count(*lookups, rem0, resume_index as int, i as int + 1) == rc
                    + sub_rc);
                assert(anagram_metrics.anagram_phrases_incomplete == sat64(
                    (inc0 + rc + sub_rc) as nat,
                ));
                // the deepest accepted composition so far
                let md0 = old(anagram_metrics).anagram_phrase_max_depth as nat;
                let dr = depth_reached(
                    *lookups,
                    rem0,
                    resume_index as int,
                    i as int,
                    chosen0.len() as nat,
                );
                let sub_dr = depth_reached(
                    *lookups,
                    rem_after,
                    i as int,
                    lookups.entries@.len() as int,
                    chosen1.len() as nat,
                );
                assert(chosen1.len() == chosen0.len() + 1);
                assert(depth_reached(
                    *lookups,
                    rem0,
                    resume_index as int,
                    i as int + 1,
                    chosen0.len() as nat,
                ) == nmax(dr, sub_dr));
                assert(anagram_metrics.anagram_phrase_max_depth as nat == nmax(
                    md0,
                    nmax(dr, sub_dr),
                ));
                // phrase completeness: continuations starting at this key were
                // fully expanded by the deeper call
                assert(sols_extends(sols_top, anagram_metrics.anagram_phrase_solution@));
                assert forall|ext: Seq<usize>, perm: Seq<usize>, choice: Seq<int>|
                    #![trigger sum_key_msets(*lookups, ext), chosen_words(*lookups, perm, choice)]
                    valid_ext(*lookups, ext, resume_index as int) && sum_key_msets(*lookups, ext)
                        == rem0 && ext.len() > 0 && ext[0] < i + 1 && perm.to_multiset() == (
                    chosen0 + ext).to_multiset() && choice_ok(*lookups, perm, choice)
                        && digest_listed(
                        md5_checksums@,
                        md5_of(join_words(chosen_words(*lookups, perm, choice))),
                    ) implies has_solution(
                    anagram_metrics.anagram_phrase_solution@,
                    join_words(chosen_words(*lookups, perm, choice)),
                ) by {
                    if ext[0] < i {
                        lemma_extends_has_solution(
                            sols_top,
                            anagram_metrics.anagram_phrase_solution@,
                            join_words(chosen_words(*lookups, perm, choice)),
                        );
                    } else {
                        let ext2 = ext.drop_first();
                        assert(ext.remove(0) =~= ext2);
                        lemma_sum_key_remove(*lookups, ext, 0);
                        assert(sum_key_msets(*lookups, ext2).add(km) == rem0);
                        assert(sum_key_msets(*lookups, ext2) =~= rem_after);
                        assert forall|k: int| 0 <= k < ext2.len() implies i as int <= (
                        #[trigger] ext2[k]) < lookups.entries@.len() by {
                            assert(ext2[k] == ext[k + 1]);
                            assert(ext[0] <= ext[k + 1]);
                        }
                        assert forall|a: int, b: int| 0 <= a < b < ext2.len() implies ext2[a]
                            <= ext2[b] by {
                            assert(ext2[a] == ext[a + 1] && ext2[b] == ext[b + 1]);
                        }
                        assert(valid_ext(*lookups, ext2, i as int));
                        assert(sum_key_msets(*lookups, ext2) == rem_after);
                        assert(chosen1 + ext2 =~= chosen0 + ext);
                        assert(perm.to_multiset() == (chosen1 + ext2).to_multiset());
                    }
                }
            }
        } else {
            anagram_metrics.anagram_phrases_incomplete = sat_add64(
                anagram_metrics.anagram_phrases_incomplete,
                1,
            );
            proof {
                // exactly one more rejection
                let inc0 = old(anagram_metrics).anagram_phrases_incomplete as nat;
                let rc = rejected_count(*lookups, rem0, resume_index as int, i as int);
                lemma_sat64_chain((inc0 + rc) as nat, 1);
                assert(rejected_count(*lookups, rem0, resume_index as int, i as int + 1) == rc
                    + 1);
                assert(anagram_metrics.anagram_phrases_incomplete == sat64(
                    (inc0 + rc + 1) as nat,
                ));
                assert(depth_reached(
                    *lookups,
                    rem0,
                    resume_index as int,
                    i as int + 1,
                    chosen0.len() as nat,
                ) == depth_reached(
                    *lookups,
                    rem0,
                    resume_index as int,
                    i as int,
                    chosen0.len() as nat,
                ));
                // no continuation can start at a key whose letters do not fit
                assert forall|ext: Seq<usize>|
                    valid_ext(*lookups, ext, resume_index as int) && #[trigger] sum_key_msets(
                        *lookups,
                        ext,
                    ) == rem0 && ext.len() > 0 && ext[0] < i + 1 implies anagram_metrics
                    .compositions@.contains(chosen0 + ext) by {
                    if ext[0] < i {
                        assert(comp_before.contains(chosen0 + ext));
                    } else {
                        lemma_sum_component(*lookups, ext, 0);
                        assert(lookups.entries@[i as int].chars@.subset_of(rem0));
                        assert(false);
                    }
                }
                assert forall|ext: Seq<usize>, perm: Seq<usize>, choice: Seq<int>|
                    #![trigger sum_key_msets(*lookups, ext), chosen_words(*lookups, perm, choice)]
                    valid_ext(*lookups, ext, resume_index as int) && sum_key_msets(*lookups, ext)
                        == rem0 && ext.len() > 0 && ext[0] < i + 1 && perm.to_multiset() == (
                    chosen0 + ext).to_multiset() && choice_ok(*lookups, perm, choice)
                        && digest_listed(
                        md5_checksums@,
                        md5_of(join_words(chosen_words(*lookups, perm, choice))),
                    ) implies has_solution(
                    anagram_metrics.anagram_phrase_solution@,
                    join_words(chosen_words(*lookups, perm, choice)),
                ) by {
                    if ext[0] < i {
                    } else {
                        lemma_sum_component(*lookups, ext, 0);
                        assert(lookups.entries@[i as int].chars@.subset_of(rem0));
                        assert(false);
                    }
                }
            }
        }
        i = i + 1;
    }
    proof {
        assert forall|ext: Seq<usize>|
            valid_ext(*lookups, ext, resume_index as int) && #[trigger] sum_key_msets(
                *lookups,
                ext,
            ) == rem0 implies anagram_metrics.compositions@.contains(chosen0 + ext) by {
            if ext.len() == 0 {
                assert(sum_key_msets(*lookups, ext) == Multiset::<char>::empty());
            } else {
                assert(ext[0] < lookups.entries@.len());
            }
        }
        assert forall|ext: Seq<usize>, perm: Seq<usize>, choice: Seq<int>|
            #![trigger sum_key_msets(*lookups, ext), chosen_words(*lookups, perm, choice)]
            valid_ext(*lookups, ext, resume_index as int) && sum_key_msets(*lookups, ext) == rem0
                && perm.to_multiset() == (chosen0 + ext).to_multiset() && choice_ok(
                *lookups,
                perm,
                choice,
            ) && digest_listed(
                md5_checksums@,
                md5_of(join_words(chosen_words(*lookups, perm, choice))),
            ) implies has_solution(
            anagram_metrics.anagram_phrase_solution@,
            join_words(chosen_words(*lookups, perm, choice)),
        ) by {
            if ext.len() == 0 {
                assert(sum_key_msets(*lookups, ext) == Multiset::<char>::empty());
            } else {
                assert(ext[0] < lookups.entries@.len());
            }
        }
    }
}

/// Run the whole search for one top-level root key: subtract the root from
/// the target; if it does not fit, no branch runs. Otherwise the combination
/// search runs to completion and the branch's final metrics come back, marked
/// done: sound and complete over the compositions that start at this root,
/// with the rejected counter equal to the branch's failed pre-checks. Matches
/// carry their discovery time but surface only in this one returned value:
/// the per-match streaming emission is an optional progress surface left to
/// the caller that drives the branches.
pub fn run_branch(
    anagram_search: &CharMultiset,
    lookups: &DictionaryIndex,
    md5_checksums: &Vec<Vec<u8>>,
    root_index: usize,
) -> (r: Option<Metrics>)
    requires
        anagram_search.wf(),
        lookups.wf(),
        root_index < lookups.entries@.len(),
        anagram_search@.len() <= u32::MAX,
    ensures
        r is Some <==> lookups.entries@[root_index as int].chars@.subset_of(anagram_search@),
        match r {
            Some(m) => metrics_ok(*lookups, anagram_search@, md5_checksums@, m) && m.is_done && (
            forall|comp: Seq<usize>|
                comp.len() >= 1 && comp[0] == root_index && valid_ext(
                    *lookups,
                    comp,
                    root_index as int,
                ) && #[trigger] sum_key_msets(*lookups, comp) == anagram_search@
                    ==> m.compositions@.contains(comp)) && (forall|comp: Seq<usize>|
                #![trigger m.compositions@.contains(comp)]
                m.compositions@.contains(comp) ==> sum_key_msets(*lookups, comp)
                    == anagram_search@) && sols_distinct(m.anagram_phrase_solution@)
                && m.anagram_phrases_incomplete == sat64(
                rejected_count(
                    *lookups,
                    anagram_search@.sub(lookups.entries@[root_index as int].chars@),
                    root_index as int,
                    lookups.entries@.len() as int,
                ),
            ) && m.anagram_phrase_max_depth as nat == depth_reached(
                *lookups,
                anagram_search@.sub(lookups.entries@[root_index as int].chars@),
                root_index as int,
                lookups.entries@.len() as int,
                1,
            ) && (
            forall|comp: Seq<usize>, perm: Seq<usize>, choice: Seq<int>|
                #![trigger sum_key_msets(*lookups, comp), chosen_words(*lookups, perm, choice)]
                comp.len() >= 1 && comp[0] == root_index && valid_ext(
                    *lookups,
                    comp,
                    root_index as int,
                ) && sum_key_msets(*lookups, comp) == anagram_search@ && perm.to_multiset()
                    == comp.to_multiset() && choice_ok(*lookups, perm, choice) && digest_listed(
                    md5_checksums@,
                    md5_of(join_words(chosen_words(*lookups, perm, choice))),
                ) ==> has_solution(
                    m.anagram_phrase_solution@,
                    join_words(chosen_words(*lookups, perm, choice)),
                )),
            None => true,
        },
{
    let start = clock_now();
    let mut remaining = anagram_search.duplicate();
    proof {
        assert(group_wf(lookups.entries@[root_index as int]));
        assert forall|c: char| anagram_search@.count(c) <= u32::MAX by {
            lemma_count_bounded(*anagram_search, c);
        }
    }
    if !subtract_chars(&mut remaining, &lookups.entries[root_index].chars) {
        return None;
    }
    let ghost km = lookups.entries@[root_index as int].chars@;
    let mut anagrams_collected: Vec<usize> = Vec::new();
    anagrams_collected.push(root_index);
    let mut anagram_metrics = Metrics::new();
    proof {
        let chosen1 = anagrams_collected@;
        assert(chosen1.drop_last() =~= Seq::<usize>::empty());
        assert(chosen1.last() == root_index);
        assert(sum_key_msets(*lookups, Seq::<usize>::empty()) == Multiset::<char>::empty());
        assert(sum_key_msets(*lookups, chosen1) =~= km);
        lemma_subtract_add_inverse(anagram_search@, km);
        vstd::multiset::axiom_len_add::<char>(anagram_search@.sub(km), km);
        assert(km.len() > 0);
        assert(chosen1.len() + remaining@.len() <= u32::MAX);
    }
    traverse_anagram_phrases(
        &mut remaining,
        lookups,
        md5_checksums,
        &mut anagram_metrics,
        &mut anagrams_collected,
        root_index,
        &start,
        Ghost(anagram_search@),
    );
    proof {
        // completeness: every composition that starts with this root key and
        // sums to the whole target was reached by the branch
        assert forall|comp: Seq<usize>|
            comp.len() >= 1 && comp[0] == root_index && valid_ext(
                *lookups,
                comp,
                root_index as int,
            ) && #[trigger] sum_key_msets(*lookups, comp) == anagram_search@ implies anagram_metrics
            .compositions@.contains(comp) by {
            let ext = comp.drop_first();
            assert(comp.remove(0) =~= ext);
            lemma_sum_key_remove(*lookups, comp, 0);
            assert(sum_key_msets(*lookups, ext).add(km) == anagram_search@);
            assert(sum_key_msets(*lookups, ext) =~= remaining@);
            assert forall|k: int| 0 <= k < ext.len() implies root_index as int <= (
            #[trigger] ext[k]) < lookups.entries@.len() by {
                assert(ext[k] == comp[k + 1]);
                assert(comp[0] <= comp[k + 1]);
            }
            assert forall|a: int, b: int| 0 <= a < b < ext.len() implies ext[a] <= ext[b] by {
                assert(ext[a] == comp[a + 1] && ext[b] == comp[b + 1]);
            }
            assert(valid_ext(*lookups, ext, root_index as int));
            assert(sum_key_msets(*lookups, ext) == remaining@);
            assert(anagram_metrics.compositions@.contains(anagrams_collected@ + ext));
            assert(anagrams_collected@ + ext =~= comp);
        }
        // phrase completeness: every listed phrase of such a composition was
        // recorded by the branch
        assert forall|comp: Seq<usize>, perm: Seq<usize>, choice: Seq<int>|
            #![trigger sum_key_msets(*lookups, comp), chosen_words(*lookups, perm, choice)]
            comp.len() >= 1 && comp[0] == root_index && valid_ext(
                *lookups,
                comp,
                root_index as int,
            ) && sum_key_msets(*lookups, comp) == anagram_search@ && perm.to_multiset()
                == comp.to_multiset() && choice_ok(*lookups, perm, choice) && digest_listed(
                md5_checksums@,
                md5_of(join_words(chosen_words(*lookups, perm, choice))),
            ) implies has_solution(
            anagram_metrics.anagram_phrase_solution@,
            join_words(chosen_words(*lookups, perm, choice)),
        ) by {
            let ext = comp.drop_first();
            assert(comp.remove(0) =~= ext);
            lemma_sum_key_remove(*lookups, comp, 0);
            assert(sum_key_msets(*lookups, ext).add(km) == anagram_search@);
            assert(sum_key_msets(*lookups, ext) =~= remaining@);
            assert forall|k: int| 0 <= k < ext.len() implies root_index as int <= (
            #[trigger] ext[k]) < lookups.entries@.len() by {
                assert(ext[k] == comp[k + 1]);
                assert(comp[0] <= comp[k + 1]);
            }
            assert forall|a: int, b: int| 0 <= a < b < ext.len() implies ext[a] <= ext[b] by {
                assert(ext[a] == comp[a + 1] && ext[b] == comp[b + 1]);
            }
            assert(valid_ext(*lookups, ext, root_index as int));
            assert(sum_key_msets(*lookups, ext) == remaining@);
            assert(anagrams_collected@ + ext =~= comp);
            assert(perm.to_multiset() == (anagrams_collected@ + ext).to_multiset());
        }
        // the branch's counters are exactly the subtree's rejection count and
        // its deepest accepted composition
        assert(remaining@ == anagram_search@.sub(km));
        assert(anagram_metrics.anagram_phrases_incomplete == sat64(
            rejected_count(
                *lookups,
                anagram_search@.sub(km),
                root_index as int,
                lookups.entries@.len() as int,
            ),
        ));
        assert(anagram_metrics.anagram_phrase_max_depth as nat == depth_reached(
            *lookups,
            anagram_search@.sub(km),
            root_index as int,
            lookups.entries@.len() as int,
            1,
        ));
    }
    anagram_metrics.is_done = true;
    Some(anagram_metrics)
}

/// Merge a branch's solutions into the global solution list, keeping each
/// phrase text once.
pub fn merge_solutions(
    total_metric: &mut Metrics,
    branch: &Metrics,
    lookups: &DictionaryIndex,
    anagram_search: &CharMultiset,
    md5_checksums: &Vec<Vec<u8>>,
)
    requires
        metrics_ok(*lookups, anagram_search@, md5_checksums@, *old(total_metric)),
        metrics_ok(*lookups, anagram_search@, md5_checksums@, *branch),
    ensures
        metrics_ok(*lookups, anagram_search@, md5_checksums@, *final(total_metric)),
        final(total_metric).anagram_phrases_incomplete == old(
            total_metric,
        ).anagram_phrases_incomplete,
        final(total_metric).anagram_roots_exhausted == old(total_metric).anagram_roots_exhausted,
        final(total_metric).anagram_phrases_found == old(total_metric).anagram_phrases_found,
        final(total_metric).anagram_phrase_max_depth == old(
            total_metric,
        ).anagram_phrase_max_depth,
        final(total_metric).is_done == old(total_metric).is_done,
        sols_extends(
            old(total_metric).anagram_phrase_solution@,
            final(total_metric).anagram_phrase_solution@,
        ),
        forall|p: Seq<char>|
            #![trigger has_solution(branch.anagram_phrase_solution@, p)]
            has_solution(branch.anagram_phrase_solution@, p) ==> has_solution(
                final(total_metric).anagram_phrase_solution@,
                p,
            ),
        sols_distinct(old(total_metric).anagram_phrase_solution@) ==> sols_distinct(
            final(total_metric).anagram_phrase_solution@,
        ),
        sols_from(
            old(total_metric).anagram_phrase_solution@,
            final(total_metric).anagram_phrase_solution@,
            branch.anagram_phrase_solution@,
        ),
{
    let mut k: usize = 0;
    while k < branch.anagram_phrase_solution.len()
        invariant
            k <= branch.anagram_phrase_solution@.len(),
            metrics_ok(*lookups, anagram_search@, md5_checksums@, *branch),
            metrics_ok(*lookups, anagram_search@, md5_checksums@, *total_metric),
            total_metric.anagram_phrases_incomplete == old(
                total_metric,
            ).anagram_phrases_incomplete,
            total_metric.anagram_roots_exhausted == old(total_metric).anagram_roots_exhausted,
            total_metric.anagram_phrases_found == old(total_metric).anagram_phrases_found,
            total_metric.anagram_phrase_max_depth == old(total_metric).anagram_phrase_max_depth,
            total_metric.is_done == old(total_metric).is_done,
            sols_extends(
                old(total_metric).anagram_phrase_solution@,
                total_metric.anagram_phrase_solution@,
            ),
            sols_distinct(old(total_metric).anagram_phrase_solution@) ==> sols_distinct(
                total_metric.anagram_phrase_solution@,
            ),
            forall|jj: int|
                0 <= jj < k ==> has_solution(
                    total_metric.anagram_phrase_solution@,
                    (#[trigger] branch.anagram_phrase_solution@[jj]).anagram_phrase@,
                ),
            sols_from(
                old(total_metric).anagram_phrase_solution@,
                total_metric.anagram_phrase_solution@,
                branch.anagram_phrase_solution@,
            ),
        decreases branch.anagram_phrase_solution@.len() - k,
    {
        let rec = &branch.anagram_phrase_solution[k];
        if !has_phrase(&total_metric.anagram_phrase_solution, &rec.anagram_phrase) {
            let ghost pre = total_metric.anagram_phrase_solution@;
            let copied = SolutionRecord {
                anagram_phrase: rec.anagram_phrase.clone(),
                anagram_phrase_checksum: copy_bytes(&rec.anagram_phrase_checksum),
                anagram_phrase_millis: rec.anagram_phrase_millis,
            };
            proof {
                assert(solution_ok(
                    *lookups,
                    anagram_search@,
                    md5_checksums@,
                    branch.anagram_phrase_solution@[k as int],
                ));
            }
            total_metric.anagram_phrase_solution.push(copied);
            proof {
                let post = total_metric.anagram_phrase_solution@;
                assert(forall|q: int| 0 <= q < pre.len() ==> post[q] == pre[q]);
                assert(post.last().anagram_phrase@ == branch.anagram_phrase_solution@[
                    k as int
                ].anagram_phrase@);
                assert forall|jj: int| 0 <= jj < k + 1 implies has_solution(
                    post,
                    (#[trigger] branch.anagram_phrase_solution@[jj]).anagram_phrase@,
                ) by {
                    if jj < k {
                        lemma_extends_has_solution(
                            pre,
                            post,
                            branch.anagram_phrase_solution@[jj].anagram_phrase@,
                        );
                    } else {
                        assert(post[post.len() - 1].anagram_phrase@ == branch
                            .anagram_phrase_solution@[jj].anagram_phrase@);
                    }
                }
                if sols_distinct(old(total_metric).anagram_phrase_solution@) {
                    assert forall|a: int, b: int| 0 <= a < b < post.len() implies post[
                    a].anagram_phrase@ != post[b].anagram_phrase@ by {
                        if b == post.len() - 1 {
                            assert(!has_solution(pre, rec.anagram_phrase@));
                            assert(pre[a].anagram_phrase@ != rec.anagram_phrase@);
                        }
                    }
                }
                // every record beyond the old total comes from the branch
                let bs = branch.anagram_phrase_solution@;
                assert(post.last().anagram_phrase@ == bs[k as int].anagram_phrase@);
                assert(post.last().anagram_phrase_checksum@ == bs[k as int]
                    .anagram_phrase_checksum@);
                assert(post.last().anagram_phrase_millis == bs[k as int].anagram_phrase_millis);
                let s0 = old(total_metric).anagram_phrase_solution@;
                assert forall|q: int| s0.len() <= q < post.len() implies exists|j: int|
                    0 <= j < bs.len() && (#[trigger] post[q]).anagram_phrase@ == bs[
                        j
                    ].anagram_phrase@ && post[q].anagram_phrase_checksum@ == bs[
                        j
                    ].anagram_phrase_checksum@ && post[q].anagram_phrase_millis == bs[
                        j
                    ].anagram_phrase_millis by {
                    if q < pre.len() {
                        assert(sols_from(s0, pre, bs));
                        assert(post[q] == pre[q]);
                        assert(exists|j: int|
                            0 <= j < bs.len() && (#[trigger] pre[q]).anagram_phrase@ == bs[
                                j
                            ].anagram_phrase@ && pre[q].anagram_phrase_checksum@ == bs[
                                j
                            ].anagram_phrase_checksum@ && pre[q].anagram_phrase_millis == bs[
                                j
                            ].anagram_phrase_millis);
                    } else {
                        assert(post[q] == post.last());
                    }
                }
                assert(sols_from(s0, post, bs));
            }
        } else {
            proof {
                assert(has_solution(
                    total_metric.anagram_phrase_solution@,
                    branch.anagram_phrase_solution@[k as int].anagram_phrase@,
                ));
            }
        }
        k = k + 1;
    }
    proof {
        assert forall|p: Seq<char>|
            has_solution(branch.anagram_phrase_solution@, p) implies has_solution(
            total_metric.anagram_phrase_solution@,
            p,
        ) by {
            let j = choose|j: int|
                0 <= j < branch.anagram_phrase_solution@.len() && (
                #[trigger] branch.anagram_phrase_solution@[j]).anagram_phrase@ == p;
            assert(has_solution(
                total_metric.anagram_phrase_solution@,
                branch.anagram_phrase_solution@[j].anagram_phrase@,
            ));
        }
    }
}

/// The entry operation of the search: drive one branch per top-level key of
/// the ordered key list, merge each finished branch's results, and stop as
/// soon as the number of recorded solutions reaches the number of target
/// digests. Every solution in the returned metrics is a sound anagram phrase
/// of the target whose digest stands among the targets, recorded once; and
/// unless the search stopped early, every sequence of dictionary words whose
/// combined letters are exactly the target and whose joined text's digest
/// stands among the targets is recorded, and the exhausted-roots counter is
/// exactly the number of keys that fit the target.
pub fn search_anagram_phrases(
    anagram_search: &CharMultiset,
    lookups: &DictionaryIndex,
    md5_checksums: &Vec<Vec<u8>>,
) -> (m: Metrics)
    requires
        anagram_search.wf(),
        lookups.wf(),
        anagram_search@.len() <= u32::MAX,
    ensures
        metrics_ok(*lookups, anagram_search@, md5_checksums@, m),
        forall|k: int|
            0 <= k < m.anagram_phrase_solution@.len() ==> solution_ok(
                *lookups,
                anagram_search@,
                md5_checksums@,
                #[trigger] m.anagram_phrase_solution@[k],
            ),
        m.is_done ==> md5_checksums@.len() > 0 && m.anagram_phrase_solution@.len()
            >= md5_checksums@.len(),
        sols_distinct(m.anagram_phrase_solution@),
        !m.is_done ==> m.anagram_roots_exhausted == fitting_roots(
            *lookups,
            anagram_search@,
            lookups.entries@.len() as int,
        ),
        !m.is_done ==> (forall|comp: Seq<usize>, perm: Seq<usize>, choice: Seq<int>|
            #![trigger sum_key_msets(*lookups, comp), chosen_words(*lookups, perm, choice)]
            comp.len() >= 1 && valid_ext(*lookups, comp, 0) && sum_key_msets(*lookups, comp)
                == anagram_search@ && perm.to_multiset() == comp.to_multiset() && choice_ok(
                *lookups,
                perm,
                choice,
            ) && digest_listed(
                md5_checksums@,
                md5_of(join_words(chosen_words(*lookups, perm, choice))),
            ) ==> has_solution(
                m.anagram_phrase_solution@,
                join_words(chosen_words(*lookups, perm, choice)),
            )),
        !m.is_done ==> (forall|ws: Seq<Seq<char>>|
            #![trigger sum_word_msets(ws)]
            ws.len() >= 1 && (forall|k: int| 0 <= k < ws.len() ==> dict_word(*lookups, #[trigger] ws[k]))
                && sum_word_msets(ws) == anagram_search@ && digest_listed(
                md5_checksums@,
                md5_of(join_words(ws)),
            ) ==> has_solution(m.anagram_phrase_solution@, join_words(ws))),
{
    let mut metrics = Metrics::new();
    let key_total = lookups.entries.len();
    let mut i: usize = 0;
    while i < key_total
        invariant
            i <= key_total,
            key_total == lookups.entries@.len(),
            anagram_search.wf(),
            lookups.wf(),
            anagram_search@.len() <= u32::MAX,
            metrics_ok(*lookups, anagram_search@, md5_checksums@, metrics),
            !metrics.is_done,
            sols_distinct(metrics.anagram_phrase_solution@),
            metrics.anagram_roots_exhausted == fitting_roots(
                *lookups,
                anagram_search@,
                i as int,
            ),
            forall|comp: Seq<usize>, perm: Seq<usize>, choice: Seq<int>|
                #![trigger sum_key_msets(*lookups, comp), chosen_words(*lookups, perm, choice)]
                comp.len() >= 1 && comp[0] < i && valid_ext(*lookups, comp, 0) && sum_key_msets(
                    *lookups,
                    comp,
                ) == anagram_search@ && perm.to_multiset() == comp.to_multiset() && choice_ok(
                    *lookups,
                    perm,
                    choice,
                ) && digest_listed(
                    md5_checksums@,
                    md5_of(join_words(chosen_words(*lookups, perm, choice))),
                ) ==> has_solution(
                    metrics.anagram_phrase_solution@,
                    join_words(chosen_words(*lookups, perm, choice)),
                ),
        decreases key_total - i,
    {
        let ghost sols_top = metrics.anagram_phrase_solution@;
        match run_branch(anagram_search, lookups, md5_checksums, i) {
            Some(branch_metrics) => {
                merge_solutions(
                    &mut metrics,
                    &branch_metrics,
                    lookups,
                    anagram_search,
                    md5_checksums,
                );
                add_metrics(&mut metrics, &branch_metrics);
                proof {
                    // one more fitting root is exhausted
                    lemma_fitting_roots_bound(*lookups, anagram_search@, i as int);
                    assert(fitting_roots(*lookups, anagram_search@, i as int + 1)
                        == fitting_roots(*lookups, anagram_search@, i as int) + 1);
                    // compositions rooted here were fully searched and merged
                    assert forall|comp: Seq<usize>, perm: Seq<usize>, choice: Seq<int>|
                        #![trigger sum_key_msets(*lookups, comp), chosen_words(*lookups, perm, choice)]
                        comp.len() >= 1 && comp[0] < i + 1 && valid_ext(*lookups, comp, 0)
                            && sum_key_msets(*lookups, comp) == anagram_search@
                            && perm.to_multiset() == comp.to_multiset() && choice_ok(
                            *lookups,
                            perm,
                            choice,
                        ) && digest_listed(
                            md5_checksums@,
                            md5_of(join_words(chosen_words(*lookups, perm, choice))),
                        ) implies has_solution(
                        metrics.anagram_phrase_solution@,
                        join_words(chosen_words(*lookups, perm, choice)),
                    ) by {
                        if comp[0] < i {
                            lemma_extends_has_solution(
                                sols_top,
                                metrics.anagram_phrase_solution@,
                                join_words(chosen_words(*lookups, perm, choice)),
                            );
                        } else {
                            assert(comp[0] == i);
                            assert forall|k: int| 0 <= k < comp.len() implies i as int <= (
                            #[trigger] comp[k]) < lookups.entries@.len() by {
                                assert(comp[0] <= comp[k]);
                            }
                            assert(valid_ext(*lookups, comp, i as int));
                            assert(has_solution(
                                branch_metrics.anagram_phrase_solution@,
                                join_words(chosen_words(*lookups, perm, choice)),
                            ));
                        }
                    }
                }
                if md5_checksums.len() > 0 && metrics.anagram_phrase_solution.len()
                    >= md5_checksums.len() {
                    metrics.is_done = true;
                    return metrics;
                }
            },
            None => {
                proof {
                    assert(fitting_roots(*lookups, anagram_search@, i as int + 1)
                        == fitting_roots(*lookups, anagram_search@, i as int));
                    assert forall|comp: Seq<usize>, perm: Seq<usize>, choice: Seq<int>|
                        #![trigger sum_key_msets(*lookups, comp), chosen_words(*lookups, perm, choice)]
                        comp.len() >= 1 && comp[0] < i + 1 && valid_ext(*lookups, comp, 0)
                            && sum_key_msets(*lookups, comp) == anagram_search@
                            && perm.to_multiset() == comp.to_multiset() && choice_ok(
                            *lookups,
                            perm,
                            choice,
                        ) && digest_listed(
                            md5_checksums@,
                            md5_of(join_words(chosen_words(*lookups, perm, choice))),
                        ) implies has_solution(
                        metrics.anagram_phrase_solution@,
                        join_words(chosen_words(*lookups, perm, choice)),
                    ) by {
                        if comp[0] == i {
                            // a root that does not fit heads no composition
                            lemma_sum_component(*lookups, comp, 0);
                            assert(lookups.entries@[i as int].chars@.subset_of(anagram_search@));
                            assert(false);
                        }
                    }
                }
            },
        }
        i = i + 1;
    }
    proof {
        assert forall|comp: Seq<usize>, perm: Seq<usize>, choice: Seq<int>|
            #![trigger sum_key_msets(*lookups, comp), chosen_words(*lookups, perm, choice)]
            comp.len() >= 1 && valid_ext(*lookups, comp, 0) && sum_key_msets(*lookups, comp)
                == anagram_search@ && perm.to_multiset() == comp.to_multiset() && choice_ok(
                *lookups,
                perm,
                choice,
            ) && digest_listed(
                md5_checksums@,
                md5_of(join_words(chosen_words(*lookups, perm, choice))),
            ) implies has_solution(
            metrics.anagram_phrase_solution@,
            join_words(chosen_words(*lookups, perm, choice)),
        ) by {
            assert(comp[0] < lookups.entries@.len());
        }
        // the same completeness over sequences of dictionary words: sort the
        // words' group indexes into a composition and reuse the statement
        let le = (|a: usize, b: usize| a <= b);
        assert(vstd::relations::total_ordering(le)) by {
            assert forall|x: usize| #[trigger] le(x, x) by {}
            assert forall|x: usize, y: usize| #[trigger] le(x, y) && #[trigger] le(y, x)
                implies x == y by {}
            assert forall|x: usize, y: usize, z: usize|
                #[trigger] le(x, y) && #[trigger] le(y, z) implies le(x, z) by {}
            assert forall|x: usize, y: usize| #[trigger] le(x, y) || #[trigger] le(y, x) by {}
        }
        assert forall|ws: Seq<Seq<char>>|
            #![trigger sum_word_msets(ws)]
            ws.len() >= 1 && (forall|k: int|
                0 <= k < ws.len() ==> dict_word(*lookups, #[trigger] ws[k])) && sum_word_msets(ws)
                == anagram_search@ && digest_listed(
                md5_checksums@,
                md5_of(join_words(ws)),
            ) implies has_solution(metrics.anagram_phrase_solution@, join_words(ws)) by {
            let picks = (|k: int|
                choose|i0: int, j0: int|
                    0 <= i0 < lookups.entries@.len() && 0 <= j0 < lookups.entries@[
                        i0
                    ].words@.len() && lookups.entries@[i0].words@[j0]@ == ws[k]);
            let perm = Seq::new(ws.len(), |k: int| picks(k).0 as usize);
            let choice = Seq::new(ws.len(), |k: int| picks(k).1);
            assert forall|k: int| 0 <= k < ws.len() implies 0 <= picks(k).0
                < lookups.entries@.len() && 0 <= picks(k).1 < lookups.entries@[
                picks(k).0
            ].words@.len() && lookups.entries@[picks(k).0].words@[picks(k).1]@ == ws[k] by {
                assert(dict_word(*lookups, ws[k]));
                assert(exists|i0: int, j0: int|
                    0 <= i0 < lookups.entries@.len() && 0 <= j0 < lookups.entries@[
                        i0
                    ].words@.len() && lookups.entries@[i0].words@[j0]@ == ws[k]);
            }
            assert forall|k: int| 0 <= k < choice.len() implies 0 <= #[trigger] choice[k]
                < lookups.entries@[perm[k] as int].words@.len() by {
                assert(perm[k] as int == picks(k).0);
            }
            assert(choice_ok(*lookups, perm, choice));
            assert(chosen_ok(*lookups, perm));
            assert(chosen_words(*lookups, perm, choice) =~= ws) by {
                assert forall|k: int| 0 <= k < ws.len() implies chosen_words(
                    *lookups,
                    perm,
                    choice,
                )[k] == ws[k] by {
                    assert(perm[k] as int == picks(k).0);
                }
            }
            let comp = perm.sort_by(le);
            perm.lemma_sort_by_ensures(le);
            assert(comp.to_multiset() == perm.to_multiset());
            assert(non_decreasing(comp)) by {
                assert forall|a: int, b: int| 0 <= a < b < comp.len() implies comp[a]
                    <= comp[b] by {
                    assert(le(comp[a], comp[b]));
                }
            }
            lemma_indices_in_range(*lookups, perm, comp);
            assert(valid_ext(*lookups, comp, 0));
            assert(comp.to_multiset().len() == comp.len());
            assert(perm.to_multiset().len() == perm.len());
            assert(comp.len() >= 1);
            lemma_sum_key_perm(*lookups, comp, perm);
            assert forall|k: int| 0 <= k < ws.len() implies text_mset(#[trigger] ws[k])
                == lookups.entries@[perm[k] as int].chars@ by {
                assert(perm[k] as int == picks(k).0);
                assert(group_wf(lookups.entries@[picks(k).0]));
            }
            lemma_sum_words_keys(*lookups, perm, ws);
            assert(sum_key_msets(*lookups, comp) == anagram_search@);
            assert(join_words(chosen_words(*lookups, perm, choice)) == join_words(ws));
            assert(has_solution(
                metrics.anagram_phrase_solution@,
                join_words(chosen_words(*lookups, perm, choice)),
            ));
        }
    }
    metrics
}

} // verus!
