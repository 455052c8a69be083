use vstd::prelude::*;

verus! {

use vstd::multiset::Multiset;
use vstd::seq_lib::group_to_multiset_ensures;

broadcast use vstd::multiset::group_multiset_axioms, group_to_multiset_ensures;

/// The factorial of `n`: how many orderings a sequence of `n` positions has.
pub open spec fn fact(n: nat) -> nat
    decreases n,
{
    if n == 0 {
        1
    } else {
        n * fact((n - 1) as nat)
    }
}

proof fn lemma_to_multiset_update(s: Seq<usize>, i: int, x: usize)
    requires
        0 <= i < s.len(),
    ensures
        s.update(i, x).to_multiset() == s.to_multiset().remove(s[i]).insert(x),
    decreases s.len(),
{
    let s2 = s.update(i, x);
    if i == s.len() - 1 {
        assert(s2 =~= s.drop_last().push(x));
        assert(s =~= s.drop_last().push(s[i]));
        assert(s2.to_multiset() =~= s.to_multiset().remove(s[i]).insert(x));
    } else {
        assert(s2 =~= s.drop_last().update(i, x).push(s.last()));
        assert(s =~= s.drop_last().push(s.last()));
        lemma_to_multiset_update(s.drop_last(), i, x);
        assert(s.drop_last().contains(s[i]));
        assert(s.drop_last().to_multiset().count(s[i]) > 0);
        assert(s2.to_multiset() =~= s.to_multiset().remove(s[i]).insert(x));
    }
}

/// Swapping two positions leaves the multiset of a sequence unchanged.
proof fn lemma_to_multiset_swap(s: Seq<usize>, a: int, b: int)
    requires
        0 <= a < s.len(),
        0 <= b < s.len(),
    ensures
        s.update(a, s[b]).update(b, s[a]).to_multiset() == s.to_multiset(),
{
    if a == b {
        assert(s.update(a, s[b]).update(b, s[a]) =~= s);
    } else {
        let s2 = s.update(a, s[b]);
        lemma_to_multiset_update(s, a, s[b]);
        lemma_to_multiset_update(s2, b, s2[b]);
        assert(s2[b] == s[b]);
        assert(s.contains(s[a]));
        assert(s.to_multiset().count(s[a]) > 0);
        assert(s.contains(s[b]));
        assert(s.to_multiset().count(s[b]) > 0);
        assert(s2.update(b, s[a]).to_multiset() =~= s.to_multiset());
    }
}

/// Swap two entries of an index vector.
fn swap_idx(v: &mut Vec<usize>, a: usize, b: usize)
    requires
        a < old(v)@.len(),
        b < old(v)@.len(),
    ensures
        final(v)@ == old(v)@.update(a as int, old(v)@[b as int]).update(
            b as int,
            old(v)@[a as int],
        ),
        final(v)@.to_multiset() == old(v)@.to_multiset(),
        final(v)@.len() == old(v)@.len(),
{
    let x = v[a];
    let y = v[b];
    v[a] = y;
    v[b] = x;
    proof {
        lemma_to_multiset_swap(old(v)@, a as int, b as int);
    }
}

/// A copy of an index vector.
fn copy_indices(v: &Vec<usize>) -> (r: Vec<usize>)
    ensures
        r@ == v@,
{
    let mut out: Vec<usize> = Vec::new();
    let mut i: usize = 0;
    while i < v.len()
        invariant
            i <= v@.len(),
            out@ == v@.subrange(0, i as int),
        decreases v@.len() - i,
    {
        out.push(v[i]);
        proof {
            assert(out@ =~= v@.subrange(0, i + 1 as int));
        }
        i = i + 1;
    }
    proof {
        assert(v@.subrange(0, v@.len() as int) =~= v@);
    }
    out
}

/// A sequence without a repeated value.
pub open spec fn distinct_elems(s: Seq<usize>) -> bool {
    forall|a: int, b: int| 0 <= a < b < s.len() ==> s[a] != s[b]
}

/// A sequence's multiset splits at any cut into the multisets of its parts.
proof fn lemma_split_mset(s: Seq<usize>, pos: int)
    requires
        0 <= pos <= s.len(),
    ensures
        s.to_multiset() == s.subrange(0, pos).to_multiset().add(
            s.subrange(pos, s.len() as int).to_multiset(),
        ),
{
    vstd::seq_lib::lemma_multiset_commutative(
        s.subrange(0, pos),
        s.subrange(pos, s.len() as int),
    );
    assert(s.subrange(0, pos) + s.subrange(pos, s.len() as int) =~= s);
}

/// Generate every ordering of the positions `pos..` of the chosen key
/// sequence, by in-place swaps, appending each completed ordering to `out`.
/// Exactly `(len - pos)!` orderings are appended, each a rearrangement of the
/// sequence that was handed in (same multiset, the positions before `pos`
/// untouched), no two of them equal when the sequence holds no repeated
/// value, and the sequence itself stands unchanged afterwards.
pub fn permutate_anagram_sorted(chosen: &mut Vec<usize>, pos: usize, out: &mut Vec<Vec<usize>>)
    requires
        pos <= old(chosen)@.len(),
    ensures
        final(chosen)@ == old(chosen)@,
        final(out)@.len() == old(out)@.len() + fact((old(chosen)@.len() - pos) as nat),
        forall|k: int| 0 <= k < old(out)@.len() ==> final(out)@[k] == old(out)@[k],
        forall|k: int|
            old(out)@.len() <= k < final(out)@.len() ==> (#[trigger] final(out)@[k])@.to_multiset()
                == old(chosen)@.to_multiset() && final(out)@[k]@.len() == old(chosen)@.len()
                && final(out)@[k]@.subrange(0, pos as int) == old(chosen)@.subrange(0, pos as int),
        distinct_elems(old(chosen)@) ==> forall|k1: int, k2: int|
            old(out)@.len() <= k1 < k2 < final(out)@.len() ==> (#[trigger] final(out)@[k1])@ != (
            #[trigger] final(out)@[k2])@,
        forall|perm: Seq<usize>|
            #![trigger perm.to_multiset()]
            perm.len() == old(chosen)@.len() && perm.subrange(0, pos as int) == old(
                chosen,
            )@.subrange(0, pos as int) && perm.to_multiset() == old(chosen)@.to_multiset()
                ==> exists|k: int|
                old(out)@.len() <= k < final(out)@.len() && (#[trigger] final(out)@[k])@ == perm,
    decreases old(chosen)@.len() - pos,
{
    let n = chosen.len();
    if pos >= n {
        let snapshot = copy_indices(chosen);
        out.push(snapshot);
        proof {
            assert(out@.len() == old(out)@.len() + 1);
            assert(out@.last()@ == old(chosen)@);
            assert(old(chosen)@.subrange(0, pos as int) =~= old(chosen)@);
            // with no position left, the only arrangement is the sequence itself
            assert forall|perm: Seq<usize>|
                #![trigger perm.to_multiset()]
                perm.len() == old(chosen)@.len() && perm.subrange(0, pos as int) == old(
                    chosen,
                )@.subrange(0, pos as int) && perm.to_multiset() == old(
                    chosen,
                )@.to_multiset() implies exists|k: int|
                old(out)@.len() <= k < out@.len() && (#[trigger] out@[k])@ == perm by {
                assert(perm.subrange(0, pos as int) =~= perm);
                assert(perm =~= old(chosen)@);
                assert(out@[old(out)@.len() as int]@ == perm);
            }
        }
        return ;
    }
    let ghost orig = chosen@;
    let ghost base = out@;
    let mut i: usize = pos;
    while i < n
        invariant
            pos <= i <= n,
            n == chosen@.len(),
            pos < n,
            orig == old(chosen)@,
            base == old(out)@,
            chosen@ == orig,
            out@.len() == base.len() + (i - pos) * fact((n - pos - 1) as nat),
            forall|k: int| 0 <= k < base.len() ==> out@[k] == base[k],
            forall|k: int|
                base.len() <= k < out@.len() ==> (#[trigger] out@[k])@.to_multiset()
                    == orig.to_multiset() && out@[k]@.len() == orig.len() && out@[k]@.subrange(
                    0,
                    pos as int,
                ) == orig.subrange(0, pos as int),
            distinct_elems(orig) ==> forall|k1: int, k2: int|
                base.len() <= k1 < k2 < out@.len() ==> (#[trigger] out@[k1])@ != (
                #[trigger] out@[k2])@,
            distinct_elems(orig) ==> forall|k: int|
                base.len() <= k < out@.len() ==> orig.subrange(pos as int, i as int).contains(
                    (#[trigger] out@[k])@[pos as int],
                ),
            forall|perm: Seq<usize>|
                #![trigger perm.to_multiset()]
                perm.len() == n && perm.subrange(0, pos as int) == orig.subrange(0, pos as int)
                    && perm.to_multiset() == orig.to_multiset() && (exists|q: int|
                    pos <= q < i && orig[q] == perm[pos as int]) ==> exists|k: int|
                    base.len() <= k < out@.len() && (#[trigger] out@[k])@ == perm,
        decreases n - i,
    {
        let ghost out_before = out@;
        swap_idx(chosen, pos, i);
        let ghost swapped = chosen@;
        proof {
            if distinct_elems(orig) {
                assert forall|a: int, b: int| 0 <= a < b < swapped.len() implies swapped[a]
                    != swapped[b] by {
                    assert(swapped[a] == orig[if a == pos as int {
                        i as int
                    } else if a == i as int {
                        pos as int
                    } else {
                        a
                    }]);
                    assert(swapped[b] == orig[if b == pos as int {
                        i as int
                    } else if b == i as int {
                        pos as int
                    } else {
                        b
                    }]);
                }
                assert(distinct_elems(swapped));
            }
        }
        permutate_anagram_sorted(chosen, pos + 1, out);
        swap_idx(chosen, pos, i);
        proof {
            // swapping back restores the original sequence
            assert(chosen@ =~= orig);
            // the new orderings keep the prefix and the multiset of `orig`
            assert(swapped.to_multiset() == orig.to_multiset());
            assert(swapped.subrange(0, pos as int) =~= orig.subrange(0, pos as int));
            assert forall|k: int| out_before.len() <= k < out@.len() implies (
            #[trigger] out@[k])@.to_multiset() == orig.to_multiset() && out@[k]@.len()
                == orig.len() && out@[k]@.subrange(0, pos as int) == orig.subrange(
                0,
                pos as int,
            ) by {
                assert(out@[k]@.subrange(0, pos + 1 as int) == swapped.subrange(0, pos + 1 as int));
                assert forall|q: int| 0 <= q < pos implies out@[k]@.subrange(0, pos as int)[q]
                    == orig.subrange(0, pos as int)[q] by {
                    assert(out@[k]@.subrange(0, pos + 1 as int)[q] == swapped.subrange(
                        0,
                        pos + 1 as int,
                    )[q]);
                }
                assert(out@[k]@.subrange(0, pos as int) =~= orig.subrange(0, pos as int));
            }
            if distinct_elems(orig) {
                // every ordering of this block carries orig[i] at the cursor
                assert forall|k: int| out_before.len() <= k < out@.len() implies (
                #[trigger] out@[k])@[pos as int] == orig[i as int] by {
                    assert(out@[k]@.subrange(0, pos + 1 as int) == swapped.subrange(
                        0,
                        pos + 1 as int,
                    ));
                    assert(out@[k]@.subrange(0, pos + 1 as int)[pos as int] == swapped.subrange(
                        0,
                        pos + 1 as int,
                    )[pos as int]);
                    assert(swapped[pos as int] == orig[i as int]);
                }
                // earlier blocks carry earlier, different values there
                assert forall|k1: int, k2: int|
                    base.len() <= k1 < k2 < out@.len() implies (#[trigger] out@[k1])@ != (
                #[trigger] out@[k2])@ by {
                    if k1 < out_before.len() && k2 >= out_before.len() {
                        let sub = orig.subrange(pos as int, i as int);
                        assert(sub.contains(out@[k1]@[pos as int]));
                        let q = choose|q: int| 0 <= q < sub.len() && sub[q] == out@[k1]@[
                            pos as int
                        ];
                        assert(orig[pos + q] == out@[k1]@[pos as int]);
                        assert(orig[pos + q] != orig[i as int]);
                        assert(out@[k1]@[pos as int] != out@[k2]@[pos as int]);
                    }
                }
                // the block's value at the cursor stands in the widened window
                assert forall|k: int| base.len() <= k < out@.len() implies orig.subrange(
                    pos as int,
                    i + 1 as int,
                ).contains((#[trigger] out@[k])@[pos as int]) by {
                    let wide = orig.subrange(pos as int, i + 1 as int);
                    if k < out_before.len() {
                        let sub = orig.subrange(pos as int, i as int);
                        assert(sub.contains(out@[k]@[pos as int]));
                        let q = choose|q: int| 0 <= q < sub.len() && sub[q] == out@[k]@[
                            pos as int
                        ];
                        assert(wide[q] == sub[q]);
                    } else {
                        assert(wide[i - pos] == orig[i as int]);
                    }
                }
            }
            // coverage: arrangements whose cursor value was tried by now all
            // stand in the output
            assert forall|perm: Seq<usize>|
                #![trigger perm.to_multiset()]
                perm.len() == n && perm.subrange(0, pos as int) == orig.subrange(0, pos as int)
                    && perm.to_multiset() == orig.to_multiset() && (exists|q: int|
                    pos <= q < i + 1 && orig[q] == perm[pos as int]) implies exists|k: int|
                base.len() <= k < out@.len() && (#[trigger] out@[k])@ == perm by {
                if exists|q2: int| pos <= q2 < i && orig[q2] == perm[pos as int] {
                    let k = choose|k: int|
                        base.len() <= k < out_before.len() && (#[trigger] out_before[k])@ == perm;
                    assert(out@[k] == out_before[k]);
                } else {
                    let q = choose|q: int| pos <= q < i + 1 && orig[q] == perm[pos as int];
                    assert(q == i as int);
                    assert(perm.subrange(0, pos as int + 1) =~= swapped.subrange(
                        0,
                        pos as int + 1,
                    )) by {
                        assert forall|r: int| 0 <= r < pos + 1 implies perm[r] == swapped[r] by {
                            if r < pos {
                                assert(perm.subrange(0, pos as int)[r] == orig.subrange(
                                    0,
                                    pos as int,
                                )[r]);
                            } else {
                                assert(swapped[pos as int] == orig[i as int]);
                            }
                        }
                    }
                    assert(perm.to_multiset() == swapped.to_multiset());
                    assert(exists|k: int|
                        out_before.len() <= k < out@.len() && (#[trigger] out@[k])@ == perm);
                }
            }
            // count: one more block of (n - pos - 1)! orderings
            assert(out@.len() - base.len() == (i + 1 - pos) * fact((n - pos - 1) as nat)) by (
            nonlinear_arith)
                requires
                    out@.len() == out_before.len() + fact((n - pos - 1) as nat),
                    out_before.len() == base.len() + (i - pos) * fact((n - pos - 1) as nat),
                    i >= pos,
            ;
        }
        i = i + 1;
    }
    proof {
        assert((n - pos) * fact((n - pos - 1) as nat) == fact((n - pos) as nat));
        // every arrangement carries some suffix value at the cursor, so the
        // finished scan covered them all
        assert forall|perm: Seq<usize>|
            #![trigger perm.to_multiset()]
            perm.len() == n && perm.subrange(0, pos as int) == orig.subrange(0, pos as int)
                && perm.to_multiset() == orig.to_multiset() implies exists|q: int|
            pos <= q < n && orig[q] == perm[pos as int] by {
            lemma_split_mset(perm, pos as int);
            lemma_split_mset(orig, pos as int);
            let psuf = perm.subrange(pos as int, n as int);
            let osuf = orig.subrange(pos as int, n as int);
            assert(psuf.to_multiset() =~= osuf.to_multiset()) by {
                assert(perm.subrange(0, pos as int) == orig.subrange(0, pos as int));
                assert forall|x: usize|
                    psuf.to_multiset().count(x) == osuf.to_multiset().count(x) by {
                    assert(perm.to_multiset().count(x) == perm.subrange(
                        0,
                        pos as int,
                    ).to_multiset().count(x) + psuf.to_multiset().count(x));
                    assert(orig.to_multiset().count(x) == orig.subrange(
                        0,
                        pos as int,
                    ).to_multiset().count(x) + osuf.to_multiset().count(x));
                }
            }
            assert(psuf[0] == perm[pos as int]);
            assert(psuf.contains(perm[pos as int]));
            assert(psuf.to_multiset().count(perm[pos as int]) > 0);
            assert(osuf.to_multiset().count(perm[pos as int]) > 0);
            assert(osuf.contains(perm[pos as int]));
            let qq = choose|qq: int| 0 <= qq < osuf.len() && osuf[qq] == perm[pos as int];
            assert(orig[pos + qq] == perm[pos as int]);
        }
    }
}

} // verus!
