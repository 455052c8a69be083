use vstd::prelude::*;

verus! {

use vstd::multiset::Multiset;

broadcast use vstd::multiset::group_multiset_axioms;

/// A multiset of characters: distinct characters, each stored with a positive
/// count. Created from text, mutated in place during the search by
/// [`subtract_chars`] and [`add_chars`], so that backtracking can undo a
/// subtraction instead of cloning state.
#[derive(Clone, Debug)]
pub struct CharMultiset {
    entries: Vec<(char, u32)>,
}

/// The multiset of characters that `n` copies of `c` make.
pub open spec fn repeat_char(c: char, n: nat) -> Multiset<char>
    decreases n,
{
    if n == 0 {
        Multiset::empty()
    } else {
        repeat_char(c, (n - 1) as nat).insert(c)
    }
}

/// The multiset that a sequence of (character, count) entries denotes.
pub open spec fn entries_mset(s: Seq<(char, u32)>) -> Multiset<char>
    decreases s.len(),
{
    if s.len() == 0 {
        Multiset::empty()
    } else {
        entries_mset(s.drop_last()).add(repeat_char(s.last().0, s.last().1 as nat))
    }
}

/// Entry sequences are well formed when every count is positive and no
/// character appears twice.
pub open spec fn entries_wf(s: Seq<(char, u32)>) -> bool {
    (forall|i: int| 0 <= i < s.len() ==> (#[trigger] s[i]).1 >= 1)
        && (forall|i: int, j: int| 0 <= i < j < s.len() ==> s[i].0 != s[j].0)
}

/// The total count a character receives from a sequence of entries.
pub open spec fn sum_count(s: Seq<(char, u32)>, c: char) -> nat
    decreases s.len(),
{
    if s.len() == 0 {
        0
    } else if s.last().0 == c {
        sum_count(s.drop_last(), c) + s.last().1 as nat
    } else {
        sum_count(s.drop_last(), c)
    }
}

/// The characters that counting ignores: the whitespace characters (the
/// Unicode White_Space class).
pub open spec fn whitespace_char(c: char) -> bool {
    ||| c == ' '
    ||| c == '\t'
    ||| c == '\n'
    ||| c == '\u{B}'
    ||| c == '\u{C}'
    ||| c == '\r'
    ||| c == '\u{85}'
    ||| c == '\u{A0}'
    ||| c == '\u{1680}'
    ||| (0x2000 <= c as u32 && c as u32 <= 0x200A)
    ||| c == '\u{2028}'
    ||| c == '\u{2029}'
    ||| c == '\u{202F}'
    ||| c == '\u{205F}'
    ||| c == '\u{3000}'
}

/// Whether a character is whitespace, as [`whitespace_char`] defines it.
pub fn is_whitespace_char(c: char) -> (r: bool)
    ensures
        r == whitespace_char(c),
{
    c == ' ' || c == '\t' || c == '\n' || c == '\u{B}' || c == '\u{C}' || c == '\r'
        || c == '\u{85}' || c == '\u{A0}' || c == '\u{1680}' || (0x2000 <= c as u32 && c as u32
        <= 0x200A) || c == '\u{2028}' || c == '\u{2029}' || c == '\u{202F}' || c == '\u{205F}'
        || c == '\u{3000}'
}

/// The multiset of the non-whitespace characters of a text.
pub open spec fn text_mset(t: Seq<char>) -> Multiset<char>
    decreases t.len(),
{
    if t.len() == 0 {
        Multiset::empty()
    } else if whitespace_char(t.last()) {
        text_mset(t.drop_last())
    } else {
        text_mset(t.drop_last()).insert(t.last())
    }
}

impl View for CharMultiset {
    type V = Multiset<char>;

    closed spec fn view(&self) -> Multiset<char> {
        entries_mset(self.entries@)
    }
}

impl CharMultiset {
    /// The representation invariant: positive counts, distinct characters.
    pub closed spec fn wf(self) -> bool {
        entries_wf(self.entries@)
    }

    /// An empty character multiset.
    pub fn new() -> (r: CharMultiset)
        ensures
            r.wf(),
            r@ == Multiset::<char>::empty(),
    {
        CharMultiset { entries: Vec::new() }
    }

    /// A copy whose model is the same multiset.
    pub fn duplicate(&self) -> (r: CharMultiset)
        ensures
            r.wf() == self.wf(),
            r@ == self@,
    {
        let mut out: Vec<(char, u32)> = Vec::new();
        let mut i: usize = 0;
        while i < self.entries.len()
            invariant
                i <= self.entries.len(),
                out@ == self.entries@.subrange(0, i as int),
            decreases self.entries.len() - i,
        {
            out.push(self.entries[i]);
            i = i + 1;
        }
        proof {
            assert(out@ =~= self.entries@);
        }
        CharMultiset { entries: out }
    }
}

proof fn lemma_repeat_char_count(c: char, n: nat, d: char)
    ensures
        repeat_char(c, n).count(d) == if d == c {
            n
        } else {
            0 as nat
        },
    decreases n,
{
    if n > 0 {
        lemma_repeat_char_count(c, (n - 1) as nat, d);
    }
}

proof fn lemma_entries_count(s: Seq<(char, u32)>, c: char)
    ensures
        entries_mset(s).count(c) == sum_count(s, c),
    decreases s.len(),
{
    if s.len() > 0 {
        lemma_entries_count(s.drop_last(), c);
        lemma_repeat_char_count(s.last().0, s.last().1 as nat, c);
    }
}

proof fn lemma_sum_count_absent(s: Seq<(char, u32)>, c: char)
    requires
        forall|i: int| 0 <= i < s.len() ==> (#[trigger] s[i]).0 != c,
    ensures
        sum_count(s, c) == 0,
    decreases s.len(),
{
    if s.len() > 0 {
        assert(forall|i: int|
            0 <= i < s.drop_last().len() ==> (#[trigger] s.drop_last()[i]).0 != c);
        lemma_sum_count_absent(s.drop_last(), c);
    }
}

proof fn lemma_sum_count_at(s: Seq<(char, u32)>, i: int)
    requires
        entries_wf(s),
        0 <= i < s.len(),
    ensures
        sum_count(s, s[i].0) == s[i].1 as nat,
    decreases s.len(),
{
    if i == s.len() - 1 {
        assert(forall|j: int|
            0 <= j < s.drop_last().len() ==> (#[trigger] s.drop_last()[j]).0 != s[i].0);
        lemma_sum_count_absent(s.drop_last(), s[i].0);
    } else {
        assert(entries_wf(s.drop_last()));
        lemma_sum_count_at(s.drop_last(), i);
        assert(s.last().0 != s[i].0);
    }
}

proof fn lemma_sum_count_update(s: Seq<(char, u32)>, i: int, e: (char, u32), d: char)
    requires
        0 <= i < s.len(),
    ensures
        sum_count(s.update(i, e), d) == sum_count(s, d) - (if s[i].0 == d {
            s[i].1 as nat
        } else {
            0 as nat
        }) + (if e.0 == d {
            e.1 as nat
        } else {
            0 as nat
        }),
    decreases s.len(),
{
    let s2 = s.update(i, e);
    if i == s.len() - 1 {
        assert(s2.drop_last() =~= s.drop_last());
        assert(s2.last() == e);
    } else {
        assert(s2.drop_last() =~= s.drop_last().update(i, e));
        lemma_sum_count_update(s.drop_last(), i, e, d);
        assert(s2.last() == s.last());
    }
}

proof fn lemma_sum_count_push(s: Seq<(char, u32)>, e: (char, u32), d: char)
    ensures
        sum_count(s.push(e), d) == sum_count(s, d) + (if e.0 == d {
            e.1 as nat
        } else {
            0 as nat
        }),
{
    assert(s.push(e).drop_last() =~= s);
    assert(s.push(e).last() == e);
}

/// With a well-formed representation, a character's model count is the count
/// stored in its entry.
proof fn lemma_count_at(s: Seq<(char, u32)>, i: int)
    requires
        entries_wf(s),
        0 <= i < s.len(),
    ensures
        entries_mset(s).count(s[i].0) == s[i].1 as nat,
{
    lemma_entries_count(s, s[i].0);
    lemma_sum_count_at(s, i);
}

/// A character with no entry has model count zero.
proof fn lemma_count_absent(s: Seq<(char, u32)>, c: char)
    requires
        forall|i: int| 0 <= i < s.len() ==> (#[trigger] s[i]).0 != c,
    ensures
        entries_mset(s).count(c) == 0,
{
    lemma_entries_count(s, c);
    lemma_sum_count_absent(s, c);
}

/// Every count a well-formed character multiset holds fits in a `u32`.
pub proof fn lemma_count_bounded(m: CharMultiset, c: char)
    requires
        m.wf(),
    ensures
        m@.count(c) <= u32::MAX,
{
    let s = m.entries@;
    if exists|i: int| 0 <= i < s.len() && (#[trigger] s[i]).0 == c {
        let i = choose|i: int| 0 <= i < s.len() && (#[trigger] s[i]).0 == c;
        lemma_count_at(s, i);
    } else {
        lemma_count_absent(s, c);
    }
}

/// Set the count stored at entry `i`, leaving its character unchanged.
fn set_count(v: &mut Vec<(char, u32)>, i: usize, m: u32)
    requires
        i < old(v).len(),
    ensures
        final(v)@ == old(v)@.update(i as int, (old(v)@[i as int].0, m)),
{
    let c = v[i].0;
    v[i] = (c, m);
}

/// The index of the entry holding character `c`, if there is one.
fn find_char(v: &Vec<(char, u32)>, c: char) -> (r: Option<usize>)
    ensures
        match r {
            Some(i) => i < v@.len() && v@[i as int].0 == c,
            None => forall|j: int| 0 <= j < v@.len() ==> (#[trigger] v@[j]).0 != c,
        },
{
    let mut i: usize = 0;
    while i < v.len()
        invariant
            i <= v.len(),
            forall|j: int| 0 <= j < i ==> (#[trigger] v@[j]).0 != c,
        decreases v.len() - i,
    {
        if v[i].0 == c {
            return Some(i);
        }
        i = i + 1;
    }
    None
}

/// The characters of a text, in order, as a vector.
pub fn str_chars(s: &str) -> (r: Vec<char>)
    ensures
        r@ == s@,
{
    let n = s.unicode_len();
    let mut out: Vec<char> = Vec::new();
    let mut i: usize = 0;
    while i < n
        invariant
            i <= n,
            n == s@.len(),
            out@ == s@.subrange(0, i as int),
        decreases n - i,
    {
        out.push(s.get_char(i));
        proof {
            assert(out@ =~= s@.subrange(0, i + 1 as int));
        }
        i = i + 1;
    }
    proof {
        assert(s@.subrange(0, s@.len() as int) =~= s@);
    }
    out
}

/// Count the characters of a text, ignoring whitespace.
pub fn count_chars(char_sequence: &str) -> (r: CharMultiset)
    requires
        char_sequence@.len() <= u32::MAX,
    ensures
        r.wf(),
        r@ == text_mset(char_sequence@),
{
    let v = str_chars(char_sequence);
    count_chars_vec(&v)
}

/// Count the characters of a character vector, ignoring whitespace.
pub fn count_chars_vec(cs: &Vec<char>) -> (r: CharMultiset)
    requires
        cs@.len() <= u32::MAX,
    ensures
        r.wf(),
        r@ == text_mset(cs@),
{
    let n = cs.len();
    let mut out: Vec<(char, u32)> = Vec::new();
    let mut i: usize = 0;
    while i < n
        invariant
            i <= n,
            n == cs@.len(),
            n <= u32::MAX,
            entries_wf(out@),
            entries_mset(out@) == text_mset(cs@.subrange(0, i as int)),
            entries_mset(out@).len() <= i,
        decreases n - i,
    {
        let c = cs[i];
        let ghost pre = out@;
        let ghost prefix = cs@.subrange(0, i as int);
        proof {
            assert(cs@.subrange(0, i + 1 as int).drop_last() =~= prefix);
            assert(cs@.subrange(0, i + 1 as int).last() == cs@[i as int]);
        }
        if !is_whitespace_char(c) {
            match find_char(&out, c) {
                Some(k) => {
                    let cur = out[k].1;
                    proof {
                        lemma_count_at(pre, k as int);
                        vstd::multiset::axiom_count_le_len::<char>(entries_mset(pre), c);
                    }
                    set_count(&mut out, k, cur + 1);
                    proof {
                        let post = out@;
                        assert forall|d: char| entries_mset(post).count(d) == entries_mset(
                            pre,
                        ).insert(c).count(d) by {
                            lemma_entries_count(post, d);
                            lemma_entries_count(pre, d);
                            lemma_sum_count_update(pre, k as int, (c, (cur + 1) as u32), d);
                        }
                        assert(entries_mset(post) =~= entries_mset(pre).insert(c));
                        assert(entries_wf(post));
                    }
                },
                None => {
                    out.push((c, 1));
                    proof {
                        let post = out@;
                        assert forall|d: char| entries_mset(post).count(d) == entries_mset(
                            pre,
                        ).insert(c).count(d) by {
                            lemma_entries_count(post, d);
                            lemma_entries_count(pre, d);
                            lemma_sum_count_push(pre, (c, 1), d);
                        }
                        assert(entries_mset(post) =~= entries_mset(pre).insert(c));
                        assert(forall|j: int| 0 <= j < pre.len() ==> post[j] == pre[j]);
                        assert(entries_wf(post));
                    }
                },
            }
        }
        i = i + 1;
    }
    proof {
        assert(cs@.subrange(0, cs@.len() as int) =~= cs@);
    }
    CharMultiset { entries: out }
}

/// Whether the multiset holds no character at all.
pub fn chars_empty(m: &CharMultiset) -> (r: bool)
    requires
        m.wf(),
    ensures
        r == (m@ == Multiset::<char>::empty()),
{
    let r = m.entries.len() == 0;
    proof {
        if r {
            assert(m@ =~= Multiset::<char>::empty());
        } else {
            lemma_count_at(m.entries@, 0);
            assert(m@.count(m.entries@[0].0) >= 1);
            assert(Multiset::<char>::empty().count(m.entries@[0].0) == 0);
        }
    }
    r
}

/// Whether `required` has at least `compare`'s count of every character:
/// the containment pre-check of the search.
pub fn contains_chars(required: &CharMultiset, compare: &CharMultiset) -> (r: bool)
    requires
        required.wf(),
        compare.wf(),
    ensures
        r == compare@.subset_of(required@),
{
    let mut j: usize = 0;
    while j < compare.entries.len()
        invariant
            j <= compare.entries@.len(),
            required.wf(),
            compare.wf(),
            forall|k: int|
                0 <= k < j ==> compare@.count((#[trigger] compare.entries@[k]).0)
                    <= required@.count(compare.entries@[k].0),
        decreases compare.entries@.len() - j,
    {
        let (c, nd) = compare.entries[j];
        proof {
            lemma_count_at(compare.entries@, j as int);
        }
        match find_char(&required.entries, c) {
            Some(i) => {
                proof {
                    lemma_count_at(required.entries@, i as int);
                }
                if required.entries[i].1 < nd {
                    return false;
                }
            },
            None => {
                proof {
                    lemma_count_absent(required.entries@, c);
                }
                return false;
            },
        }
        j = j + 1;
    }
    proof {
        assert forall|d: char| compare@.count(d) <= required@.count(d) by {
            let s = compare.entries@;
            if exists|k: int| 0 <= k < s.len() && (#[trigger] s[k]).0 == d {
                let k = choose|k: int| 0 <= k < s.len() && (#[trigger] s[k]).0 == d;
                assert(compare@.count(s[k].0) <= required@.count(s[k].0));
            } else {
                lemma_count_absent(s, d);
            }
        }
    }
    true
}

/// Increase `source`'s counts by `add`'s counts, inserting new characters as
/// needed.
pub fn add_chars(source: &mut CharMultiset, add: &CharMultiset)
    requires
        old(source).wf(),
        add.wf(),
        forall|c: char| old(source)@.count(c) + add@.count(c) <= u32::MAX,
    ensures
        final(source).wf(),
        final(source)@ == old(source)@.add(add@),
{
    let ghost orig = source@;
    let mut j: usize = 0;
    while j < add.entries.len()
        invariant
            j <= add.entries@.len(),
            source.wf(),
            add.wf(),
            forall|c: char| orig.count(c) + add@.count(c) <= u32::MAX,
            forall|d: char|
                source@.count(d) == orig.count(d) + sum_count(
                    add.entries@.subrange(0, j as int),
                    d,
                ),
        decreases add.entries@.len() - j,
    {
        let (c, nd) = add.entries[j];
        let ghost pre = source.entries@;
        let ghost prefix = add.entries@.subrange(0, j as int);
        proof {
            assert(source@ == entries_mset(pre));
            assert forall|d: char|
                entries_mset(pre).count(d) == orig.count(d) + sum_count(prefix, d) by {
                assert(source@.count(d) == orig.count(d) + sum_count(
                    add.entries@.subrange(0, j as int),
                    d,
                ));
            }
            lemma_count_at(add.entries@, j as int);
            lemma_entries_count(add.entries@, c);
            lemma_sum_count_at(add.entries@, j as int);
            // the processed prefix holds no entry for c, so its sum for c is 0
            assert(forall|k: int| 0 <= k < prefix.len() ==> (#[trigger] prefix[k]).0 != c);
            lemma_sum_count_absent(prefix, c);
            assert(add.entries@.subrange(0, j + 1 as int).drop_last() =~= prefix);
            assert(add.entries@.subrange(0, j + 1 as int).last() == add.entries@[j as int]);
        }
        match find_char(&source.entries, c) {
            Some(i) => {
                let cur = source.entries[i].1;
                proof {
                    lemma_count_at(pre, i as int);
                    assert(source@.count(c) == orig.count(c));
                    assert(orig.count(c) + add@.count(c) <= u32::MAX);
                }
                set_count(&mut source.entries, i, cur + nd);
                proof {
                    let post = source.entries@;
                    assert forall|d: char|
                        entries_mset(post).count(d) == entries_mset(pre).count(d) + (if d == c {
                            nd as nat
                        } else {
                            0 as nat
                        }) by {
                        lemma_entries_count(post, d);
                        lemma_entries_count(pre, d);
                        lemma_sum_count_update(pre, i as int, (c, (cur + nd) as u32), d);
                        lemma_entries_count(pre, c);
                        lemma_sum_count_at(pre, i as int);
                    }
                    assert(entries_wf(post));
                }
            },
            None => {
                proof {
                    lemma_count_absent(pre, c);
                }
                source.entries.push((c, nd));
                proof {
                    let post = source.entries@;
                    assert forall|d: char|
                        entries_mset(post).count(d) == entries_mset(pre).count(d) + (if d == c {
                            nd as nat
                        } else {
                            0 as nat
                        }) by {
                        lemma_entries_count(post, d);
                        lemma_entries_count(pre, d);
                        lemma_sum_count_push(pre, (c, nd), d);
                    }
                    assert(forall|k: int| 0 <= k < pre.len() ==> post[k] == pre[k]);
                    assert(entries_wf(post));
                }
            },
        }
        proof {
            let prefix2 = add.entries@.subrange(0, j as int + 1);
            assert(prefix2.drop_last() =~= prefix);
            assert(prefix2.last() == add.entries@[j as int]);
            assert forall|d: char| source@.count(d) == orig.count(d) + sum_count(prefix2, d) by {
                assert(entries_mset(pre).count(d) == orig.count(d) + sum_count(prefix, d));
                assert(source@.count(d) == entries_mset(pre).count(d) + (if d == c {
                    nd as nat
                } else {
                    0 as nat
                }));
                assert(sum_count(prefix2, d) == sum_count(prefix, d) + (if c == d {
                    nd as nat
                } else {
                    0 as nat
                }));
            }
        }
        j = j + 1;
    }
    proof {
        assert(add.entries@.subrange(0, add.entries@.len() as int) =~= add.entries@);
        assert forall|d: char| source@.count(d) == orig.add(add@).count(d) by {
            lemma_entries_count(add.entries@, d);
        }
        assert(source@ =~= orig.add(add@));
    }
}

/// Decrease `source`'s counts by `subtract`'s counts, removing characters whose
/// count reaches zero. If `subtract` is not contained in `source`, nothing
/// changes and the call returns false.
pub fn subtract_chars(source: &mut CharMultiset, subtract: &CharMultiset) -> (r: bool)
    requires
        old(source).wf(),
        subtract.wf(),
    ensures
        final(source).wf(),
        r == subtract@.subset_of(old(source)@),
        r ==> final(source)@ == old(source)@.sub(subtract@),
        !r ==> *final(source) == *old(source),
{
    if !contains_chars(&*source, subtract) {
        return false;
    }
    let ghost orig = source@;
    let mut j: usize = 0;
    while j < subtract.entries.len()
        invariant
            j <= subtract.entries@.len(),
            source.wf(),
            subtract.wf(),
            subtract@.subset_of(orig),
            forall|d: char|
                source@.count(d) == orig.count(d) - sum_count(
                    subtract.entries@.subrange(0, j as int),
                    d,
                ),
        decreases subtract.entries@.len() - j,
    {
        let (c, nd) = subtract.entries[j];
        let ghost pre = source.entries@;
        let ghost prefix = subtract.entries@.subrange(0, j as int);
        proof {
            lemma_count_at(subtract.entries@, j as int);
            assert(forall|k: int| 0 <= k < prefix.len() ==> (#[trigger] prefix[k]).0 != c);
            lemma_sum_count_absent(prefix, c);
            assert(source@.count(c) == orig.count(c));
            assert(subtract@.count(c) <= orig.count(c));
            assert(subtract.entries@.subrange(0, j + 1 as int).drop_last() =~= prefix);
            assert(subtract.entries@.subrange(0, j + 1 as int).last() == subtract.entries@[
                j as int
            ]);
        }
        match find_char(&source.entries, c) {
            Some(i) => {
                let cur = source.entries[i].1;
                proof {
                    lemma_count_at(pre, i as int);
                    assert(cur >= nd);
                }
                if cur == nd {
                    source.entries.swap_remove(i);
                    proof {
                        let post = source.entries@;
                        let moved = pre.update(i as int, pre.last());
                        assert(post =~= moved.drop_last());
                        assert forall|d: char|
                            entries_mset(post).count(d) == entries_mset(pre).count(d) - (if d == c {
                                nd as nat
                            } else {
                                0 as nat
                            }) by {
                            lemma_entries_count(post, d);
                            lemma_entries_count(pre, d);
                            lemma_sum_count_at(pre, i as int);
                            if i as int == pre.len() - 1 {
                                assert(moved =~= pre);
                                assert(post =~= pre.drop_last());
                            } else {
                                assert(post =~= pre.drop_last().update(i as int, pre.last()));
                                lemma_sum_count_update(pre.drop_last(), i as int, pre.last(), d);
                            }
                        }
                        assert forall|a: int, b: int| 0 <= a < b < post.len() implies post[a].0
                            != post[b].0 by {
                            assert(post[a] == (if a == i as int {
                                pre[pre.len() - 1]
                            } else {
                                pre[a]
                            }));
                            assert(post[b] == (if b == i as int {
                                pre[pre.len() - 1]
                            } else {
                                pre[b]
                            }));
                        }
                        assert(entries_wf(post));
                    }
                } else {
                    set_count(&mut source.entries, i, cur - nd);
                    proof {
                        let post = source.entries@;
                        assert forall|d: char|
                            entries_mset(post).count(d) == entries_mset(pre).count(d) - (if d == c {
                                nd as nat
                            } else {
                                0 as nat
                            }) by {
                            lemma_entries_count(post, d);
                            lemma_entries_count(pre, d);
                            lemma_sum_count_update(pre, i as int, (c, (cur - nd) as u32), d);
                            lemma_sum_count_at(pre, i as int);
                        }
                        assert(entries_wf(post));
                    }
                }
            },
            None => {
                proof {
                    lemma_count_absent(pre, c);
                    assert(subtract@.count(c) >= 1);
                    assert(false);
                }
                return false;
            },
        }
        j = j + 1;
    }
    proof {
        assert(subtract.entries@.subrange(0, subtract.entries@.len() as int) =~= subtract.entries@);
        assert forall|d: char| source@.count(d) == orig.sub(subtract@).count(d) by {
            lemma_entries_count(subtract.entries@, d);
        }
        assert(source@ =~= orig.sub(subtract@));
    }
    true
}

/// Whether two character multisets hold exactly the same counts.
pub fn chars_eq(a: &CharMultiset, b: &CharMultiset) -> (r: bool)
    requires
        a.wf(),
        b.wf(),
    ensures
        r == (a@ == b@),
{
    let fwd = contains_chars(a, b);
    let bwd = contains_chars(b, a);
    proof {
        if fwd && bwd {
            assert(a@ =~= b@);
        }
    }
    fwd && bwd
}

/// Removing a contained multiset and then adding it back restores the
/// original multiset: the inverse law that lets the search backtrack by
/// undoing a subtraction.
pub proof fn lemma_subtract_add_inverse(s: Multiset<char>, t: Multiset<char>)
    requires
        t.subset_of(s),
    ensures
        s.sub(t).add(t) == s,
{
    assert(s.sub(t).add(t) =~= s);
}

/// Containment is reflexive: every multiset contains itself.
pub proof fn lemma_contains_reflexive(a: Multiset<char>)
    ensures
        a.subset_of(a),
{
}

/// Containment is transitive over three multisets.
pub proof fn lemma_contains_transitive(a: Multiset<char>, b: Multiset<char>, c: Multiset<char>)
    requires
        b.subset_of(a),
        c.subset_of(b),
    ensures
        c.subset_of(a),
{
}

} // verus!
