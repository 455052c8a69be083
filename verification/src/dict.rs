use vstd::prelude::*;

verus! {

use vstd::multiset::Multiset;
use vstd::seq_lib::group_to_multiset_ensures;
use crate::chars::CharMultiset;
use crate::chars::chars_empty;
use crate::chars::count_chars_vec;
use crate::chars::is_whitespace_char;
use crate::chars::str_chars;
use crate::chars::text_mset;
use crate::chars::whitespace_char;

broadcast use vstd::multiset::group_multiset_axioms, group_to_multiset_ensures;

/// A sequence free of whitespace characters.
pub open spec fn no_whitespace(s: Seq<char>) -> bool {
    forall|k: int| 0 <= k < s.len() ==> !whitespace_char(#[trigger] s[k])
}

/// One group of the dictionary: a canonical sorted-letter key, its character
/// multiset, and the concrete words whose letters are exactly that multiset.
pub struct KeyGroup {
    pub key: Vec<char>,
    pub chars: CharMultiset,
    pub words: Vec<String>,
}

/// The immutable dictionary index: key groups, ordered by descending letter
/// count and then descending key text, so that the search tries larger, more
/// constraining keys first.
pub struct DictionaryIndex {
    pub entries: Vec<KeyGroup>,
}

/// A key group is well formed when its key is a canonical sorted, whitespace-
/// free letter sequence whose multiset matches the stored one, the key holds
/// at least one letter, and every word of the group is an anagram of the key.
pub open spec fn group_wf(g: KeyGroup) -> bool {
    &&& g.chars.wf()
    &&& g.chars@ == text_mset(g.key@)
    &&& sorted_chars(g.key@)
    &&& no_whitespace(g.key@)
    &&& g.chars@.len() > 0
    &&& g.words@.len() >= 1
    &&& forall|j: int| 0 <= j < g.words@.len() ==> text_mset((#[trigger] g.words@[j])@) == g.chars@
    &&& forall|j1: int, j2: int|
        0 <= j1 < j2 < g.words@.len() ==> g.words@[j1]@ != g.words@[j2]@
}

/// Characters sorted in non-decreasing order.
pub open spec fn sorted_chars(s: Seq<char>) -> bool {
    forall|a: int, b: int| 0 <= a < b < s.len() ==> s[a] as u32 <= s[b] as u32
}

/// Lexicographic comparison of two equal-length character sequences, from
/// position `k` on: true when `a` is at or before `b`.
pub open spec fn lex_le_from(a: Seq<char>, b: Seq<char>, k: int) -> bool
    decreases a.len() - k,
{
    if k >= a.len() || k >= b.len() {
        true
    } else if (a[k] as u32) < (b[k] as u32) {
        true
    } else if (a[k] as u32) > (b[k] as u32) {
        false
    } else {
        lex_le_from(a, b, k + 1)
    }
}

/// The key ordering of the index: `a` may stand before `b` when it is longer,
/// or of equal length and lexicographically at or after `b`.
pub open spec fn key_order_le(a: Seq<char>, b: Seq<char>) -> bool {
    a.len() > b.len() || (a.len() == b.len() && lex_le_from(b, a, 0))
}

impl DictionaryIndex {
    /// The representation invariant: every group well formed, keys distinct.
    pub open spec fn wf(self) -> bool {
        &&& forall|i: int| 0 <= i < self.entries@.len() ==> group_wf(#[trigger] self.entries@[i])
        &&& forall|i: int, j: int|
            0 <= i < j < self.entries@.len() ==> self.entries@[i].key@ != self.entries@[j].key@
    }

    /// The key groups stand in the index order.
    pub open spec fn ordered(self) -> bool {
        forall|i: int, j: int|
            0 <= i < j < self.entries@.len() ==> key_order_le(
                (#[trigger] self.entries@[i]).key@,
                (#[trigger] self.entries@[j]).key@,
            )
    }

    /// How many key groups the index holds.
    pub fn len(&self) -> (r: usize)
        ensures
            r == self.entries@.len(),
    {
        self.entries.len()
    }
}

proof fn lemma_lex_total(a: Seq<char>, b: Seq<char>, k: int)
    requires
        a.len() == b.len(),
    ensures
        lex_le_from(a, b, k) || lex_le_from(b, a, k),
    decreases a.len() - k,
{
    if k < a.len() && a[k] as u32 == b[k] as u32 {
        lemma_lex_total(a, b, k + 1);
    }
}

proof fn lemma_lex_trans(a: Seq<char>, b: Seq<char>, c: Seq<char>, k: int)
    requires
        a.len() == b.len(),
        b.len() == c.len(),
        lex_le_from(a, b, k),
        lex_le_from(b, c, k),
    ensures
        lex_le_from(a, c, k),
    decreases a.len() - k,
{
    if k < a.len() && a[k] as u32 == b[k] as u32 && b[k] as u32 == c[k] as u32 {
        lemma_lex_trans(a, b, c, k + 1);
    }
}

/// The key ordering is total: one of any two keys may stand first.
pub proof fn lemma_key_order_total(a: Seq<char>, b: Seq<char>)
    ensures
        key_order_le(a, b) || key_order_le(b, a),
{
    if a.len() == b.len() {
        lemma_lex_total(b, a, 0);
    }
}

/// The key ordering is transitive.
pub proof fn lemma_key_order_trans(a: Seq<char>, b: Seq<char>, c: Seq<char>)
    requires
        key_order_le(a, b),
        key_order_le(b, c),
    ensures
        key_order_le(a, c),
{
    if a.len() == b.len() && b.len() == c.len() {
        lemma_lex_trans(c, b, a, 0);
    }
}

fn lex_le_exec(a: &Vec<char>, b: &Vec<char>, k: usize) -> (r: bool)
    requires
        a@.len() == b@.len(),
        k <= a@.len(),
    ensures
        r == lex_le_from(a@, b@, k as int),
    decreases a@.len() - k,
{
    if k >= a.len() {
        true
    } else if (a[k] as u32) < (b[k] as u32) {
        true
    } else if (a[k] as u32) > (b[k] as u32) {
        false
    } else {
        lex_le_exec(a, b, k + 1)
    }
}

/// Whether key `a` may stand before key `b` in the index order.
fn key_before(a: &Vec<char>, b: &Vec<char>) -> (r: bool)
    ensures
        r == key_order_le(a@, b@),
{
    if a.len() > b.len() {
        true
    } else if a.len() < b.len() {
        false
    } else {
        lex_le_exec(b, a, 0)
    }
}

proof fn lemma_text_mset_insert(s: Seq<char>, p: int, c: char)
    requires
        0 <= p <= s.len(),
    ensures
        text_mset(s.insert(p, c)) == (if crate::chars::whitespace_char(c) {
            text_mset(s)
        } else {
            text_mset(s).insert(c)
        }),
    decreases s.len(),
{
    let s2 = s.insert(p, c);
    if p == s.len() {
        assert(s2.drop_last() =~= s);
        assert(s2.last() == c);
    } else {
        assert(s2.drop_last() =~= s.drop_last().insert(p, c));
        assert(s2.last() == s.last());
        lemma_text_mset_insert(s.drop_last(), p, c);
        if !crate::chars::whitespace_char(c) && !crate::chars::whitespace_char(s.last()) {
            assert(text_mset(s.drop_last()).insert(c).insert(s.last()) =~= text_mset(
                s.drop_last(),
            ).insert(s.last()).insert(c));
        }
    }
}

/// The canonical sorted-letter key of a word's characters.
pub fn sorted_key_chars(w: &Vec<char>) -> (r: Vec<char>)
    ensures
        text_mset(r@) == text_mset(w@),
        sorted_chars(r@),
        r@.len() == w@.len(),
    decreases w@.len(),
{
    let mut out: Vec<char> = Vec::new();
    let mut i: usize = 0;
    while i < w.len()
        invariant
            i <= w@.len(),
            out@.len() == i,
            text_mset(out@) == text_mset(w@.subrange(0, i as int)),
            sorted_chars(out@),
        decreases w@.len() - i,
    {
        let c = w[i];
        let mut p: usize = 0;
        while p < out.len() && out[p] as u32 <= c as u32
            invariant
                p <= out@.len(),
                forall|q: int| 0 <= q < p ==> (#[trigger] out@[q]) as u32 <= c as u32,
            decreases out@.len() - p,
        {
            p = p + 1;
        }
        let ghost pre = out@;
        out.insert(p, c);
        proof {
            lemma_text_mset_insert(pre, p as int, c);
            assert(w@.subrange(0, i + 1 as int).drop_last() =~= w@.subrange(0, i as int));
            assert(w@.subrange(0, i + 1 as int).last() == w@[i as int]);
            let post = out@;
            assert forall|a: int, b: int| 0 <= a < b < post.len() implies post[a] as u32
                <= post[b] as u32 by {
                if b < p {
                    assert(post[a] == pre[a] && post[b] == pre[b]);
                } else if a > p {
                    assert(post[a] == pre[a - 1] && post[b] == pre[b - 1]);
                } else if a < p && b == p {
                    assert(post[a] == pre[a] && post[b] == c);
                } else if a == p {
                    assert(post[a] == c && post[b] == pre[b - 1]);
                    assert(p < pre.len() ==> c as u32 <= pre[p as int] as u32);
                    assert(pre[p as int] as u32 <= pre[b - 1] as u32);
                } else {
                    assert(post[a] == pre[a] && post[b] == pre[b - 1]);
                    assert(pre[a] as u32 <= c as u32);
                }
            }
        }
        i = i + 1;
    }
    proof {
        assert(w@.subrange(0, w@.len() as int) =~= w@);
    }
    out
}

/// Drop the whitespace characters of a sequence, keeping the rest in order.
pub fn strip_whitespace(v: &Vec<char>) -> (r: Vec<char>)
    ensures
        text_mset(r@) == text_mset(v@),
        no_whitespace(r@),
        sorted_chars(v@) ==> sorted_chars(r@),
        r@.len() <= v@.len(),
{
    let mut out: Vec<char> = Vec::new();
    let mut i: usize = 0;
    while i < v.len()
        invariant
            i <= v@.len(),
            text_mset(out@) == text_mset(v@.subrange(0, i as int)),
            no_whitespace(out@),
            out@.len() <= i,
            forall|q: int|
                0 <= q < out@.len() ==> exists|k: int|
                    0 <= k < i && (#[trigger] out@[q]) == v@[k],
            sorted_chars(v@) ==> sorted_chars(out@),
        decreases v@.len() - i,
    {
        let c = v[i];
        let ghost pre = out@;
        proof {
            assert(v@.subrange(0, i + 1 as int).drop_last() =~= v@.subrange(0, i as int));
            assert(v@.subrange(0, i + 1 as int).last() == v@[i as int]);
        }
        if !is_whitespace_char(c) {
            out.push(c);
            proof {
                assert(out@.drop_last() =~= pre);
                assert forall|q: int|
                    0 <= q < out@.len() implies exists|k: int|
                    0 <= k < i + 1 && (#[trigger] out@[q]) == v@[k] by {
                    if q < pre.len() {
                        assert(out@[q] == pre[q]);
                        assert(exists|k: int| 0 <= k < i && (#[trigger] pre[q]) == v@[k]);
                    } else {
                        assert(out@[q] == v@[i as int]);
                    }
                }
                if sorted_chars(v@) {
                    assert forall|a: int, b: int| 0 <= a < b < out@.len() implies out@[a] as u32
                        <= out@[b] as u32 by {
                        if b == out@.len() - 1 {
                            let k = choose|k: int| 0 <= k < i && (#[trigger] pre[a]) == v@[k];
                            assert(v@[k] as u32 <= v@[i as int] as u32);
                        }
                    }
                }
            }
        }
        i = i + 1;
    }
    proof {
        assert(v@.subrange(0, v@.len() as int) =~= v@);
    }
    out
}

/// On a whitespace-free sequence, the counted multiset is the sequence's own
/// multiset.
proof fn lemma_text_mset_no_ws(s: Seq<char>)
    requires
        no_whitespace(s),
    ensures
        text_mset(s) == s.to_multiset(),
    decreases s.len(),
{
    if s.len() == 0 {
        assert(s.to_multiset() =~= Multiset::<char>::empty());
    } else {
        assert(no_whitespace(s.drop_last()));
        lemma_text_mset_no_ws(s.drop_last());
        assert(s.drop_last().push(s.last()) =~= s);
        assert(s.to_multiset() =~= s.drop_last().to_multiset().insert(s.last()));
        assert(!whitespace_char(s.last()));
    }
}

/// The keys of a well-formed index are canonical: no two groups share a
/// letter multiset, since a sorted, whitespace-free key is determined by its
/// multiset.
pub proof fn lemma_keys_canonical(d: DictionaryIndex)
    requires
        d.wf(),
    ensures
        forall|i: int, j: int|
            0 <= i < j < d.entries@.len() ==> (#[trigger] d.entries@[i]).chars@ != (
            #[trigger] d.entries@[j]).chars@,
{
    let le = (|a: char, b: char| a as u32 <= b as u32);
    assert(vstd::relations::total_ordering(le)) by {
        assert forall|x: char| #[trigger] le(x, x) by {}
        assert forall|x: char, y: char| #[trigger] le(x, y) && #[trigger] le(y, x) implies x
            == y by {
            assert(x as u32 == y as u32);
            vstd::utf8::char_u32_cast(x, x as u32);
            vstd::utf8::char_u32_cast(y, y as u32);
            assert(x == y);
        }
        assert forall|x: char, y: char, z: char|
            #[trigger] le(x, y) && #[trigger] le(y, z) implies le(x, z) by {}
        assert forall|x: char, y: char| #[trigger] le(x, y) || #[trigger] le(y, x) by {}
    }
    assert forall|i: int, j: int|
        0 <= i < j < d.entries@.len() implies (#[trigger] d.entries@[i]).chars@ != (
    #[trigger] d.entries@[j]).chars@ by {
        let ki = d.entries@[i].key@;
        let kj = d.entries@[j].key@;
        assert(group_wf(d.entries@[i]));
        assert(group_wf(d.entries@[j]));
        if d.entries@[i].chars@ == d.entries@[j].chars@ {
            lemma_text_mset_no_ws(ki);
            lemma_text_mset_no_ws(kj);
            assert(ki.to_multiset() == kj.to_multiset());
            assert(vstd::relations::sorted_by(ki, le)) by {
                assert forall|a: int, b: int| 0 <= a < b < ki.len() implies #[trigger] le(
                    ki[a],
                    ki[b],
                ) by {
                    assert(ki[a] as u32 <= ki[b] as u32);
                }
            }
            assert(vstd::relations::sorted_by(kj, le)) by {
                assert forall|a: int, b: int| 0 <= a < b < kj.len() implies #[trigger] le(
                    kj[a],
                    kj[b],
                ) by {
                    assert(kj[a] as u32 <= kj[b] as u32);
                }
            }
            vstd::seq_lib::lemma_sorted_unique(ki, kj, le);
            assert(ki == kj);
            assert(false);
        }
    }
}

/// Whether two character vectors hold the same sequence.
fn eq_chars_vec(a: &Vec<char>, b: &Vec<char>) -> (r: bool)
    ensures
        r == (a@ == b@),
{
    if a.len() != b.len() {
        return false;
    }
    let mut i: usize = 0;
    while i < a.len()
        invariant
            i <= a@.len(),
            a@.len() == b@.len(),
            forall|q: int| 0 <= q < i ==> a@[q] == b@[q],
        decreases a@.len() - i,
    {
        if a[i] != b[i] {
            return false;
        }
        i = i + 1;
    }
    proof {
        assert(a@ =~= b@);
    }
    true
}

/// The index of the group holding exactly this key, if there is one.
fn find_key(entries: &Vec<KeyGroup>, key: &Vec<char>) -> (r: Option<usize>)
    ensures
        match r {
            Some(i) => i < entries@.len() && entries@[i as int].key@ == key@,
            None => forall|q: int| 0 <= q < entries@.len() ==> (#[trigger] entries@[q]).key@
                != key@,
        },
{
    let mut i: usize = 0;
    while i < entries.len()
        invariant
            i <= entries@.len(),
            forall|q: int| 0 <= q < i ==> (#[trigger] entries@[q]).key@ != key@,
        decreases entries@.len() - i,
    {
        if eq_chars_vec(&entries[i].key, key) {
            return Some(i);
        }
        i = i + 1;
    }
    None
}

/// Whether the group already holds this concrete word.
fn group_has_word(g: &KeyGroup, w: &String) -> (r: bool)
    ensures
        r == exists|j: int| 0 <= j < g.words@.len() && (#[trigger] g.words@[j])@ == w@,
{
    let mut j: usize = 0;
    while j < g.words.len()
        invariant
            j <= g.words@.len(),
            forall|q: int| 0 <= q < j ==> (#[trigger] g.words@[q])@ != w@,
        decreases g.words@.len() - j,
    {
        if g.words[j].eq(w) {
            return true;
        }
        j = j + 1;
    }
    false
}

/// Whether the word list holds a word with exactly this text.
pub open spec fn word_from_list(word_list: Seq<String>, w: String) -> bool {
    exists|k: int| 0 <= k < word_list.len() && (#[trigger] word_list[k])@ == w@
}

/// Every word of every group comes from the given word list.
pub open spec fn index_covered_by(entries: Seq<KeyGroup>, word_list: Seq<String>) -> bool {
    forall|i: int, j: int|
        #![trigger entries[i].words@[j]]
        0 <= i < entries.len() && 0 <= j < entries[i].words@.len() ==> word_from_list(
            word_list,
            entries[i].words@[j],
        )
}

/// Whether some group of the entries holds this concrete word.
pub open spec fn index_has_word(entries: Seq<KeyGroup>, w: Seq<char>) -> bool {
    exists|i: int, j: int|
        0 <= i < entries.len() && 0 <= j < (#[trigger] entries[i]).words@.len() && (
        #[trigger] entries[i].words@[j])@ == w
}

/// Build the dictionary index from a list of words: group the words by their
/// sorted-letter key, dropping duplicates, and keep the groups in the index
/// order. Words without any letter are ignored; every other word of the list
/// stands in the index, and the index holds no word but those of the list.
pub fn build_index(word_list: &Vec<String>) -> (d: DictionaryIndex)
    requires
        forall|k: int| 0 <= k < word_list@.len() ==> (#[trigger] word_list@[k])@.len() <= u32::MAX,
    ensures
        d.wf(),
        d.ordered(),
        forall|i: int| 0 <= i < d.entries@.len() ==> sorted_chars((#[trigger] d.entries@[i]).key@),
        forall|i: int, j: int|
            0 <= i < j < d.entries@.len() ==> (#[trigger] d.entries@[i]).chars@ != (
            #[trigger] d.entries@[j]).chars@,
        forall|k: int|
            0 <= k < word_list@.len() ==> (text_mset((#[trigger] word_list@[k])@)
                != Multiset::<char>::empty() ==> index_has_word(d.entries@, word_list@[k]@)),
        index_covered_by(d.entries@, word_list@),
{
    let mut entries: Vec<KeyGroup> = Vec::new();
    let mut widx: usize = 0;
    while widx < word_list.len()
        invariant
            widx <= word_list@.len(),
            forall|k: int|
                0 <= k < word_list@.len() ==> (#[trigger] word_list@[k])@.len() <= u32::MAX,
            forall|i: int| 0 <= i < entries@.len() ==> group_wf(#[trigger] entries@[i]),
            forall|i: int, j: int|
                0 <= i < j < entries@.len() ==> entries@[i].key@ != entries@[j].key@,
            forall|i: int, j: int|
                0 <= i < j < entries@.len() ==> key_order_le(
                    (#[trigger] entries@[i]).key@,
                    (#[trigger] entries@[j]).key@,
                ),
            forall|k: int|
                0 <= k < widx ==> (text_mset((#[trigger] word_list@[k])@)
                    != Multiset::<char>::empty() ==> index_has_word(entries@, word_list@[k]@)),
            index_covered_by(entries@, word_list@.subrange(0, widx as int)),
        decreases word_list@.len() - widx,
    {
        let w = &word_list[widx];
        let wchars = str_chars(w.as_str());
        let sorted_all = sorted_key_chars(&wchars);
        let key = strip_whitespace(&sorted_all);
        let km = count_chars_vec(&key);
        proof {
            assert(km@ == text_mset(w@));
        }
        if !chars_empty(&km) {
            let ghost pre = entries@;
            match find_key(&entries, &key) {
                Some(i) => {
                    if !group_has_word(&entries[i], w) {
                        entries[i].words.push(w.clone());
                        proof {
                            let post = entries@;
                            assert(forall|q: int|
                                0 <= q < post.len() && q != i ==> post[q] == pre[q]);
                            assert(post[i as int].key@ == pre[i as int].key@);
                            assert(post[i as int].chars == pre[i as int].chars);
                            assert(group_wf(pre[i as int]));
                            assert forall|j: int|
                                0 <= j < post[i as int].words@.len() implies text_mset(
                                (#[trigger] post[i as int].words@[j])@,
                            ) == post[i as int].chars@ by {
                                if j < pre[i as int].words@.len() {
                                    assert(post[i as int].words@[j] == pre[i as int].words@[j]);
                                } else {
                                    assert(post[i as int].words@[j]@ == w@);
                                    assert(pre[i as int].chars@ == text_mset(pre[i as int].key@));
                                }
                            }
                            assert(group_wf(post[i as int]));
                            // membership: every earlier word keeps its place,
                            // and the new word stands in this group
                            assert forall|k: int|
                                0 <= k < widx && text_mset((#[trigger] word_list@[k])@)
                                    != Multiset::<char>::empty() implies index_has_word(
                                post,
                                word_list@[k]@,
                            ) by {
                                assert(index_has_word(pre, word_list@[k]@));
                                let (i0, j0) = choose|i0: int, j0: int|
                                    0 <= i0 < pre.len() && 0 <= j0 < (
                                    #[trigger] pre[i0]).words@.len() && (
                                    #[trigger] pre[i0].words@[j0])@ == word_list@[k]@;
                                assert(post[i0].words@[j0]@ == word_list@[k]@);
                            }
                            assert(post[i as int].words@.last()@ == w@);
                            assert(index_has_word(post, w@));
                            let ghost wl1 = word_list@.subrange(0, widx as int + 1);
                            assert forall|i0: int, j0: int|
                                #![trigger post[i0].words@[j0]]
                                0 <= i0 < post.len() && 0 <= j0 < post[i0].words@.len()
                                    implies word_from_list(wl1, post[i0].words@[j0]) by {
                                let wl0 = word_list@.subrange(0, widx as int);
                                if i0 == i as int && j0 == post[i0].words@.len() - 1 {
                                    assert(wl1[widx as int]@ == post[i0].words@[j0]@);
                                } else {
                                    assert(post[i0].words@[j0] == pre[i0].words@[j0]);
                                    assert(0 <= i0 < pre.len() && 0 <= j0 < pre[i0].words@.len());
                                    assert(word_from_list(wl0, pre[i0].words@[j0]));
                                    let k0 = choose|k: int|
                                        0 <= k < wl0.len() && (#[trigger] wl0[k])@ == pre[
                                            i0
                                        ].words@[j0]@;
                                    assert(wl1[k0]@ == post[i0].words@[j0]@);
                                }
                            }
                            assert(index_covered_by(post, wl1));
                        }
                    } else {
                        proof {
                            let gi = entries@[i as int];
                            let j = choose|j: int|
                                0 <= j < gi.words@.len() && (#[trigger] gi.words@[j])@ == w@;
                            assert(index_has_word(entries@, w@));
                        }
                    }
                },
                None => {
                    let mut ws: Vec<String> = Vec::new();
                    ws.push(w.clone());
                    let g = KeyGroup { key, chars: km, words: ws };
                    let mut p: usize = 0;
                    while p < entries.len() && key_before(&entries[p].key, &g.key)
                        invariant
                            p <= entries@.len(),
                            entries@ == pre,
                            forall|q: int|
                                0 <= q < p ==> key_order_le((#[trigger] entries@[q]).key@, g.key@),
                        decreases entries@.len() - p,
                    {
                        p = p + 1;
                    }
                    proof {
                        if (p as int) < pre.len() {
                            lemma_key_order_total(pre[p as int].key@, g.key@);
                        }
                    }
                    let ghost gg = g;
                    proof {
                        vstd::multiset::lemma_multiset_empty_len::<char>(gg.chars@);
                        assert(gg.chars.wf());
                        assert(gg.chars@ == text_mset(gg.key@));
                        assert(sorted_chars(gg.key@));
                        assert(no_whitespace(gg.key@));
                        assert(gg.chars@.len() > 0);
                        assert(gg.words@.len() == 1);
                        assert(gg.words@[0]@ == w@);
                        assert(text_mset(gg.words@[0]@) == gg.chars@);
                    }
                    entries.insert(p, g);
                    proof {
                        let post = entries@;
                        assert(post =~= pre.insert(p as int, gg));
                        assert(forall|q: int| 0 <= q < p ==> post[q] == pre[q]);
                        assert(forall|q: int|
                            p < q < post.len() ==> post[q] == pre[q - 1]);
                        assert(post[p as int] == gg);
                        assert(group_wf(gg));
                        assert forall|a: int, b: int| 0 <= a < b < post.len() implies post[a].key@
                            != post[b].key@ by {
                            if a == p {
                                assert(pre[b - 1].key@ != gg.key@);
                            } else if b == p {
                                assert(pre[a].key@ != gg.key@);
                            }
                        }
                        assert forall|a: int, b: int| 0 <= a < b < post.len() implies key_order_le(
                            (#[trigger] post[a]).key@,
                            (#[trigger] post[b]).key@,
                        ) by {
                            if a == p {
                                // g stands before everything from p on
                                assert(post[b] == pre[b - 1]);
                                if p as int <= b - 1 {
                                    if p as int == b - 1 {
                                        assert(key_order_le(gg.key@, pre[p as int].key@));
                                    } else {
                                        assert(key_order_le(gg.key@, pre[p as int].key@));
                                        assert(key_order_le(
                                            pre[p as int].key@,
                                            pre[b - 1].key@,
                                        ));
                                        lemma_key_order_trans(
                                            gg.key@,
                                            pre[p as int].key@,
                                            pre[b - 1].key@,
                                        );
                                    }
                                }
                            } else if b == p {
                                assert(post[a] == pre[a]);
                                assert(key_order_le(pre[a].key@, gg.key@));
                            }
                        }
                        // membership: earlier words shift with their groups,
                        // and the new word opens the new group
                        assert forall|k: int|
                            0 <= k < widx && text_mset((#[trigger] word_list@[k])@)
                                != Multiset::<char>::empty() implies index_has_word(
                            post,
                            word_list@[k]@,
                        ) by {
                            assert(index_has_word(pre, word_list@[k]@));
                            let (i0, j0) = choose|i0: int, j0: int|
                                0 <= i0 < pre.len() && 0 <= j0 < (#[trigger] pre[i0]).words@.len()
                                    && (#[trigger] pre[i0].words@[j0])@ == word_list@[k]@;
                            if i0 < p as int {
                                assert(post[i0].words@[j0]@ == word_list@[k]@);
                            } else {
                                assert(post[i0 + 1].words@[j0]@ == word_list@[k]@);
                            }
                        }
                        assert(post[p as int].words@[0]@ == w@);
                        assert(index_has_word(post, w@));
                        let ghost wl1 = word_list@.subrange(0, widx as int + 1);
                        assert forall|i0: int, j0: int|
                            #![trigger post[i0].words@[j0]]
                            0 <= i0 < post.len() && 0 <= j0 < post[i0].words@.len()
                                implies word_from_list(wl1, post[i0].words@[j0]) by {
                            let wl0 = word_list@.subrange(0, widx as int);
                            if i0 == p as int {
                                assert(post[i0].words@.len() == 1);
                                assert(wl1[widx as int]@ == post[i0].words@[j0]@);
                            } else {
                                let iorig: int = if i0 < p as int {
                                    i0
                                } else {
                                    i0 - 1
                                };
                                assert(post[i0].words@[j0] == pre[iorig].words@[j0]);
                                assert(0 <= iorig < pre.len() && 0 <= j0 < pre[
                                    iorig
                                ].words@.len());
                                assert(word_from_list(wl0, pre[iorig].words@[j0]));
                                let k0 = choose|k: int|
                                    0 <= k < wl0.len() && (#[trigger] wl0[k])@ == pre[
                                        iorig
                                    ].words@[j0]@;
                                assert(wl1[k0]@ == post[i0].words@[j0]@);
                            }
                        }
                        assert(index_covered_by(post, wl1));
                    }
                },
            }
        }
        widx = widx + 1;
    }
    proof {
        let wlfull = word_list@.subrange(0, word_list@.len() as int);
        assert(wlfull =~= word_list@);
        assert(index_covered_by(entries@, word_list@));
    }
    let d = DictionaryIndex { entries };
    proof {
        lemma_keys_canonical(d);
    }
    d
}

} // verus!
