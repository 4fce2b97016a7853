//! Substring scores: how much a word is worth as the start or the end of
//! longer words of the list, and the bonus it passes on to them.
use vstd::prelude::*;
use crate::order::{
    below_or_extends, byte_lt, byte_strings, bytes_lt, bytes_reversed, bytes_starts_with, is_prefix,
    is_suffix, lemma_prefix_not_above, lemma_reverse_twice, lemma_strictly_sorted_is_sorted,
    lemma_strictly_sorted_unique, lemma_suffix_is_reversed_prefix, lower_bound, position_of, prefix_end,
    strictly_sorted,
};
use crate::wordset::{word_set, word_set_of};
use dashmap::DashMap;

verus! {

/// Points a word earns for being extended by a word that is `larger_len - target_len` bytes longer.
pub open spec fn extension_value(target_len: int, larger_len: int) -> int {
    let diff = larger_len - target_len;
    if diff >= 5 {
        1
    } else {
        (5 - diff) * (5 - diff)
    }
}

/// Score contributed by one extension of a word of length `target_len` into a
/// word of length `larger_len`: the closer the lengths, the higher the score.
pub fn score_extension_value(target_len: usize, larger_len: usize) -> (value: usize)
    requires
        target_len <= larger_len,
    ensures
        value == extension_value(target_len as int, larger_len as int),
        1 <= value <= 25,
        larger_len - target_len >= 5 ==> value == 1,
        larger_len - target_len < 5 ==> value == (5 - (larger_len - target_len)) * (5 - (larger_len - target_len)),
{
    let diff = larger_len - target_len;
    if diff >= 5 {
        1
    } else {
        let gap = 5 - diff;
        assert(1 <= gap * gap <= 25) by (nonlinear_arith)
            requires
                1 <= gap <= 5,
        ;
        gap * gap
    }
}

/// `c` is one of the longer words that build on the non-empty word `w`:
/// it starts with `w`, or it ends with `w` and comes after `w` in
/// lexicographic order.
pub open spec fn extends(w: Seq<u8>, c: Seq<u8>) -> bool {
    &&& w.len() > 0
    &&& c.len() > w.len()
    &&& (is_prefix(w, c) || (is_suffix(w, c) && byte_lt(w, c)))
}

/// What word `j` of the list adds to the score of word `t`.
pub open spec fn link_score(words: Seq<Seq<u8>>, t: int, j: int) -> int {
    if extends(words[t], words[j]) {
        extension_value(words[t].len() as int, words[j].len() as int)
    } else {
        0
    }
}

/// What the first `n` words of the list add to the score of word `t`.
pub open spec fn link_score_sum(words: Seq<Seq<u8>>, t: int, n: int) -> int
    decreases n,
{
    if n <= 0 {
        0
    } else {
        link_score_sum(words, t, n - 1) + link_score(words, t, n - 1)
    }
}

/// The substring score of word `t`: the sum over all words that extend it.
pub open spec fn substring_score(words: Seq<Seq<u8>>, t: int) -> int {
    link_score_sum(words, t, words.len() as int)
}

/// `l` lists, each once and in any order, the positions of the words that
/// extend word `t`, each with the score it adds.
pub open spec fn is_link_list(words: Seq<Seq<u8>>, t: int, l: Seq<(usize, usize)>) -> bool {
    &&& forall|k: int|
        0 <= k < l.len() ==> {
            &&& (#[trigger] l[k]).0 < words.len()
            &&& extends(words[t], words[l[k].0 as int])
            &&& l[k].1 == extension_value(words[t].len() as int, words[l[k].0 as int].len() as int)
        }
    &&& forall|k1: int, k2: int| 0 <= k1 < k2 < l.len() ==> (#[trigger] l[k1]).0 != (#[trigger] l[k2]).0
    &&& forall|j: int|
        0 <= j < words.len() && extends(words[t], #[trigger] words[j]) ==> exists|k: int|
            0 <= k < l.len() && (#[trigger] l[k]).0 == j
}

/// The sum of the scores in a list of links.
pub open spec fn score_total(l: Seq<(usize, usize)>) -> int
    decreases l.len(),
{
    if l.len() == 0 {
        0
    } else {
        score_total(l.drop_last()) + l.last().1
    }
}

/// Bonus points that word `c` receives from the first `n` words of the
/// list: the substring score of each of them that `c` extends.
pub open spec fn backprop_sum(words: Seq<Seq<u8>>, c: int, n: int) -> int
    decreases n,
{
    if n <= 0 {
        0
    } else {
        backprop_sum(words, c, n - 1) + if extends(words[n - 1], words[c]) {
            substring_score(words, n - 1)
        } else {
            0
        }
    }
}

/// The score written out for word `c`: its own substring score plus the
/// substring score of every word that it extends.
pub open spec fn final_score(words: Seq<Seq<u8>>, c: int) -> int {
    substring_score(words, c) + backprop_sum(words, c, words.len() as int)
}

/// Every final score of the list fits a `usize`.
pub open spec fn all_scores_fit(words: Seq<Seq<u8>>) -> bool {
    forall|c: int| 0 <= c < words.len() ==> #[trigger] final_score(words, c) <= usize::MAX
}

pub proof fn lemma_extension_value_range(target_len: int, larger_len: int)
    requires
        target_len < larger_len,
    ensures
        1 <= extension_value(target_len, larger_len) <= 16,
{
    let diff = larger_len - target_len;
    if diff < 5 {
        let gap = 5 - diff;
        assert(1 <= gap * gap <= 16) by (nonlinear_arith)
            requires
                1 <= gap <= 4,
        ;
    }
}

/// Law: what an extension is worth depends on how many letters longer the
/// longer word is, and on nothing else: the same lengths moved up together
/// give the same value; a word of the same length is worth 25, one letter
/// longer 16, two 9, three 4, four 1, and five or more letters longer 1.
pub proof fn lemma_extension_value_by_difference(target_len: int, larger_len: int, k: int)
    requires
        0 <= target_len <= larger_len,
        0 <= k,
    ensures
        extension_value(target_len, larger_len) == extension_value(target_len + k, larger_len + k),
        larger_len - target_len == 0 ==> extension_value(target_len, larger_len) == 25,
        larger_len - target_len == 1 ==> extension_value(target_len, larger_len) == 16,
        larger_len - target_len == 2 ==> extension_value(target_len, larger_len) == 9,
        larger_len - target_len == 3 ==> extension_value(target_len, larger_len) == 4,
        larger_len - target_len == 4 ==> extension_value(target_len, larger_len) == 1,
        larger_len - target_len >= 5 ==> extension_value(target_len, larger_len) == 1,
{
}

/// Law: the longer the extension, the fewer points it brings.
pub proof fn lemma_extension_value_decreasing(target_len: int, shorter: int, longer: int)
    requires
        target_len <= shorter <= longer,
    ensures
        extension_value(target_len, shorter) >= extension_value(target_len, longer),
{
    let d1 = shorter - target_len;
    let d2 = longer - target_len;
    if d1 < 5 {
        let g1 = 5 - d1;
        if d2 < 5 {
            let g2 = 5 - d2;
            assert(g1 * g1 >= g2 * g2) by (nonlinear_arith)
                requires
                    g1 >= g2 >= 1,
            ;
        } else {
            assert(g1 * g1 >= 1) by (nonlinear_arith)
                requires
                    g1 >= 1,
            ;
        }
    }
}

proof fn lemma_link_score_sum_bounds(words: Seq<Seq<u8>>, t: int, n: int)
    requires
        0 <= t < words.len(),
        0 <= n <= words.len(),
    ensures
        0 <= link_score_sum(words, t, n) <= 16 * n,
    decreases n,
{
    if n > 0 {
        lemma_link_score_sum_bounds(words, t, n - 1);
        if extends(words[t], words[n - 1]) {
            lemma_extension_value_range(words[t].len() as int, words[n - 1].len() as int);
        }
    }
}

/// A substring score is at most 16 points per word of the list.
pub proof fn lemma_substring_score_bounds(words: Seq<Seq<u8>>, t: int)
    requires
        0 <= t < words.len(),
    ensures
        0 <= substring_score(words, t) <= 16 * words.len(),
{
    lemma_link_score_sum_bounds(words, t, words.len() as int);
}

/// Bonus points only grow as more words are counted.
proof fn lemma_backprop_sum_grows(words: Seq<Seq<u8>>, c: int, m: int, n: int)
    requires
        0 <= m <= n <= words.len(),
    ensures
        0 <= backprop_sum(words, c, m) <= backprop_sum(words, c, n),
    decreases n,
{
    if n > m {
        lemma_backprop_sum_grows(words, c, m, n - 1);
        lemma_substring_score_bounds(words, n - 1);
    } else if n > 0 {
        lemma_backprop_sum_grows(words, c, 0, n - 1);
        lemma_substring_score_bounds(words, n - 1);
    }
}

proof fn lemma_score_total_remove(l: Seq<(usize, usize)>, k: int)
    requires
        0 <= k < l.len(),
    ensures
        score_total(l) == score_total(l.remove(k)) + l[k].1,
    decreases l.len(),
{
    if k == l.len() - 1 {
        assert(l.remove(k) =~= l.drop_last());
    } else {
        lemma_score_total_remove(l.drop_last(), k);
        assert(l.remove(k).drop_last() =~= l.drop_last().remove(k));
        assert(l.remove(k).last() == l.last());
    }
}

proof fn lemma_score_total_prefix(l: Seq<(usize, usize)>, k: int)
    requires
        0 <= k <= l.len(),
    ensures
        score_total(l.take(k)) <= score_total(l),
        k < l.len() ==> score_total(l.take(k + 1)) == score_total(l.take(k)) + l[k].1,
    decreases l.len(),
{
    if k < l.len() {
        assert(l.take(k + 1).drop_last() =~= l.take(k));
        lemma_score_total_prefix(l.drop_last(), k);
        assert(l.drop_last().take(k) =~= l.take(k));
    } else {
        assert(l.take(k) =~= l);
    }
}

proof fn lemma_links_total_upto(words: Seq<Seq<u8>>, t: int, l: Seq<(usize, usize)>, n: int)
    requires
        0 <= t < words.len(),
        0 <= n <= words.len(),
        forall|k: int|
            0 <= k < l.len() ==> {
                &&& (#[trigger] l[k]).0 < n
                &&& extends(words[t], words[l[k].0 as int])
                &&& l[k].1 == extension_value(words[t].len() as int, words[l[k].0 as int].len() as int)
            },
        forall|k1: int, k2: int| 0 <= k1 < k2 < l.len() ==> (#[trigger] l[k1]).0 != (#[trigger] l[k2]).0,
        forall|j: int|
            0 <= j < n && extends(words[t], #[trigger] words[j]) ==> exists|k: int|
                0 <= k < l.len() && (#[trigger] l[k]).0 == j,
    ensures
        score_total(l) == link_score_sum(words, t, n),
    decreases n,
{
    if n == 0 {
        if l.len() > 0 {
            assert(l[0].0 < 0);
        }
        assert(l =~= Seq::<(usize, usize)>::empty());
    } else if exists|k: int| 0 <= k < l.len() && (#[trigger] l[k]).0 == n - 1 {
        let k = choose|k: int| 0 <= k < l.len() && (#[trigger] l[k]).0 == n - 1;
        let l2 = l.remove(k);
        lemma_score_total_remove(l, k);
        assert forall|i: int| 0 <= i < l2.len() implies (#[trigger] l2[i]).0 < n - 1 by {
            if i < k {
                assert(l2[i] == l[i]);
            } else {
                assert(l2[i] == l[i + 1]);
            }
        }
        assert forall|k1: int, k2: int| 0 <= k1 < k2 < l2.len() implies (#[trigger] l2[k1]).0 != (#[trigger] l2[k2]).0 by {
            let a = if k1 < k { k1 } else { k1 + 1 };
            let b = if k2 < k { k2 } else { k2 + 1 };
            assert(l2[k1] == l[a] && l2[k2] == l[b]);
        }
        assert forall|j: int| 0 <= j < n - 1 && extends(words[t], #[trigger] words[j]) implies exists|i: int|
            0 <= i < l2.len() && (#[trigger] l2[i]).0 == j by {
            let i = choose|i: int| 0 <= i < l.len() && (#[trigger] l[i]).0 == j;
            if i < k {
                assert(l2[i] == l[i]);
            } else {
                assert(l2[i - 1] == l[i]);
            }
        }
        lemma_links_total_upto(words, t, l2, n - 1);
    } else {
        lemma_links_total_upto(words, t, l, n - 1);
    }
}

/// The scores of a list of links add up to the substring score.
pub proof fn lemma_link_list_total(words: Seq<Seq<u8>>, t: int, l: Seq<(usize, usize)>)
    requires
        0 <= t < words.len(),
        is_link_list(words, t, l),
    ensures
        score_total(l) == substring_score(words, t),
{
    lemma_links_total_upto(words, t, l, words.len() as int);
}

/// Adds up the scores of a list of links of word `t`; none when the sum
/// does not fit a `usize`.
fn links_total(words: Ghost<Seq<Seq<u8>>>, t: usize, links: &Vec<(usize, usize)>) -> (total: Option<usize>)
    requires
        t < words@.len(),
        is_link_list(words@, t as int, links@),
    ensures
        total matches Some(v) ==> v == substring_score(words@, t as int),
        total is None ==> substring_score(words@, t as int) > usize::MAX,
{
    proof {
        lemma_link_list_total(words@, t as int, links@);
    }
    let mut total: usize = 0;
    let mut k: usize = 0;
    while k < links.len()
        invariant
            k <= links@.len(),
            total == score_total(links@.take(k as int)),
            score_total(links@) == substring_score(words@, t as int),
        decreases links.len() - k,
    {
        proof {
            lemma_score_total_prefix(links@, k as int);
            lemma_score_total_prefix(links@, k + 1);
        }
        match total.checked_add(links[k].1) {
            Some(v) => {
                total = v;
            },
            None => {
                return None;
            },
        }
        k = k + 1;
    }
    assert(links@.take(links@.len() as int) =~= links@);
    Some(total)
}

#[verifier::external_type_specification]
#[verifier::external_body]
#[verifier::reject_recursive_types(K)]
#[verifier::reject_recursive_types(V)]
#[verifier::reject_recursive_types(S)]
pub struct ExDashMap<K, V, S>(DashMap<K, V, S>);

/// The entries of a `DashMap` from word positions to bonus points.
pub uninterp spec fn points_contents(m: DashMap<usize, usize>) -> Map<usize, usize>;

/// The points held for `key`, no entry counting as 0.
pub open spec fn points_at_key(m: Map<usize, usize>, key: usize) -> int {
    if m.dom().contains(key) {
        m[key] as int
    } else {
        0
    }
}

/// Calls `dashmap::DashMap::new`, which makes a map with no entries.
#[verifier::external_body]
fn new_points() -> (fresh: DashMap<usize, usize>)
    ensures
        points_contents(fresh).dom().is_empty(),
{
    DashMap::new()
}

/// Calls `dashmap::DashMap::insert`, which sets the entry of `key` to
/// `value`; no other entry changes.
#[verifier::external_body]
fn points_insert(m: &mut DashMap<usize, usize>, key: usize, value: usize)
    ensures
        points_contents(*final(m)) == points_contents(*old(m)).insert(key, value),
{
    m.insert(key, value);
}

/// Calls `dashmap::DashMap::get`, which finds the entry of `key` if there is one.
#[verifier::external_body]
fn points_get(m: &DashMap<usize, usize>, key: usize) -> (r: Option<usize>)
    ensures
        r == (if points_contents(*m).dom().contains(key) {
            Some(points_contents(*m)[key])
        } else {
            None
        }),
{
    match m.get(&key) {
        Some(v) => Some(*v),
        None => None,
    }
}

/// A sorted list of distinct words together with the sorted list of their
/// reversals, so that the words starting or ending with a given word can be
/// found by binary search.
pub struct WordIndex {
    words: Vec<Vec<u8>>,
    reversed: Vec<Vec<u8>>,
}

impl WordIndex {
    /// The words, in lexicographic order.
    pub closed spec fn words(&self) -> Seq<Seq<u8>> {
        byte_strings(self.words@)
    }

    pub closed spec fn well_formed(&self) -> bool {
        &&& strictly_sorted(byte_strings(self.words@))
        &&& strictly_sorted(byte_strings(self.reversed@))
        &&& forall|x: Seq<u8>|
            #![trigger byte_strings(self.reversed@).contains(x)]
            byte_strings(self.reversed@).contains(x) <==> byte_strings(self.words@).contains(
                x.reverse(),
            )
    }

    /// Indexes the words of a list, each once.
    pub fn new(words: Vec<Vec<u8>>) -> (index: Self)
        ensures
            index.well_formed(),
            strictly_sorted(index.words()),
            index.words().to_set() == word_set_of(words@),
    {
        let words = word_set(words);
        let ghost ws = byte_strings(words@);
        let mut reversed: Vec<Vec<u8>> = Vec::new();
        let mut i: usize = 0;
        while i < words.len()
            invariant
                ws == byte_strings(words@),
                i <= words.len(),
                reversed@.len() == i,
                forall|k: int| 0 <= k < i ==> (#[trigger] reversed@[k])@ == ws[k].reverse(),
            decreases words.len() - i,
        {
            reversed.push(bytes_reversed(words[i].as_slice()));
            i = i + 1;
        }
        let ghost rs = byte_strings(reversed@);
        proof {
            assert forall|x: Seq<u8>| rs.contains(x) <==> ws.contains(x.reverse()) by {
                if rs.contains(x) {
                    let k = choose|k: int| 0 <= k < rs.len() && rs[k] == x;
                    assert(rs[k] == reversed@[k]@);
                    lemma_reverse_twice(ws[k]);
                    assert(ws[k] == x.reverse());
                }
                if ws.contains(x.reverse()) {
                    let k = choose|k: int| 0 <= k < ws.len() && ws[k] == x.reverse();
                    assert(rs[k] == reversed@[k]@);
                    lemma_reverse_twice(x);
                    assert(rs[k] == x);
                }
            }
        }
        let reversed = word_set(reversed);
        proof {
            assert forall|x: Seq<u8>| #![trigger byte_strings(reversed@).contains(x)]
                byte_strings(reversed@).contains(x) <==> ws.contains(x.reverse()) by {
                assert(byte_strings(reversed@).contains(x) == word_set_of(reversed@).contains(x));
                assert(rs.contains(x) == rs.to_set().contains(x));
            }
        }
        WordIndex { words, reversed }
    }

    /// The positions of the words that extend word `t`, each once, with the
    /// score each adds: the words that start with it, found as one range of
    /// the sorted list, and the words that end with it, found as one range
    /// of the sorted reversals.
    #[verifier::rlimit(60)]
    pub fn word_links(&self, t: usize) -> (links: Vec<(usize, usize)>)
        requires
            self.well_formed(),
            t < self.words().len(),
        ensures
            is_link_list(self.words(), t as int, links@),
    {
        let ghost ws = self.words();
        let ghost rs = byte_strings(self.reversed@);
        let w = self.words[t].as_slice();
        assert(w@ == ws[t as int]);
        let mut links: Vec<(usize, usize)> = Vec::new();
        if w.len() == 0 {
            return links;
        }
        proof {
            lemma_strictly_sorted_is_sorted(ws);
        }
        let lo = lower_bound(&self.words, w);
        let hi = prefix_end(&self.words, w);
        proof {
            assert forall|i: int| lo <= i < hi implies is_prefix(w@, #[trigger] ws[i]) by {
                assert(ws[i] == self.words@[i]@);
            }
            assert forall|i: int| 0 <= i < ws.len() && !(lo <= i < hi) implies !is_prefix(w@, #[trigger] ws[i]) by {
                assert(ws[i] == self.words@[i]@);
                if i < lo {
                    if is_prefix(w@, ws[i]) {
                        lemma_prefix_not_above(w@, ws[i]);
                    }
                }
            }
            if hi < lo {
                assert(ws[hi as int] == self.words@[hi as int]@);
                assert(byte_lt(ws[hi as int], w@));
                assert(below_or_extends(ws[hi as int], w@));
            }
        }
        let mut j = lo;
        while j < hi
            invariant
                ws == self.words(),
                strictly_sorted(ws),
                t < ws.len(),
                w@ == ws[t as int],
                w@.len() > 0,
                lo <= j <= hi <= ws.len(),
                forall|i: int| lo <= i < hi ==> is_prefix(w@, #[trigger] ws[i]),
                forall|k: int|
                    0 <= k < links@.len() ==> {
                        &&& lo <= (#[trigger] links@[k]).0 < j
                        &&& extends(ws[t as int], ws[links@[k].0 as int])
                        &&& links@[k].1 == extension_value(
                            ws[t as int].len() as int,
                            ws[links@[k].0 as int].len() as int,
                        )
                    },
                forall|k1: int, k2: int|
                    0 <= k1 < k2 < links@.len() ==> (#[trigger] links@[k1]).0 < (
                    #[trigger] links@[k2]).0,
                forall|i: int|
                    lo <= i < j && (#[trigger] ws[i]).len() > w@.len() ==> exists|k: int|
                        0 <= k < links@.len() && (#[trigger] links@[k]).0 == i,
            decreases hi - j,
        {
            let c = self.words[j].as_slice();
            assert(c@ == ws[j as int]);
            if c.len() > w.len() {
                let score = score_extension_value(w.len(), c.len());
                let ghost before = links@;
                links.push((j, score));
                proof {
                    assert(links@[before.len() as int].0 == j);
                    assert forall|i: int| lo <= i < j + 1 && (#[trigger] ws[i]).len() > w@.len() implies exists|k: int|
                        0 <= k < links@.len() && (#[trigger] links@[k]).0 == i by {
                        if i < j {
                            let k = choose|k: int| 0 <= k < before.len() && (#[trigger] before[k]).0 == i;
                            assert(links@[k] == before[k]);
                        } else {
                            assert(links@[before.len() as int].0 == i);
                        }
                    }
                }
            }
            j = j + 1;
        }
        let ghost plen = links@.len();
        let rw = bytes_reversed(w);
        let rlo = lower_bound(&self.reversed, rw.as_slice());
        let rhi = prefix_end(&self.reversed, rw.as_slice());
        proof {
            lemma_strictly_sorted_is_sorted(rs);
            assert forall|i: int| rlo <= i < rhi implies is_prefix(rw@, #[trigger] rs[i]) by {
                assert(rs[i] == self.reversed@[i]@);
            }
            assert forall|i: int| 0 <= i < rs.len() && is_prefix(rw@, #[trigger] rs[i]) implies rlo <= i < rhi by {
                assert(rs[i] == self.reversed@[i]@);
                if i < rlo {
                    lemma_prefix_not_above(rw@, rs[i]);
                }
            }
            if rhi < rlo {
                assert(rs[rhi as int] == self.reversed@[rhi as int]@);
                assert(byte_lt(rs[rhi as int], rw@));
                assert(below_or_extends(rs[rhi as int], rw@));
            }
        }
        let ghost mut origin: Seq<int> = Seq::empty();
        let mut m = rlo;
        while m < rhi
            invariant
                ws == self.words(),
                rs == byte_strings(self.reversed@),
                self.well_formed(),
                strictly_sorted(ws),
                strictly_sorted(rs),
                t < ws.len(),
                w@ == ws[t as int],
                w@.len() > 0,
                rw@ == w@.reverse(),
                rlo <= m <= rhi <= rs.len(),
                forall|i: int| rlo <= i < rhi ==> is_prefix(rw@, #[trigger] rs[i]),
                plen <= links@.len(),
                origin.len() == links@.len() - plen,
                forall|k: int|
                    0 <= k < links@.len() ==> {
                        &&& (#[trigger] links@[k]).0 < ws.len()
                        &&& extends(ws[t as int], ws[links@[k].0 as int])
                        &&& links@[k].1 == extension_value(
                            ws[t as int].len() as int,
                            ws[links@[k].0 as int].len() as int,
                        )
                    },
                forall|k: int| 0 <= k < plen ==> is_prefix(w@, ws[(#[trigger] links@[k]).0 as int]),
                forall|k: int|
                    0 <= k < origin.len() ==> {
                        &&& rlo <= #[trigger] origin[k] < m
                        &&& !is_prefix(w@, ws[links@[plen + k].0 as int])
                        &&& ws[links@[plen + k].0 as int] == rs[origin[k]].reverse()
                    },
                forall|k1: int, k2: int|
                    0 <= k1 < k2 < links@.len() ==> (#[trigger] links@[k1]).0 != (
                    #[trigger] links@[k2]).0,
                forall|i: int|
                    0 <= i < ws.len() && extends(w@, #[trigger] ws[i]) && is_prefix(w@, ws[i])
                        ==> exists|k: int| 0 <= k < links@.len() && (#[trigger] links@[k]).0 == i,
                forall|i: int|
                    rlo <= i < m && (#[trigger] rs[i]).len() > w@.len() && byte_lt(
                        w@,
                        rs[i].reverse(),
                    ) && !is_prefix(w@, rs[i].reverse()) ==> exists|k: int|
                        0 <= k < links@.len() && ws[(#[trigger] links@[k]).0 as int]
                            == rs[i].reverse(),
            decreases rhi - m,
        {
            let r = self.reversed[m].as_slice();
            assert(r@ == rs[m as int]);
            let c = bytes_reversed(r);
            proof {
                lemma_reverse_twice(rs[m as int]);
                assert(rs.contains(rs[m as int]));
                assert(ws.contains(c@));
            }
            if c.len() > w.len() && bytes_lt(w, c.as_slice()) && !bytes_starts_with(c.as_slice(), w) {
                let jj = position_of(&self.words, c.as_slice());
                assert(ws[jj as int] == self.words@[jj as int]@);
                let score = score_extension_value(w.len(), c.len());
                proof {
                    lemma_suffix_is_reversed_prefix(w@, c@);
                    assert(is_suffix(w@, c@));
                    assert forall|k: int| 0 <= k < links@.len() implies (#[trigger] links@[k]).0 != jj by {
                        if k >= plen {
                            let o = origin[k - plen];
                            assert(ws[links@[plen + (k - plen)].0 as int] == rs[o].reverse());
                            if links@[k].0 == jj {
                                lemma_reverse_twice(rs[o]);
                                lemma_strictly_sorted_unique(rs, o, m as int);
                            }
                        }
                    }
                }
                let ghost before = links@;
                links.push((jj, score));
                proof {
                    origin = origin.push(m as int);
                    assert forall|k: int| 0 <= k < origin.len() implies {
                        &&& rlo <= #[trigger] origin[k] < m + 1
                        &&& !is_prefix(w@, ws[links@[plen + k].0 as int])
                        &&& ws[links@[plen + k].0 as int] == rs[origin[k]].reverse()
                    } by {
                        if k < origin.len() - 1 {
                            assert(links@[plen + k] == before[plen + k]);
                        }
                    }
                    assert forall|i: int|
                        0 <= i < ws.len() && extends(w@, #[trigger] ws[i]) && is_prefix(w@, ws[i])
                            implies exists|k: int| 0 <= k < links@.len() && (#[trigger] links@[k]).0 == i by {
                        let k = choose|k: int| 0 <= k < before.len() && (#[trigger] before[k]).0 == i;
                        assert(links@[k] == before[k]);
                    }
                    assert forall|i: int|
                        rlo <= i < m + 1 && (#[trigger] rs[i]).len() > w@.len() && byte_lt(
                            w@,
                            rs[i].reverse(),
                        ) && !is_prefix(w@, rs[i].reverse()) implies exists|k: int|
                            0 <= k < links@.len() && ws[(#[trigger] links@[k]).0 as int]
                                == rs[i].reverse() by {
                        if i < m {
                            let k = choose|k: int| 0 <= k < before.len() && ws[(#[trigger] before[k]).0 as int] == rs[i].reverse();
                            assert(links@[k] == before[k]);
                        } else {
                            assert(links@[before.len() as int].0 == jj);
                        }
                    }
                }
            } else {
                proof {
                    assert forall|i: int|
                        rlo <= i < m + 1 && (#[trigger] rs[i]).len() > w@.len() && byte_lt(
                            w@,
                            rs[i].reverse(),
                        ) && !is_prefix(w@, rs[i].reverse()) implies exists|k: int|
                            0 <= k < links@.len() && ws[(#[trigger] links@[k]).0 as int]
                                == rs[i].reverse() by {
                        if i == m {
                            assert(rs[i].reverse() == c@);
                        }
                    }
                }
            }
            m = m + 1;
        }
        proof {
            let l = links@;
            assert forall|i: int|
                0 <= i < ws.len() && extends(ws[t as int], #[trigger] ws[i]) implies exists|k: int|
                    0 <= k < l.len() && (#[trigger] l[k]).0 == i by {
                if !is_prefix(w@, ws[i]) {
                    let x = ws[i].reverse();
                    lemma_reverse_twice(ws[i]);
                    assert(ws.contains(x.reverse()));
                    assert(rs.contains(x));
                    let mm = choose|mm: int| 0 <= mm < rs.len() && rs[mm] == x;
                    lemma_suffix_is_reversed_prefix(w@, ws[i]);
                    assert(is_prefix(rw@, rs[mm]));
                    assert(rlo <= mm < rhi);
                    assert(rs[mm].reverse() == ws[i]);
                    let k = choose|k: int| 0 <= k < l.len() && ws[(#[trigger] l[k]).0 as int] == rs[mm].reverse();
                    lemma_strictly_sorted_unique(ws, l[k].0 as int, i);
                }
            }
        }
        links
    }

    /// The substring score of word `t`; none when it does not fit a `usize`.
    pub fn substring_score_of(&self, t: usize) -> (score: Option<usize>)
        requires
            self.well_formed(),
            t < self.words().len(),
        ensures
            score matches Some(v) ==> v == substring_score(self.words(), t as int),
            score is None ==> substring_score(self.words(), t as int) > usize::MAX,
    {
        let links = self.word_links(t);
        links_total(Ghost(self.words()), t, &links)
    }

    /// The final score of every word, from the links of every word: its own
    /// substring score plus the substring score of each word that it extends;
    /// none when a score does not fit a `usize`.
    pub fn combine_scores(&self, links: &Vec<Vec<(usize, usize)>>) -> (scores: Option<Vec<usize>>)
        requires
            self.well_formed(),
            links@.len() == self.words().len(),
            forall|t: int| 0 <= t < links@.len() ==> is_link_list(self.words(), t, #[trigger] links@[t]@),
        ensures
            scores is Some <==> all_scores_fit(self.words()),
            scores matches Some(v) ==> v@.len() == self.words().len() && forall|c: int|
                0 <= c < v@.len() ==> #[trigger] v@[c] == final_score(self.words(), c),
    {
        let ghost ws = self.words();
        let n = self.words.len();
        let mut subs: Vec<usize> = Vec::new();
        let mut t: usize = 0;
        while t < n
            invariant
                ws == self.words(),
                n == ws.len(),
                links@.len() == n,
                forall|t: int| 0 <= t < links@.len() ==> is_link_list(ws, t, #[trigger] links@[t]@),
                t <= n,
                subs@.len() == t,
                forall|i: int| 0 <= i < t ==> #[trigger] subs@[i] == substring_score(ws, i),
            decreases n - t,
        {
            match links_total(Ghost(ws), t, &links[t]) {
                Some(total) => {
                    subs.push(total);
                },
                None => {
                    proof {
                        lemma_backprop_sum_grows(ws, t as int, 0, n as int);
                        assert(final_score(ws, t as int) > usize::MAX);
                    }
                    return None;
                },
            }
            t = t + 1;
        }
        let mut points = new_points();
        let mut t: usize = 0;
        while t < n
            invariant
                ws == self.words(),
                n == ws.len(),
                links@.len() == n,
                forall|t: int| 0 <= t < links@.len() ==> is_link_list(ws, t, #[trigger] links@[t]@),
                subs@.len() == n,
                forall|i: int| 0 <= i < n ==> #[trigger] subs@[i] == substring_score(ws, i),
                t <= n,
                forall|c: usize| c < n ==> #[trigger] points_at_key(points_contents(points), c) == backprop_sum(ws, c as int, t as int),
            decreases n - t,
        {
            let row = &links[t];
            assert(is_link_list(ws, t as int, row@));
            let mut k: usize = 0;
            while k < row.len()
                invariant
                    ws == self.words(),
                    n == ws.len(),
                    t < n,
                    is_link_list(ws, t as int, row@),
                    subs@.len() == n,
                    subs@[t as int] == substring_score(ws, t as int),
                    k <= row@.len(),
                    forall|c: usize| c < n ==> #[trigger] points_at_key(points_contents(points), c)
                        == backprop_sum(ws, c as int, t as int) + if exists|i: int| 0 <= i < k && (#[trigger] row@[i]).0 == c {
                            substring_score(ws, t as int)
                        } else {
                            0
                        },
                decreases row.len() - k,
            {
                let target = row[k].0;
                let ghost before = points_contents(points);
                proof {
                    assert(row@[k as int].0 == target);
                    assert(!(exists|i: int| 0 <= i < k && (#[trigger] row@[i]).0 == target));
                }
                let current = match points_get(&points, target) {
                    Some(p) => p,
                    None => 0,
                };
                proof {
                    assert(target < n);
                    assert(points_at_key(points_contents(points), target) == current);
                }
                assert(current == backprop_sum(ws, target as int, t as int));
                let raised = match current.checked_add(subs[t]) {
                    Some(v) => v,
                    None => {
                        proof {
                            assert(extends(ws[t as int], ws[target as int]));
                            lemma_backprop_sum_grows(ws, target as int, t + 1, n as int);
                            lemma_substring_score_bounds(ws, target as int);
                            assert(final_score(ws, target as int) > usize::MAX);
                        }
                        return None;
                    },
                };
                points_insert(&mut points, target, raised);
                proof {
                    assert forall|c: usize| c < n implies #[trigger] points_at_key(points_contents(points), c)
                        == backprop_sum(ws, c as int, t as int) + if exists|i: int| 0 <= i < k + 1 && (#[trigger] row@[i]).0 == c {
                            substring_score(ws, t as int)
                        } else {
                            0
                        } by {
                        assert(points_at_key(before, c) == backprop_sum(ws, c as int, t as int) + if exists|i: int| 0 <= i < k && (#[trigger] row@[i]).0 == c {
                            substring_score(ws, t as int)
                        } else {
                            0
                        });
                        if c == target {
                            assert(row@[k as int].0 == c);
                        } else {
                            if exists|i: int| 0 <= i < k + 1 && (#[trigger] row@[i]).0 == c {
                                let i = choose|i: int| 0 <= i < k + 1 && (#[trigger] row@[i]).0 == c;
                                assert(i < k);
                            }
                        }
                    }
                }
                k = k + 1;
            }
            proof {
                assert forall|c: usize| c < n implies #[trigger] points_at_key(points_contents(points), c) == backprop_sum(ws, c as int, t + 1) by {
                    if extends(ws[t as int], ws[c as int]) {
                        assert(exists|i: int| 0 <= i < row@.len() && (#[trigger] row@[i]).0 == c as int);
                    } else if exists|i: int| 0 <= i < row@.len() && (#[trigger] row@[i]).0 == c {
                        let i = choose|i: int| 0 <= i < row@.len() && (#[trigger] row@[i]).0 == c;
                        assert(extends(ws[t as int], ws[row@[i].0 as int]));
                    }
                }
            }
            t = t + 1;
        }
        let mut scores: Vec<usize> = Vec::new();
        let mut c: usize = 0;
        while c < n
            invariant
                ws == self.words(),
                n == ws.len(),
                subs@.len() == n,
                forall|i: int| 0 <= i < n ==> #[trigger] subs@[i] == substring_score(ws, i),
                forall|c: usize| c < n ==> #[trigger] points_at_key(points_contents(points), c) == backprop_sum(ws, c as int, n as int),
                c <= n,
                scores@.len() == c,
                forall|i: int| 0 <= i < c ==> #[trigger] scores@[i] == final_score(ws, i),
            decreases n - c,
        {
            let bonus = match points_get(&points, c) {
                Some(p) => p,
                None => 0,
            };
            assert(points_at_key(points_contents(points), c) == bonus);
            match subs[c].checked_add(bonus) {
                Some(v) => {
                    scores.push(v);
                },
                None => {
                    proof {
                        assert(final_score(ws, c as int) == subs@[c as int] + bonus);
                        assert(!all_scores_fit(ws));
                    }
                    return None;
                },
            }
            c = c + 1;
        }
        proof {
            assert forall|i: int| 0 <= i < n implies #[trigger] final_score(ws, i) <= usize::MAX by {
                assert(scores@[i] == final_score(ws, i));
            }
        }
        Some(scores)
    }

    /// The final score of every word, each word's links found in turn; none
    /// when a score does not fit a `usize`.
    pub fn score_words(&self) -> (scores: Option<Vec<usize>>)
        requires
            self.well_formed(),
        ensures
            scores is Some <==> all_scores_fit(self.words()),
            scores matches Some(v) ==> v@.len() == self.words().len() && forall|c: int|
                0 <= c < v@.len() ==> #[trigger] v@[c] == final_score(self.words(), c),
    {
        let n = self.words.len();
        let mut links: Vec<Vec<(usize, usize)>> = Vec::new();
        let mut t: usize = 0;
        while t < n
            invariant
                self.well_formed(),
                n == self.words().len(),
                t <= n,
                links@.len() == t,
                forall|i: int| 0 <= i < t ==> is_link_list(self.words(), i, #[trigger] links@[i]@),
            decreases n - t,
        {
            links.push(self.word_links(t));
            t = t + 1;
        }
        self.combine_scores(&links)
    }

    /// The number of words.
    pub fn len(&self) -> (n: usize)
        ensures
            n == self.words().len(),
    {
        self.words.len()
    }

    /// The words, in lexicographic order.
    pub fn word_list(&self) -> (words: &Vec<Vec<u8>>)
        ensures
            byte_strings(words@) == self.words(),
    {
        &self.words
    }
}

} // verus!
