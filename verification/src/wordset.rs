//! Sets of words held as sorted lists of byte strings with no repetition.
use vstd::prelude::*;
use crate::order::{
    byte_lt, byte_strings, bytes_eq, lemma_lt_irreflexive, lemma_lt_total, lemma_lt_transitive,
    lemma_strictly_sorted_is_sorted, lemma_strictly_sorted_push, lower_bound, copy_bytes, sorted, strictly_sorted,
};

verus! {

broadcast use {
    vstd::seq_lib::group_to_multiset_ensures,
    vstd::seq_lib::lemma_seq_contains_after_push,
    vstd::seq_lib::lemma_seq_concat_contains_all_elements,
};

/// The words that a list holds, as a set.
pub open spec fn word_set_of(v: Seq<Vec<u8>>) -> Set<Seq<u8>> {
    byte_strings(v).to_set()
}

/// Calls `<[Vec<u8>]>::sort_unstable`. Its documentation promises that the
/// entries come out in ascending order of `Vec<u8>`'s `Ord`, which compares
/// lexicographically, and that the sort only rearranges them.
#[verifier::external_body]
fn sort_byte_strings(v: &mut Vec<Vec<u8>>)
    ensures
        sorted(byte_strings(final(v)@)),
        byte_strings(final(v)@).to_multiset() == byte_strings(old(v)@).to_multiset(),
{
    v.sort_unstable();
}

/// Drops the repetitions of a sorted list.
fn dedup_sorted(v: &Vec<Vec<u8>>) -> (r: Vec<Vec<u8>>)
    requires
        sorted(byte_strings(v@)),
    ensures
        strictly_sorted(byte_strings(r@)),
        word_set_of(r@) == word_set_of(v@),
{
    let ghost s = byte_strings(v@);
    let mut r: Vec<Vec<u8>> = Vec::new();
    let mut i: usize = 0;
    while i < v.len()
        invariant
            s == byte_strings(v@),
            sorted(s),
            i <= v.len(),
            r@.len() <= i,
            strictly_sorted(byte_strings(r@)),
            i > 0 ==> r@.len() > 0 && r@.last()@ == s[i - 1],
            forall|x: Seq<u8>| byte_strings(r@).contains(x) <==> s.take(i as int).contains(x),
        decreases v.len() - i,
    {
        let ghost rs = byte_strings(r@);
        assert(s[i as int] == v@[i as int]@);
        if r.len() == 0 || !bytes_eq(r[r.len() - 1].as_slice(), v[i].as_slice()) {
            proof {
                if i > 0 {
                    assert(!byte_lt(s[i as int], s[i - 1]));
                    lemma_lt_total(s[i - 1], s[i as int]);
                    assert(byte_lt(rs.last(), s[i as int]));
                    assert forall|k: int| 0 <= k < rs.len() implies byte_lt(#[trigger] rs[k], s[i as int]) by {
                        if k < rs.len() - 1 {
                            lemma_lt_transitive(rs[k], rs.last(), s[i as int]);
                        }
                    }
                }
            }
            r.push(copy_bytes(&v[i]));
            assert(byte_strings(r@) =~= rs.push(s[i as int]));
            proof {
                lemma_strictly_sorted_push(rs, s[i as int]);
            }
        } else {
            assert(rs[rs.len() - 1] == r@[r@.len() - 1]@);
            assert(rs.contains(s[i as int]));
        }
        proof {
            assert(s.take(i + 1) =~= s.take(i as int).push(s[i as int]));
        }
        i = i + 1;
    }
    assert(s.take(v.len() as int) =~= s);
    assert(word_set_of(r@) =~= word_set_of(v@));
    r
}

/// The words of a list, sorted, each once.
pub fn word_set(words: Vec<Vec<u8>>) -> (r: Vec<Vec<u8>>)
    ensures
        strictly_sorted(byte_strings(r@)),
        word_set_of(r@) == word_set_of(words@),
{
    let mut words = words;
    let ghost before = byte_strings(words@);
    sort_byte_strings(&mut words);
    proof {
        let after = byte_strings(words@);
        assert forall|x: Seq<u8>| after.contains(x) <==> before.contains(x) by {
            assert(after.to_multiset().count(x) == before.to_multiset().count(x));
        }
        assert(word_set_of(words@) =~= before.to_set());
    }
    dedup_sorted(&words)
}

/// Whether a sorted list holds `w`.
pub fn contains_word(set: &Vec<Vec<u8>>, w: &[u8]) -> (r: bool)
    requires
        sorted(byte_strings(set@)),
    ensures
        r == word_set_of(set@).contains(w@),
{
    let i = lower_bound(set, w);
    let r = i < set.len() && bytes_eq(set[i as usize].as_slice(), w);
    proof {
        let s = byte_strings(set@);
        if !r && s.contains(w@) {
            let j = choose|j: int| 0 <= j < s.len() && s[j] == w@;
            lemma_lt_irreflexive(w@);
            assert(s[j] == set@[j]@);
            if i < set.len() {
                assert(!byte_lt(set@[i as int]@, w@));
                lemma_lt_total(set@[i as int]@, w@);
                assert(byte_lt(w@, set@[i as int]@));
                if j > i {
                    assert(!byte_lt(s[j], s[i as int]));
                    assert(s[i as int] == set@[i as int]@);
                }
            }
        }
        if r {
            assert(s[i as int] == set@[i as int]@);
        }
    }
    r
}

/// The entries of a sorted list that lie in (`keep_members`) or outside
/// (`!keep_members`) another sorted list, in their order.
fn filter_by_membership(list: &Vec<Vec<u8>>, other: &Vec<Vec<u8>>, keep_members: bool) -> (r: Vec<Vec<u8>>)
    requires
        strictly_sorted(byte_strings(list@)),
        sorted(byte_strings(other@)),
    ensures
        strictly_sorted(byte_strings(r@)),
        forall|x: Seq<u8>| #[trigger] word_set_of(r@).contains(x) <==> (word_set_of(list@).contains(x)
            && word_set_of(other@).contains(x) == keep_members),
{
    let ghost s = byte_strings(list@);
    let ghost o = word_set_of(other@);
    let mut r: Vec<Vec<u8>> = Vec::new();
    let ghost mut from: Seq<int> = Seq::empty();
    let mut i: usize = 0;
    while i < list.len()
        invariant
            s == byte_strings(list@),
            o == word_set_of(other@),
            strictly_sorted(s),
            sorted(byte_strings(other@)),
            i <= list.len(),
            from.len() == r@.len(),
            forall|k: int| 0 <= k < from.len() ==> 0 <= #[trigger] from[k] < i && r@[k]@ == s[from[k]],
            strictly_sorted(byte_strings(r@)),
            forall|x: Seq<u8>|
                #![trigger byte_strings(r@).contains(x)]
                #![trigger s.take(i as int).contains(x)]
                byte_strings(r@).contains(x) <==> (s.take(i as int).contains(x) && o.contains(x) == keep_members),
        decreases list.len() - i,
    {
        let ghost rs = byte_strings(r@);
        assert(s[i as int] == list@[i as int]@);
        let member = contains_word(other, list[i].as_slice());
        if member == keep_members {
            proof {
                assert forall|k: int| 0 <= k < rs.len() implies byte_lt(#[trigger] rs[k], s[i as int]) by {
                    assert(rs[k] == r@[k]@);
                    assert(from[k] < i);
                }
            }
            r.push(copy_bytes(&list[i]));
            proof {
                from = from.push(i as int);
                assert(byte_strings(r@) =~= rs.push(s[i as int]));
                lemma_strictly_sorted_push(rs, s[i as int]);
            }
        }
        proof {
            assert(s.take(i + 1) =~= s.take(i as int).push(s[i as int]));
            assert forall|x: Seq<u8>| byte_strings(r@).contains(x) <==> (s.take(i + 1).contains(x)
                && o.contains(x) == keep_members) by {
                assert(s.take(i as int).push(s[i as int]).contains(x) <==> (s[i as int] == x || s.take(
                    i as int,
                ).contains(x)));
                if x == s[i as int] {
                    assert(o.contains(x) == member);
                }
                if member == keep_members {
                    assert(byte_strings(r@).contains(x) <==> (rs.contains(x) || x == s[i as int]));
                } else {
                    assert(byte_strings(r@) == rs);
                }
            }
        }
        i = i + 1;
    }
    proof {
        assert(s.take(list.len() as int) =~= s);
        assert forall|x: Seq<u8>| #[trigger] word_set_of(r@).contains(x) <==> (word_set_of(list@).contains(x)
            && word_set_of(other@).contains(x) == keep_members) by {
            assert(byte_strings(r@).contains(x) <==> (s.take(list.len() as int).contains(x) && o.contains(x) == keep_members));
        }
    }
    r
}

/// The words that one list shares with another, sorted, each once.
pub fn intersect_words(a: Vec<Vec<u8>>, b: Vec<Vec<u8>>) -> (r: Vec<Vec<u8>>)
    ensures
        strictly_sorted(byte_strings(r@)),
        word_set_of(r@) == word_set_of(a@).intersect(word_set_of(b@)),
{
    let sa = word_set(a);
    let sb = word_set(b);
    proof {
        lemma_strictly_sorted_is_sorted(byte_strings(sb@));
    }
    let r = filter_by_membership(&sa, &sb, true);
    assert(word_set_of(r@) =~= word_set_of(a@).intersect(word_set_of(b@)));
    r
}

/// The words of two lists together, sorted, each once.
pub fn union_words(a: Vec<Vec<u8>>, b: Vec<Vec<u8>>) -> (r: Vec<Vec<u8>>)
    ensures
        strictly_sorted(byte_strings(r@)),
        word_set_of(r@) == word_set_of(a@).union(word_set_of(b@)),
{
    let mut a = a;
    let mut b = b;
    let ghost sa = byte_strings(a@);
    let ghost sb = byte_strings(b@);
    a.append(&mut b);
    assert(byte_strings(a@) =~= sa + sb);
    let r = word_set(a);
    proof {
        assert forall|x: Seq<u8>| (sa + sb).contains(x) <==> sa.contains(x) || sb.contains(x) by {
            if (sa + sb).contains(x) {
                let j = choose|j: int| 0 <= j < (sa + sb).len() && (sa + sb)[j] == x;
                if j >= sa.len() {
                    assert(sb[j - sa.len()] == x);
                }
            }
            if sb.contains(x) {
                let j = choose|j: int| 0 <= j < sb.len() && sb[j] == x;
                assert((sa + sb)[j + sa.len()] == x);
            }
            if sa.contains(x) {
                let j = choose|j: int| 0 <= j < sa.len() && sa[j] == x;
                assert((sa + sb)[j] == x);
            }
        }
        assert(word_set_of(r@) =~= word_set_of(a@).union(word_set_of(b@)));
    }
    r
}

/// The words of one list that another list does not hold, sorted, each once.
pub fn remove_words(a: Vec<Vec<u8>>, b: Vec<Vec<u8>>) -> (r: Vec<Vec<u8>>)
    ensures
        strictly_sorted(byte_strings(r@)),
        word_set_of(r@) == word_set_of(a@).difference(word_set_of(b@)),
{
    let sa = word_set(a);
    let sb = word_set(b);
    proof {
        lemma_strictly_sorted_is_sorted(byte_strings(sb@));
    }
    let r = filter_by_membership(&sa, &sb, false);
    assert(word_set_of(r@) =~= word_set_of(a@).difference(word_set_of(b@)));
    r
}

} // verus!
