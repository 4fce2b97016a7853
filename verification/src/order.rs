//! Lexicographic order on byte strings, prefixes and suffixes, and the
//! binary searches that the dictionary relies on.
use vstd::prelude::*;

verus! {

/// `a` and `b` hold the same bytes at each of their first `k` positions.
pub open spec fn agree_upto(a: Seq<u8>, b: Seq<u8>, k: int) -> bool {
    &&& 0 <= k <= a.len()
    &&& k <= b.len()
    &&& forall|i: int| 0 <= i < k ==> a[i] == b[i]
}

/// Position `k` is where `a` first falls below `b`: either `a` ends there
/// while `b` goes on, or both go on and `a` holds the smaller byte.
pub open spec fn lt_at(a: Seq<u8>, b: Seq<u8>, k: int) -> bool {
    &&& agree_upto(a, b, k)
    &&& {
        ||| k == a.len() && k < b.len()
        ||| k < a.len() && k < b.len() && a[k] < b[k]
    }
}

/// Lexicographic order of byte strings, the order of `[u8]`, `Vec<u8>` and `str`:
/// the first differing byte decides, and a proper prefix comes first.
pub open spec fn byte_lt(a: Seq<u8>, b: Seq<u8>) -> bool {
    exists|k: int| #[trigger] lt_at(a, b, k)
}

/// `p` is a prefix of `s`.
pub open spec fn is_prefix(p: Seq<u8>, s: Seq<u8>) -> bool {
    p.len() <= s.len() && forall|i: int| 0 <= i < p.len() ==> p[i] == s[i]
}

/// `p` is a suffix of `s`.
pub open spec fn is_suffix(p: Seq<u8>, s: Seq<u8>) -> bool {
    p.len() <= s.len() && forall|i: int| 0 <= i < p.len() ==> p[i] == s[s.len() - p.len() + i]
}

/// The views of a sequence of byte vectors.
pub open spec fn byte_strings(v: Seq<Vec<u8>>) -> Seq<Seq<u8>> {
    v.map_values(|b: Vec<u8>| b@)
}

/// Each byte string is below the next one: no two are equal.
pub open spec fn strictly_sorted(s: Seq<Seq<u8>>) -> bool {
    forall|i: int, j: int| 0 <= i < j < s.len() ==> byte_lt(#[trigger] s[i], #[trigger] s[j])
}

/// No byte string is below one that comes before it.
pub open spec fn sorted(s: Seq<Seq<u8>>) -> bool {
    forall|i: int, j: int| 0 <= i < j < s.len() ==> !byte_lt(#[trigger] s[j], #[trigger] s[i])
}

pub proof fn lemma_lt_asymmetric(a: Seq<u8>, b: Seq<u8>)
    requires
        byte_lt(a, b),
    ensures
        !byte_lt(b, a),
        a != b,
{
    let k1 = choose|k: int| lt_at(a, b, k);
    if byte_lt(b, a) {
        let k2 = choose|k: int| lt_at(b, a, k);
        if k1 < k2 {
            assert(a[k1] == b[k1]);
        } else if k2 < k1 {
            assert(a[k2] == b[k2]);
        }
    }
    if a == b {
        assert(a[k1] == b[k1]);
    }
}

pub proof fn lemma_lt_irreflexive(a: Seq<u8>)
    ensures
        !byte_lt(a, a),
{
    if byte_lt(a, a) {
        lemma_lt_asymmetric(a, a);
    }
}

pub proof fn lemma_lt_transitive(a: Seq<u8>, b: Seq<u8>, c: Seq<u8>)
    requires
        byte_lt(a, b),
        byte_lt(b, c),
    ensures
        byte_lt(a, c),
{
    let k1 = choose|k: int| lt_at(a, b, k);
    let k2 = choose|k: int| lt_at(b, c, k);
    if k1 < k2 {
        assert(lt_at(a, c, k1));
    } else if k2 < k1 {
        assert(a[k2] == b[k2]);
        assert(lt_at(a, c, k2));
    } else {
        assert(lt_at(a, c, k1));
    }
}

proof fn lemma_total_from(a: Seq<u8>, b: Seq<u8>, k: int)
    requires
        agree_upto(a, b, k),
    ensures
        a == b || byte_lt(a, b) || byte_lt(b, a),
    decreases a.len() - k,
{
    if k == a.len() && k == b.len() {
        assert(a =~= b);
    } else if k == a.len() {
        assert(lt_at(a, b, k));
    } else if k == b.len() {
        assert(lt_at(b, a, k));
    } else if a[k] < b[k] {
        assert(lt_at(a, b, k));
    } else if b[k] < a[k] {
        assert(lt_at(b, a, k));
    } else {
        lemma_total_from(a, b, k + 1);
    }
}

pub proof fn lemma_lt_total(a: Seq<u8>, b: Seq<u8>)
    ensures
        a == b || byte_lt(a, b) || byte_lt(b, a),
{
    lemma_total_from(a, b, 0);
}

/// A byte string never lies below one of its prefixes.
pub proof fn lemma_prefix_not_above(p: Seq<u8>, x: Seq<u8>)
    requires
        is_prefix(p, x),
    ensures
        !byte_lt(x, p),
{
    if byte_lt(x, p) {
        let k = choose|k: int| lt_at(x, p, k);
        assert(x[k] == p[k]);
    }
}

/// Whatever lies between a prefix of `y` and `y` itself has that prefix too.
pub proof fn lemma_prefix_between(p: Seq<u8>, x: Seq<u8>, y: Seq<u8>)
    requires
        is_prefix(p, y),
        !byte_lt(x, p),
        byte_lt(x, y),
    ensures
        is_prefix(p, x),
{
    lemma_lt_total(p, x);
    if p != x {
        let k = choose|k: int| lt_at(p, x, k);
        let k2 = choose|k: int| lt_at(x, y, k);
        if k < p.len() {
            assert(p[k] < x[k]);
            if k2 > k {
                assert(x[k] == y[k]);
            } else if k2 == k {
                assert(y[k] == p[k]);
            } else {
                assert(x[k2] == p[k2]);
                assert(y[k2] == p[k2]);
            }
            assert(false);
        }
    }
}

/// Appending a byte string above all entries keeps a list strictly sorted.
pub proof fn lemma_strictly_sorted_push(s: Seq<Seq<u8>>, y: Seq<u8>)
    requires
        strictly_sorted(s),
        forall|k: int| 0 <= k < s.len() ==> byte_lt(#[trigger] s[k], y),
    ensures
        strictly_sorted(s.push(y)),
{
    assert forall|i: int, j: int| 0 <= i < j < s.push(y).len() implies byte_lt(
        #[trigger] s.push(y)[i],
        #[trigger] s.push(y)[j],
    ) by {
        if j < s.len() {
            assert(byte_lt(s[i], s[j]));
        } else {
            assert(byte_lt(s[i], y));
        }
    }
}

/// Reversing twice gives back the byte string.
pub proof fn lemma_reverse_twice(s: Seq<u8>)
    ensures
        s.reverse().reverse() == s,
        s.reverse().len() == s.len(),
{
    assert(s.reverse().reverse() =~= s);
}

/// `p` ends `s` exactly when the reverse of `p` starts the reverse of `s`.
pub proof fn lemma_suffix_is_reversed_prefix(p: Seq<u8>, s: Seq<u8>)
    ensures
        is_suffix(p, s) == is_prefix(p.reverse(), s.reverse()),
{
    if is_prefix(p.reverse(), s.reverse()) {
        assert forall|i: int| 0 <= i < p.len() implies p[i] == s[s.len() - p.len() + i] by {
            let j = p.len() - 1 - i;
            assert(p.reverse()[j] == s.reverse()[j]);
        }
    }
}

/// In a list with no repetition, equal entries stand at the same position.
pub proof fn lemma_strictly_sorted_unique(s: Seq<Seq<u8>>, i: int, j: int)
    requires
        strictly_sorted(s),
        0 <= i < s.len(),
        0 <= j < s.len(),
        s[i] == s[j],
    ensures
        i == j,
{
    if i < j {
        assert(byte_lt(s[i], s[j]));
        lemma_lt_irreflexive(s[i]);
    } else if j < i {
        assert(byte_lt(s[j], s[i]));
        lemma_lt_irreflexive(s[i]);
    }
}

/// Sorted lists with no repetition are sorted.
pub proof fn lemma_strictly_sorted_is_sorted(s: Seq<Seq<u8>>)
    requires
        strictly_sorted(s),
    ensures
        sorted(s),
{
    assert forall|i: int, j: int| 0 <= i < j < s.len() implies !byte_lt(#[trigger] s[j], #[trigger] s[i]) by {
        lemma_lt_asymmetric(s[i], s[j]);
    }
}

/// Whether `a` comes before `b` in lexicographic order.
pub fn bytes_lt(a: &[u8], b: &[u8]) -> (r: bool)
    ensures
        r == byte_lt(a@, b@),
{
    let mut i: usize = 0;
    while i < a.len() && i < b.len()
        invariant
            agree_upto(a@, b@, i as int),
        decreases a.len() - i,
    {
        if a[i] != b[i] {
            if a[i] < b[i] {
                assert(lt_at(a@, b@, i as int));
                return true;
            } else {
                assert(lt_at(b@, a@, i as int));
                proof {
                    lemma_lt_asymmetric(b@, a@);
                }
                return false;
            }
        }
        i = i + 1;
    }
    if i < b.len() {
        assert(lt_at(a@, b@, i as int));
        true
    } else {
        proof {
            if byte_lt(a@, b@) {
                let k = choose|k: int| lt_at(a@, b@, k);
                assert(a@[k] == b@[k]);
            }
        }
        false
    }
}

/// Whether `a` and `b` hold the same bytes.
pub fn bytes_eq(a: &[u8], b: &[u8]) -> (r: bool)
    ensures
        r == (a@ == b@),
{
    if a.len() != b.len() {
        return false;
    }
    let mut i: usize = 0;
    while i < a.len()
        invariant
            a.len() == b.len(),
            agree_upto(a@, b@, i as int),
        decreases a.len() - i,
    {
        if a[i] != b[i] {
            return false;
        }
        i = i + 1;
    }
    assert(a@ =~= b@);
    true
}

/// Whether `p` is a prefix of `s`.
pub fn bytes_starts_with(s: &[u8], p: &[u8]) -> (r: bool)
    ensures
        r == is_prefix(p@, s@),
{
    if p.len() > s.len() {
        return false;
    }
    let mut i: usize = 0;
    while i < p.len()
        invariant
            p.len() <= s.len(),
            agree_upto(p@, s@, i as int),
        decreases p.len() - i,
    {
        if p[i] != s[i] {
            return false;
        }
        i = i + 1;
    }
    true
}

/// A copy of a byte vector.
pub fn copy_bytes(b: &Vec<u8>) -> (r: Vec<u8>)
    ensures
        r@ == b@,
{
    let r = b.clone();
    assert(r@ =~= b@);
    r
}

/// A copy of a list of byte vectors.
pub fn copy_byte_strings(v: &Vec<Vec<u8>>) -> (r: Vec<Vec<u8>>)
    ensures
        byte_strings(r@) == byte_strings(v@),
{
    let mut r: Vec<Vec<u8>> = Vec::new();
    let mut i: usize = 0;
    while i < v.len()
        invariant
            i <= v.len(),
            r@.len() == i,
            forall|k: int| 0 <= k < i ==> (#[trigger] r@[k])@ == v@[k]@,
        decreases v.len() - i,
    {
        r.push(copy_bytes(&v[i]));
        i = i + 1;
    }
    assert(byte_strings(r@) =~= byte_strings(v@));
    r
}

/// The bytes of `s` in reverse order.
pub fn bytes_reversed(s: &[u8]) -> (r: Vec<u8>)
    ensures
        r@ == s@.reverse(),
{
    let mut r: Vec<u8> = Vec::new();
    let mut i: usize = s.len();
    while i > 0
        invariant
            i <= s.len(),
            r@.len() == s.len() - i,
            forall|j: int| 0 <= j < r@.len() ==> r@[j] == s@[s.len() - 1 - j],
        decreases i,
    {
        i = i - 1;
        r.push(s[i]);
    }
    assert(r@ =~= s@.reverse());
    r
}

/// The number of entries of a sorted list that lie below `key`: the first
/// position at which `key` could stand.
pub fn lower_bound(words: &Vec<Vec<u8>>, key: &[u8]) -> (idx: usize)
    requires
        sorted(byte_strings(words@)),
    ensures
        idx <= words.len(),
        forall|i: int| 0 <= i < idx ==> byte_lt(#[trigger] words@[i]@, key@),
        forall|i: int| idx <= i < words.len() ==> !byte_lt(#[trigger] words@[i]@, key@),
{
    let ghost ws = byte_strings(words@);
    let mut lo: usize = 0;
    let mut hi: usize = words.len();
    while lo < hi
        invariant
            ws == byte_strings(words@),
            sorted(ws),
            lo <= hi <= words.len(),
            forall|i: int| 0 <= i < lo ==> byte_lt(#[trigger] words@[i]@, key@),
            forall|i: int| hi <= i < words.len() ==> !byte_lt(#[trigger] words@[i]@, key@),
        decreases hi - lo,
    {
        let mid = lo + (hi - lo) / 2;
        if bytes_lt(words[mid].as_slice(), key) {
            assert forall|i: int| 0 <= i <= mid implies byte_lt(#[trigger] words@[i]@, key@) by {
                if i < mid {
                    assert(ws[i] == words@[i]@ && ws[mid as int] == words@[mid as int]@);
                    lemma_lt_total(words@[i]@, words@[mid as int]@);
                    if words@[i]@ != words@[mid as int]@ {
                        if byte_lt(words@[mid as int]@, words@[i]@) {
                            assert(!byte_lt(ws[mid as int], ws[i]));
                        }
                        lemma_lt_transitive(words@[i]@, words@[mid as int]@, key@);
                    }
                }
            }
            lo = mid + 1;
        } else {
            assert forall|i: int| mid <= i < words.len() implies !byte_lt(#[trigger] words@[i]@, key@) by {
                if mid < i && byte_lt(words@[i]@, key@) {
                    assert(ws[i] == words@[i]@ && ws[mid as int] == words@[mid as int]@);
                    lemma_lt_total(words@[i]@, words@[mid as int]@);
                    if words@[i]@ != words@[mid as int]@ {
                        if byte_lt(words@[i]@, words@[mid as int]@) {
                            assert(!byte_lt(ws[i], ws[mid as int]));
                        }
                        lemma_lt_transitive(words@[mid as int]@, words@[i]@, key@);
                    }
                }
            }
            hi = mid;
        }
    }
    lo
}

/// The position of a word that a sorted list without repetition holds.
pub fn position_of(words: &Vec<Vec<u8>>, key: &[u8]) -> (idx: usize)
    requires
        strictly_sorted(byte_strings(words@)),
        byte_strings(words@).contains(key@),
    ensures
        idx < words.len(),
        words@[idx as int]@ == key@,
{
    let ghost ws = byte_strings(words@);
    proof {
        lemma_strictly_sorted_is_sorted(ws);
    }
    let idx = lower_bound(words, key);
    proof {
        let i = choose|i: int| 0 <= i < ws.len() && ws[i] == key@;
        assert(ws[i] == words@[i]@);
        lemma_lt_irreflexive(key@);
        if idx < i {
            assert(ws[idx as int] == words@[idx as int]@);
            assert(byte_lt(ws[idx as int], ws[i]));
        }
    }
    idx
}

/// Whether `x` lies below `p` or starts with it: in a sorted list these
/// entries come first.
pub open spec fn below_or_extends(x: Seq<u8>, p: Seq<u8>) -> bool {
    byte_lt(x, p) || is_prefix(p, x)
}

proof fn lemma_below_or_extends_downward(x: Seq<u8>, y: Seq<u8>, p: Seq<u8>)
    requires
        byte_lt(x, y),
        below_or_extends(y, p),
    ensures
        below_or_extends(x, p),
{
    if byte_lt(y, p) {
        lemma_lt_transitive(x, y, p);
    } else if !byte_lt(x, p) {
        lemma_prefix_between(p, x, y);
    }
}

/// The first position of a sorted list past every entry that lies below `p`
/// or starts with `p`.
pub fn prefix_end(words: &Vec<Vec<u8>>, p: &[u8]) -> (idx: usize)
    requires
        strictly_sorted(byte_strings(words@)),
    ensures
        idx <= words.len(),
        forall|i: int| 0 <= i < idx ==> below_or_extends(#[trigger] words@[i]@, p@),
        forall|i: int| idx <= i < words.len() ==> !below_or_extends(#[trigger] words@[i]@, p@),
{
    let ghost ws = byte_strings(words@);
    let mut lo: usize = 0;
    let mut hi: usize = words.len();
    while lo < hi
        invariant
            ws == byte_strings(words@),
            strictly_sorted(ws),
            lo <= hi <= words.len(),
            forall|i: int| 0 <= i < lo ==> below_or_extends(#[trigger] words@[i]@, p@),
            forall|i: int| hi <= i < words.len() ==> !below_or_extends(#[trigger] words@[i]@, p@),
        decreases hi - lo,
    {
        let mid = lo + (hi - lo) / 2;
        let w = words[mid].as_slice();
        if bytes_lt(w, p) || bytes_starts_with(w, p) {
            assert forall|i: int| 0 <= i <= mid implies below_or_extends(#[trigger] words@[i]@, p@) by {
                if i < mid {
                    assert(ws[i] == words@[i]@ && ws[mid as int] == words@[mid as int]@);
                    lemma_below_or_extends_downward(words@[i]@, words@[mid as int]@, p@);
                }
            }
            lo = mid + 1;
        } else {
            assert forall|i: int| mid <= i < words.len() implies !below_or_extends(#[trigger] words@[i]@, p@) by {
                if mid < i && below_or_extends(words@[i]@, p@) {
                    assert(ws[i] == words@[i]@ && ws[mid as int] == words@[mid as int]@);
                    lemma_below_or_extends_downward(words@[mid as int]@, words@[i]@, p@);
                }
            }
            hi = mid;
        }
    }
    lo
}

} // verus!
