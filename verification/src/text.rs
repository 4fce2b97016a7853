//! Normalising German words and deciding which of them the dictionary takes.
use vstd::prelude::*;
use vstd::utf8::{encode_utf8, is_ascii_chars, is_ascii_chars_encode_utf8};

verus! {

/// Words counted fewer times than this in the frequency corpus are left out.
pub const MIN_WORD_FREQUENCY: usize = 5;

/// What `str::to_lowercase` makes of a string: each character mapped to its
/// lowercase form under Unicode's rules.
pub uninterp spec fn unicode_lowercase(s: Seq<char>) -> Seq<char>;

/// Calls `str::to_lowercase`; the result is named, not described.
#[verifier::external_body]
fn to_lowercase(s: &str) -> (lower: String)
    ensures
        lower@ == unicode_lowercase(s@),
{
    s.to_lowercase()
}

/// Calls `String::push`, which appends one character.
#[verifier::external_body]
fn push_char(s: &mut String, c: char)
    ensures
        final(s)@ == old(s)@.push(c),
{
    s.push(c);
}

/// How one character is spelt once umlauts and sharp s are written as digraphs.
pub open spec fn spelling_of(c: char) -> Seq<char> {
    if c == '\u{e4}' {
        seq!['a', 'e']
    } else if c == '\u{f6}' {
        seq!['o', 'e']
    } else if c == '\u{fc}' {
        seq!['u', 'e']
    } else if c == '\u{df}' {
        seq!['s', 's']
    } else {
        seq![c]
    }
}

/// A text with each lowercase umlaut and each sharp s written as a digraph.
pub open spec fn spell_out(s: Seq<char>) -> Seq<char>
    decreases s.len(),
{
    if s.len() == 0 {
        Seq::empty()
    } else {
        spell_out(s.drop_last()) + spelling_of(s.last())
    }
}

/// A lowercase umlaut or a sharp s.
pub open spec fn is_umlaut_or_sharp_s(c: char) -> bool {
    c == '\u{e4}' || c == '\u{f6}' || c == '\u{fc}' || c == '\u{df}'
}

/// A text spelt out holds no lowercase umlaut and no sharp s.
pub proof fn lemma_spell_out_has_no_umlauts(s: Seq<char>)
    ensures
        forall|i: int| 0 <= i < spell_out(s).len() ==> !is_umlaut_or_sharp_s(#[trigger] spell_out(s)[i]),
    decreases s.len(),
{
    if s.len() > 0 {
        lemma_spell_out_has_no_umlauts(s.drop_last());
        let a = spell_out(s.drop_last());
        let b = spelling_of(s.last());
        assert forall|i: int| 0 <= i < spell_out(s).len() implies !is_umlaut_or_sharp_s(#[trigger] spell_out(s)[i]) by {
            if i < a.len() {
                assert(spell_out(s)[i] == a[i]);
            } else {
                assert(spell_out(s)[i] == b[i - a.len()]);
            }
        }
    }
}

/// A text without umlauts and sharp s is spelt out as it is.
pub proof fn lemma_spell_out_keeps_plain_text(s: Seq<char>)
    requires
        forall|i: int| 0 <= i < s.len() ==> !is_umlaut_or_sharp_s(#[trigger] s[i]),
    ensures
        spell_out(s) == s,
    decreases s.len(),
{
    if s.len() > 0 {
        lemma_spell_out_keeps_plain_text(s.drop_last());
        assert(s.drop_last() + seq![s.last()] =~= s);
    }
}

/// Law: spelling out a text a second time changes nothing.
pub proof fn lemma_spell_out_idempotent(s: Seq<char>)
    ensures
        spell_out(spell_out(s)) == spell_out(s),
{
    lemma_spell_out_has_no_umlauts(s);
    lemma_spell_out_keeps_plain_text(spell_out(s));
}

/// Law: spelling out a text is spelling out its parts and joining them.
pub proof fn lemma_spell_out_concat(a: Seq<char>, b: Seq<char>)
    ensures
        spell_out(a + b) == spell_out(a) + spell_out(b),
    decreases b.len(),
{
    if b.len() == 0 {
        assert(a + b =~= a);
        assert(spell_out(a) + spell_out(b) =~= spell_out(a));
    } else {
        lemma_spell_out_concat(a, b.drop_last());
        assert((a + b).drop_last() =~= a + b.drop_last());
        assert((a + b).last() == b.last());
        assert(spell_out(a + b) =~= spell_out(a) + spell_out(b));
    }
}

/// A letter of German words in lowercase: `a` to `z`, an umlaut or sharp s.
pub open spec fn is_german_lowercase_letter(c: char) -> bool {
    is_ascii_lowercase_letter(c) || is_umlaut_or_sharp_s(c)
}

/// Law: a word of lowercase German letters, spelt out, is made of the
/// letters `a` to `z` alone.
pub proof fn lemma_spell_out_german_letters(s: Seq<char>)
    requires
        forall|i: int| 0 <= i < s.len() ==> is_german_lowercase_letter(#[trigger] s[i]),
    ensures
        all_ascii_lowercase(spell_out(s)),
    decreases s.len(),
{
    if s.len() > 0 {
        lemma_spell_out_german_letters(s.drop_last());
        let a = spell_out(s.drop_last());
        let b = spelling_of(s.last());
        assert(is_german_lowercase_letter(s[s.len() - 1]));
        assert forall|i: int| 0 <= i < spell_out(s).len() implies is_ascii_lowercase_letter(#[trigger] spell_out(s)[i]) by {
            if i < a.len() {
                assert(spell_out(s)[i] == a[i]);
            } else {
                assert(spell_out(s)[i] == b[i - a.len()]);
            }
        }
    }
}

/// Law: a word of lowercase German letters, spelt out, qualifies exactly
/// when it has at least two letters and is counted often enough.
pub proof fn lemma_german_word_qualifies(s: Seq<char>, word_frequency: int)
    requires
        forall|i: int| 0 <= i < s.len() ==> is_german_lowercase_letter(#[trigger] s[i]),
    ensures
        qualifies(spell_out(s), word_frequency) == (spell_out(s).len() >= 2 && word_frequency >= MIN_WORD_FREQUENCY),
{
    lemma_spell_out_german_letters(s);
    let t = spell_out(s);
    assert(is_ascii_chars(t)) by {
        assert forall|i: int| 0 <= i < t.len() implies '\0' <= #[trigger] t[i] <= '\u{7f}' by {
            assert(is_ascii_lowercase_letter(t[i]));
        }
    }
    is_ascii_chars_encode_utf8(t);
}

/// Writes each lowercase umlaut and each sharp s of a text as a digraph:
/// `ä` as `ae`, `ö` as `oe`, `ü` as `ue`, `ß` as `ss`.
pub fn spell_out_umlauts(text: &str) -> (spelt: String)
    ensures
        spelt@ == spell_out(text@),
{
    let n = text.unicode_len();
    let mut out = String::new();
    let mut i: usize = 0;
    while i < n
        invariant
            n == text@.len(),
            i <= n,
            out@ == spell_out(text@.take(i as int)),
        decreases n - i,
    {
        let c = text.get_char(i);
        if c == '\u{e4}' {
            push_char(&mut out, 'a');
            push_char(&mut out, 'e');
        } else if c == '\u{f6}' {
            push_char(&mut out, 'o');
            push_char(&mut out, 'e');
        } else if c == '\u{fc}' {
            push_char(&mut out, 'u');
            push_char(&mut out, 'e');
        } else if c == '\u{df}' {
            push_char(&mut out, 's');
            push_char(&mut out, 's');
        } else {
            push_char(&mut out, c);
        }
        proof {
            assert(text@.take(i + 1).drop_last() =~= text@.take(i as int));
            assert(out@ =~= spell_out(text@.take(i + 1)));
        }
        i = i + 1;
    }
    assert(text@.take(n as int) =~= text@);
    out
}

/// Normalises a German word to lowercase, with umlauts and sharp s written
/// as digraphs.
pub fn normalize_german_umlauts(word: &str) -> (normalized: String)
    ensures
        normalized@ == spell_out(unicode_lowercase(word@)),
        forall|i: int| 0 <= i < normalized@.len() ==> !is_umlaut_or_sharp_s(#[trigger] normalized@[i]),
{
    let lower = to_lowercase(word);
    let normalized = spell_out_umlauts(lower.as_str());
    proof {
        lemma_spell_out_has_no_umlauts(unicode_lowercase(word@));
    }
    normalized
}

/// A character from `a` to `z`.
pub open spec fn is_ascii_lowercase_letter(c: char) -> bool {
    'a' <= c <= 'z'
}

/// Every character of the text is a letter from `a` to `z`.
pub open spec fn all_ascii_lowercase(s: Seq<char>) -> bool {
    forall|i: int| 0 <= i < s.len() ==> is_ascii_lowercase_letter(#[trigger] s[i])
}

/// The dictionary takes a word of at least two bytes, made of the letters
/// `a` to `z` alone, counted at least `MIN_WORD_FREQUENCY` times.
pub open spec fn qualifies(word: Seq<char>, word_frequency: int) -> bool {
    &&& encode_utf8(word).len() >= 2
    &&& all_ascii_lowercase(word)
    &&& word_frequency >= MIN_WORD_FREQUENCY
}

/// Primary determiner for which words do and do not qualify for inclusion
/// in the dictionary.
pub fn should_include_word(word: &String, word_frequency: usize) -> (admitted: bool)
    ensures
        admitted == qualifies(word@, word_frequency as int),
{
    // One-letter words come as a surprise: leave them out.
    if word.as_str().as_bytes().len() < 2 {
        return false;
    }
    // Only ASCII letters: this also cuts out proper names and punctuation.
    let text = word.as_str();
    let n = text.unicode_len();
    let mut i: usize = 0;
    while i < n
        invariant
            n == text@.len(),
            text@ == word@,
            i <= n,
            forall|j: int| 0 <= j < i ==> is_ascii_lowercase_letter(#[trigger] text@[j]),
        decreases n - i,
    {
        let c = text.get_char(i);
        if !('a' <= c && c <= 'z') {
            assert(!is_ascii_lowercase_letter(word@[i as int]));
            return false;
        }
        i = i + 1;
    }
    // Words too rare in the frequency corpus are left out.
    if word_frequency < MIN_WORD_FREQUENCY {
        return false;
    }
    true
}

/// Normalises each line of a text, as bytes.
pub fn normalize_lines(lines: &Vec<String>) -> (words: Vec<Vec<u8>>)
    ensures
        words@.len() == lines@.len(),
        forall|i: int| 0 <= i < lines@.len() ==> (#[trigger] words@[i])@ == encode_utf8(
            spell_out(unicode_lowercase(lines@[i]@)),
        ),
{
    let mut words: Vec<Vec<u8>> = Vec::new();
    let mut i: usize = 0;
    while i < lines.len()
        invariant
            i <= lines@.len(),
            words@.len() == i,
            forall|k: int| 0 <= k < i ==> (#[trigger] words@[k])@ == encode_utf8(
                spell_out(unicode_lowercase(lines@[k]@)),
            ),
        decreases lines.len() - i,
    {
        let normalized = normalize_german_umlauts(lines[i].as_str());
        words.push(normalized.as_str().as_bytes_vec());
        i = i + 1;
    }
    words
}

} // verus!
