//! Reading the word-frequency corpus: one word and its count per line, the
//! most frequent words first.
use vstd::prelude::*;
use vstd::utf8::encode_utf8;
use crate::order::{byte_strings, copy_byte_strings, copy_bytes, position_of, strictly_sorted};
use crate::text::{normalize_german_umlauts, qualifies, should_include_word, spell_out, unicode_lowercase};
use crate::wordset::{contains_word, word_set, word_set_of};

verus! {

broadcast use vstd::seq_lib::lemma_seq_contains_after_push;

/// A character from `0` to `9`.
pub open spec fn is_digit(c: char) -> bool {
    '0' <= c <= '9'
}

/// The number that a string of decimal digits spells.
pub open spec fn digits_value(d: Seq<char>) -> int
    decreases d.len(),
{
    if d.len() == 0 {
        0
    } else {
        10 * digits_value(d.drop_last()) + (d.last() as int - '0' as int)
    }
}

/// The digits of a count: the text after an optional leading `+`.
pub open spec fn count_digits(s: Seq<char>) -> Seq<char> {
    if s.len() > 0 && s[0] == '+' {
        s.drop_first()
    } else {
        s
    }
}

/// The `usize` that a text spells as `str::parse::<usize>` reads it: an
/// optional `+`, then one or more decimal digits and nothing else, of a value
/// that fits.
pub open spec fn parsed_count(s: Seq<char>) -> Option<int> {
    let d = count_digits(s);
    if d.len() > 0 && (forall|i: int| 0 <= i < d.len() ==> is_digit(#[trigger] d[i])) && digits_value(d)
        <= usize::MAX {
        Some(digits_value(d))
    } else {
        None
    }
}

proof fn lemma_digits_value_grows(d: Seq<char>, k: int)
    requires
        0 <= k <= d.len(),
        forall|i: int| 0 <= i < d.len() ==> is_digit(#[trigger] d[i]),
    ensures
        0 <= digits_value(d.take(k)) <= digits_value(d),
    decreases d.len(),
{
    if k < d.len() {
        lemma_digits_value_grows(d.drop_last(), k);
        assert(d.drop_last().take(k) =~= d.take(k));
        lemma_digits_value_grows(d.drop_last(), d.len() - 1);
        assert(d.drop_last().take(d.len() - 1) =~= d.drop_last());
    } else {
        assert(d.take(k) =~= d);
        if d.len() > 0 {
            lemma_digits_value_grows(d.drop_last(), d.len() - 1);
            assert(d.drop_last().take(d.len() - 1) =~= d.drop_last());
        }
    }
}

/// Reads a word count written in decimal.
pub fn parse_count(s: &str) -> (count: Option<usize>)
    ensures
        count matches Some(v) ==> parsed_count(s@) == Some(v as int),
        count is None ==> parsed_count(s@) is None,
{
    let n = s.unicode_len();
    let mut i: usize = 0;
    if n > 0 && s.get_char(0) == '+' {
        i = 1;
    }
    let start = i;
    let ghost d = count_digits(s@);
    assert(d =~= s@.skip(start as int));
    if start == n {
        assert(d.len() == 0);
        return None;
    }
    let mut value: usize = 0;
    while i < n
        invariant
            n == s@.len(),
            d == s@.skip(start as int),
            d == count_digits(s@),
            start <= i <= n,
            start < n,
            forall|j: int| 0 <= j < i - start ==> is_digit(#[trigger] d[j]),
            value == digits_value(d.take(i - start)),
        decreases n - i,
    {
        let c = s.get_char(i);
        assert(c == d[i - start]);
        if !('0' <= c && c <= '9') {
            assert(!is_digit(d[i - start]));
            assert(d == count_digits(s@));
            assert(parsed_count(s@) is None);
            return None;
        }
        let digit = (c as u32 - '0' as u32) as usize;
        proof {
            assert(d.take(i + 1 - start).drop_last() =~= d.take(i - start));
            assert(d.take(i + 1 - start).last() == c);
            assert(digits_value(d.take(i + 1 - start)) == 10 * value + digit);
        }
        let next = match value.checked_mul(10) {
            Some(tens) => tens.checked_add(digit),
            None => None,
        };
        match next {
            Some(v) => {
                value = v;
            },
            None => {
                proof {
                    if forall|j: int| 0 <= j < d.len() ==> is_digit(#[trigger] d[j]) {
                        lemma_digits_value_grows(d, i + 1 - start);
                    }
                }
                return None;
            },
        }
        i = i + 1;
    }
    assert(d.take(n - start) =~= d);
    Some(value)
}

/// `line` is `word`, one space and `count`, and `word` holds no space.
pub open spec fn fields_of(line: Seq<char>, word: Seq<char>, count: Seq<char>) -> bool {
    line == word + seq![' '] + count && !word.contains(' ')
}

/// A line splits into fields in one way only: at its first space.
pub proof fn lemma_fields_unique(line: Seq<char>, a: Seq<char>, b: Seq<char>, a2: Seq<char>, b2: Seq<char>)
    requires
        fields_of(line, a, b),
        fields_of(line, a2, b2),
    ensures
        a == a2,
        b == b2,
{
    if a.len() < a2.len() {
        assert(line[a.len() as int] == ' ');
        assert(a2[a.len() as int] == ' ');
    } else if a2.len() < a.len() {
        assert(line[a2.len() as int] == ' ');
        assert(a[a2.len() as int] == ' ');
    } else {
        assert(line.take(a.len() as int) =~= a);
        assert(line.take(a2.len() as int) =~= a2);
        assert(b =~= line.skip(a.len() as int + 1));
        assert(b2 =~= line.skip(a.len() as int + 1));
    }
}

/// Splits a line at its first space into the text before and the text after.
pub fn split_at_first_space(line: &str) -> (fields: Option<(&str, &str)>)
    ensures
        fields is None <==> !line@.contains(' '),
        fields matches Some((a, b)) ==> fields_of(line@, a@, b@),
{
    let n = line.unicode_len();
    let mut i: usize = 0;
    while i < n
        invariant
            n == line@.len(),
            i <= n,
            forall|j: int| 0 <= j < i ==> #[trigger] line@[j] != ' ',
        decreases n - i,
    {
        if line.get_char(i) == ' ' {
            let word = line.substring_char(0, i);
            let count = line.substring_char(i + 1, n);
            proof {
                assert(line@ =~= word@ + seq![' '] + count@);
                if word@.contains(' ') {
                    let j = choose|j: int| 0 <= j < word@.len() && word@[j] == ' ';
                    assert(line@[j] == ' ');
                }
            }
            return Some((word, count));
        }
        i = i + 1;
    }
    None
}

/// Why a line of the frequency corpus could not be read.
#[derive(Debug, Clone, Copy, PartialEq, Eq)]
pub enum FrequencyLineError {
    /// The line holds no space between word and count.
    MissingSeparator,
    /// The text after the first space is not a count.
    InvalidCount,
}

/// What a line of the corpus says: its word normalised, and whether that
/// word qualifies for the dictionary with the count that the line gives.
pub open spec fn line_reading(line: Seq<char>, word: Seq<char>, count: Seq<char>) -> Result<(Seq<char>, bool), FrequencyLineError> {
    match parsed_count(count) {
        Some(c) => {
            let normalized = spell_out(unicode_lowercase(word));
            Ok((normalized, qualifies(normalized, c)))
        },
        None => Err(FrequencyLineError::InvalidCount),
    }
}

/// What a line of the corpus says, read at its first space.
pub open spec fn reading_of(line: Seq<char>) -> Result<(Seq<char>, bool), FrequencyLineError> {
    if !line.contains(' ') {
        Err(FrequencyLineError::MissingSeparator)
    } else {
        let (word, count) = choose|word: Seq<char>, count: Seq<char>| fields_of(line, word, count);
        line_reading(line, word, count)
    }
}

/// Reads one line of the corpus: the normalised word, and whether it is a
/// candidate for the dictionary.
pub fn read_frequency_line(line: &str) -> (reading: Result<(String, bool), FrequencyLineError>)
    ensures
        reading matches Ok((w, candidate)) ==> reading_of(line@) == Ok::<(Seq<char>, bool), FrequencyLineError>((w@, candidate)),
        reading matches Err(e) ==> reading_of(line@) == Err::<(Seq<char>, bool), FrequencyLineError>(e),
{
    match split_at_first_space(line) {
        None => Err(FrequencyLineError::MissingSeparator),
        Some((word, count_text)) => {
            proof {
                assert(fields_of(line@, word@, count_text@));
                assert(line@[word@.len() as int] == ' ');
                let (w, c) = choose|w: Seq<char>, c: Seq<char>| fields_of(line@, w, c);
                lemma_fields_unique(line@, w, c, word@, count_text@);
            }
            let cleaned = normalize_german_umlauts(word);
            match parse_count(count_text) {
                None => Err(FrequencyLineError::InvalidCount),
                Some(frequency) => {
                    let candidate = should_include_word(&cleaned, frequency);
                    Ok((cleaned, candidate))
                },
            }
        },
    }
}

/// The normalised words of a corpus, line by line as bytes, and those among
/// them that are candidates for the dictionary.
pub struct FrequencyScan {
    pub words: Vec<Vec<u8>>,
    pub candidates: Vec<Vec<u8>>,
}

/// The normalised word of a line that can be read, and whether it is a candidate.
pub open spec fn read_word(line: Seq<char>) -> Seq<char> {
    reading_of(line)->Ok_0.0
}

/// Reads every line of the corpus; the first line that cannot be read stops
/// the reading, with its position.
pub fn scan_frequency_lines(lines: &Vec<String>) -> (scan: Result<FrequencyScan, (usize, FrequencyLineError)>)
    ensures
        scan matches Ok(s) ==> s.words@.len() == lines@.len(),
        scan matches Ok(s) ==> forall|i: int| 0 <= i < lines@.len() ==> #[trigger] reading_of(lines@[i]@) is Ok
            && s.words@[i]@ == encode_utf8(read_word(lines@[i]@)),
        scan matches Ok(s) ==> forall|x: Seq<u8>| #[trigger] word_set_of(s.candidates@).contains(x) <==> exists|i: int|
            0 <= i < lines@.len() && #[trigger] reading_of(lines@[i]@) is Ok && reading_of(lines@[i]@)->Ok_0.1
                && x == encode_utf8(read_word(lines@[i]@)),
        scan matches Err((at, e)) ==> at < lines@.len() && reading_of(lines@[at as int]@) == Err::<(Seq<char>, bool), FrequencyLineError>(e),
        scan matches Err((at, e)) ==> forall|i: int| 0 <= i < at ==> #[trigger] reading_of(lines@[i]@) is Ok,
{
    let mut words: Vec<Vec<u8>> = Vec::new();
    let mut candidates: Vec<Vec<u8>> = Vec::new();
    let mut i: usize = 0;
    while i < lines.len()
        invariant
            i <= lines@.len(),
            words@.len() == i,
            forall|k: int| 0 <= k < i ==> #[trigger] reading_of(lines@[k]@) is Ok
                && words@[k]@ == encode_utf8(read_word(lines@[k]@)),
            forall|x: Seq<u8>| #[trigger] byte_strings(candidates@).contains(x) <==> exists|k: int|
                0 <= k < i && #[trigger] reading_of(lines@[k]@) is Ok && reading_of(lines@[k]@)->Ok_0.1
                    && x == encode_utf8(read_word(lines@[k]@)),
        decreases lines.len() - i,
    {
        let line = lines[i].as_str();
        assert(line@ == lines@[i as int]@);
        match read_frequency_line(line) {
            Err(e) => {
                return Err((i, e));
            },
            Ok((cleaned, candidate)) => {
                let bytes = cleaned.as_str().as_bytes_vec();
                let ghost cs = byte_strings(candidates@);
                let ghost ws_before = words@;
                if candidate {
                    candidates.push(copy_bytes(&bytes));
                }
                words.push(bytes);
                proof {
                    assert(read_word(lines@[i as int]@) == cleaned@);
                    assert forall|k: int| 0 <= k < i + 1 implies #[trigger] reading_of(lines@[k]@) is Ok
                        && words@[k]@ == encode_utf8(read_word(lines@[k]@)) by {
                        if k < i {
                            assert(words@[k] == ws_before[k]);
                        }
                    }
                    if candidate {
                        assert(byte_strings(candidates@) =~= cs.push(encode_utf8(cleaned@)));
                    } else {
                        assert(byte_strings(candidates@) =~= cs);
                    }
                    assert forall|x: Seq<u8>| #[trigger] byte_strings(candidates@).contains(x) <==> exists|k: int|
                        0 <= k < i + 1 && #[trigger] reading_of(lines@[k]@) is Ok && reading_of(lines@[k]@)->Ok_0.1
                            && x == encode_utf8(read_word(lines@[k]@)) by {
                        if exists|k: int| 0 <= k < i + 1 && #[trigger] reading_of(lines@[k]@) is Ok && reading_of(lines@[k]@)->Ok_0.1
                            && x == encode_utf8(read_word(lines@[k]@)) {
                            let k = choose|k: int| 0 <= k < i + 1 && #[trigger] reading_of(lines@[k]@) is Ok && reading_of(lines@[k]@)->Ok_0.1
                                && x == encode_utf8(read_word(lines@[k]@));
                            if k < i {
                                assert(cs.contains(x));
                            }
                        }
                        if candidate && x == encode_utf8(cleaned@) {
                            assert(reading_of(lines@[i as int]@) is Ok);
                        }
                    }
                }
            },
        }
        i = i + 1;
    }
    Ok(FrequencyScan { words, candidates })
}

/// Line `i` is the last line whose word is `w`.
pub open spec fn is_last_line(lines: Seq<Seq<u8>>, w: Seq<u8>, i: int) -> bool {
    &&& 0 <= i < lines.len()
    &&& lines[i] == w
    &&& forall|j: int| i < j < lines.len() ==> lines[j] != w
}

/// For each word of a corpus, the last line on which it stands: the later
/// line wins, as when each line is written into a map in turn.
pub struct FrequencyRanks {
    keys: Vec<Vec<u8>>,
    last: Vec<usize>,
    lines: Ghost<Seq<Seq<u8>>>,
}

impl FrequencyRanks {
    /// The words of the corpus, line by line.
    pub closed spec fn lines(&self) -> Seq<Seq<u8>> {
        self.lines@
    }

    pub closed spec fn well_formed(&self) -> bool {
        &&& strictly_sorted(byte_strings(self.keys@))
        &&& word_set_of(self.keys@) == self.lines@.to_set()
        &&& self.last@.len() == self.keys@.len()
        &&& forall|p: int| 0 <= p < self.keys@.len() ==> is_last_line(self.lines@, #[trigger] self.keys@[p]@, self.last@[p] as int)
    }

    /// Records the last line of each word of a corpus given line by line.
    pub fn new(lines: &Vec<Vec<u8>>) -> (ranks: Self)
        ensures
            ranks.well_formed(),
            ranks.lines() == byte_strings(lines@),
    {
        let ghost ls = byte_strings(lines@);
        let keys = word_set(copy_byte_strings(lines));
        let ghost ks = byte_strings(keys@);
        let mut last: Vec<usize> = Vec::new();
        let mut p: usize = 0;
        while p < keys.len()
            invariant
                p <= keys.len(),
                last@.len() == p,
            decreases keys.len() - p,
        {
            last.push(0);
            p = p + 1;
        }
        let mut i: usize = 0;
        while i < lines.len()
            invariant
                ls == byte_strings(lines@),
                ks == byte_strings(keys@),
                strictly_sorted(ks),
                word_set_of(keys@) == ls.to_set(),
                i <= lines.len(),
                last@.len() == keys@.len(),
                forall|p: int| 0 <= p < ks.len() && #[trigger] ls.take(i as int).contains(ks[p]) ==> is_last_line(ls.take(i as int), ks[p], last@[p] as int),
            decreases lines.len() - i,
        {
            assert(ls[i as int] == lines@[i as int]@);
            assert(ls.contains(ls[i as int]));
            assert(ls.to_set().contains(ls[i as int]));
            assert(word_set_of(keys@).contains(ls[i as int]));
            assert(ks.contains(ls[i as int]));
            let p = position_of(&keys, lines[i].as_slice());
            let ghost before = last@;
            last.set(p, i);
            proof {
                assert(ks[p as int] == ls[i as int]);
                assert(ls.take(i + 1) =~= ls.take(i as int).push(ls[i as int]));
                assert forall|q: int| 0 <= q < ks.len() && #[trigger] ls.take(i + 1).contains(ks[q]) implies is_last_line(ls.take(i + 1), ks[q], last@[q] as int) by {
                    if q == p {
                        assert(ls.take(i + 1)[i as int] == ks[q]);
                    } else {
                        assert(ks[q] != ks[p as int]) by {
                            if ks[q] == ks[p as int] {
                                crate::order::lemma_strictly_sorted_unique(ks, q, p as int);
                            }
                        }
                        assert(ls.take(i as int).contains(ks[q]));
                        assert(last@[q] == before[q]);
                        let j = before[q] as int;
                        assert(ls.take(i + 1)[j] == ls.take(i as int)[j]);
                    }
                }
            }
            i = i + 1;
        }
        proof {
            assert(ls.take(lines.len() as int) =~= ls);
            assert forall|p: int| 0 <= p < keys@.len() implies is_last_line(ls, #[trigger] keys@[p]@, last@[p] as int) by {
                assert(ks[p] == keys@[p]@);
                assert(word_set_of(keys@).contains(ks[p]));
            }
        }
        FrequencyRanks { keys, last, lines: Ghost(ls) }
    }

    /// The last line on which a word stands, if it stands on any.
    pub fn last_line_of(&self, w: &[u8]) -> (line: Option<usize>)
        requires
            self.well_formed(),
        ensures
            line matches Some(i) ==> is_last_line(self.lines(), w@, i as int),
            line is None ==> !self.lines().contains(w@),
    {
        proof {
            crate::order::lemma_strictly_sorted_is_sorted(byte_strings(self.keys@));
        }
        if contains_word(&self.keys, w) {
            let p = position_of(&self.keys, w);
            assert(self.keys@[p as int]@ == w@);
            Some(self.last[p])
        } else {
            proof {
                assert(!self.lines@.to_set().contains(w@));
            }
            None
        }
    }
}

} // verus!
