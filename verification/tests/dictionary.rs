use truncate_core::frequency::{
    parse_count, read_frequency_line, scan_frequency_lines, split_at_first_space, FrequencyLineError,
    FrequencyRanks,
};
use truncate_core::objectionable::{objectionable_flags, parse_objectionable, ObjectionableError};
use truncate_core::order::{bytes_eq, bytes_lt, bytes_reversed, bytes_starts_with, lower_bound, prefix_end};
use truncate_core::scoring::{score_extension_value, WordIndex};
use truncate_core::text::{normalize_german_umlauts, normalize_lines, should_include_word, spell_out_umlauts, MIN_WORD_FREQUENCY};
use truncate_core::wordset::{contains_word, intersect_words, remove_words, union_words, word_set};

fn words(list: &[&str]) -> Vec<Vec<u8>> {
    list.iter().map(|w| w.as_bytes().to_vec()).collect()
}

#[test]
fn extension_values() {
    assert_eq!(score_extension_value(3, 4), 16);
    assert_eq!(score_extension_value(3, 5), 9);
    assert_eq!(score_extension_value(3, 6), 4);
    assert_eq!(score_extension_value(3, 7), 1);
    assert_eq!(score_extension_value(3, 8), 1);
    assert_eq!(score_extension_value(2, 20), 1);
    assert_eq!(score_extension_value(4, 4), 25);
}

#[test]
fn byte_order_matches_str_order() {
    let samples = ["", "a", "ab", "abc", "b", "ba", "z", "\u{e4}", "a\u{fc}"];
    for x in samples.iter() {
        for y in samples.iter() {
            assert_eq!(bytes_lt(x.as_bytes(), y.as_bytes()), x < y);
            assert_eq!(bytes_eq(x.as_bytes(), y.as_bytes()), x == y);
            assert_eq!(bytes_starts_with(x.as_bytes(), y.as_bytes()), x.starts_with(y));
        }
    }
    assert_eq!(bytes_reversed(b"abc"), b"cba".to_vec());
}

#[test]
fn binary_searches_find_prefix_ranges() {
    let list = words(&["ab", "abc", "abd", "b", "ba"]);
    assert_eq!(lower_bound(&list, b"abc"), 1);
    assert_eq!(lower_bound(&list, b"abz"), 3);
    assert_eq!(prefix_end(&list, b"ab"), 3);
    assert_eq!(prefix_end(&list, b"b"), 5);
    assert_eq!(prefix_end(&list, b"a"), 3);
}

#[test]
fn word_sets_sort_and_drop_repetitions() {
    let set = word_set(words(&["b", "a", "b", "c", "a"]));
    assert_eq!(set, words(&["a", "b", "c"]));
    assert!(contains_word(&set, b"b"));
    assert!(!contains_word(&set, b"d"));
}

#[test]
fn word_list_set_operations() {
    let valid = words(&["haus", "baum", "auto", "see"]);
    let candidates = words(&["see", "haus", "zug", "haus"]);
    let kept = intersect_words(valid, candidates);
    assert_eq!(kept, words(&["haus", "see"]));
    let extended = union_words(kept, words(&["pikachu", "see"]));
    assert_eq!(extended, words(&["haus", "pikachu", "see"]));
    let final_list = remove_words(extended, words(&["see", "nichts"]));
    assert_eq!(final_list, words(&["haus", "pikachu"]));
}

#[test]
fn links_and_scores_of_a_small_list() {
    let index = WordIndex::new(words(&["cab", "b", "abc", "ab"]));
    assert_eq!(index.word_list(), &words(&["ab", "abc", "b", "cab"]));
    let mut links_of_ab = index.word_links(0);
    links_of_ab.sort();
    assert_eq!(links_of_ab, vec![(1, 16), (3, 16)]);
    assert_eq!(index.word_links(1), vec![]);
    // "ab" ends "b" but comes before it: no link.
    assert_eq!(index.word_links(2), vec![(3, 9)]);
    assert_eq!(index.substring_score_of(0), Some(32));
    assert_eq!(index.substring_score_of(2), Some(9));
    assert_eq!(index.score_words().unwrap(), vec![32, 32, 9, 41]);
    let links: Vec<Vec<(usize, usize)>> = (0..index.len()).map(|t| index.word_links(t)).collect();
    assert_eq!(index.combine_scores(&links), Some(vec![32, 32, 9, 41]));
}

#[test]
fn empty_word_extends_nothing() {
    let index = WordIndex::new(words(&["", "a", "ab"]));
    assert_eq!(index.word_links(0), vec![]);
    assert_eq!(index.score_words().unwrap(), vec![0, 16, 16]);
}

#[test]
fn longer_extensions_score_less() {
    let index = WordIndex::new(words(&["spiel", "spiele", "spielen", "spielende", "beispiel"]));
    // beispiel, spiel, spiele, spielen, spielende
    assert_eq!(index.substring_score_of(1), Some(16 + 9 + 1));
    // "beispiel" ends with "spiel" but comes before it: no link either way.
    assert_eq!(index.score_words().unwrap(), vec![0, 26, 20 + 26, 9 + 26 + 20, 26 + 20 + 9]);
}

#[test]
fn normalizes_umlauts_and_case() {
    assert_eq!(normalize_german_umlauts("\u{c4}pfel"), "aepfel");
    assert_eq!(normalize_german_umlauts("Stra\u{df}e"), "strasse");
    assert_eq!(normalize_german_umlauts("M\u{dc}HLE"), "muehle");
    assert_eq!(normalize_german_umlauts("sch\u{f6}n"), "schoen");
    assert_eq!(spell_out_umlauts("\u{e4}\u{f6}\u{fc}\u{df}x"), "aeoeuessx");
    assert_eq!(spell_out_umlauts("HAUS"), "HAUS");
}

#[test]
fn which_words_qualify() {
    assert!(should_include_word(&"haus".to_string(), 5));
    assert!(!should_include_word(&"haus".to_string(), MIN_WORD_FREQUENCY - 1));
    assert!(!should_include_word(&"a".to_string(), 100));
    assert!(!should_include_word(&"".to_string(), 100));
    assert!(!should_include_word(&"Haus".to_string(), 100));
    assert!(!should_include_word(&"caf\u{e9}".to_string(), 100));
    assert!(!should_include_word(&"ab-c".to_string(), 100));
    assert!(should_include_word(&"ab".to_string(), 5));
}

#[test]
fn counts_parse_like_std() {
    let samples = ["0", "5", "+7", "123456", "", "+", "-1", " 1", "1 ", "12a", "18446744073709551615", "18446744073709551616", "+-1", "00012"];
    for s in samples.iter() {
        assert_eq!(parse_count(s), s.parse::<usize>().ok(), "{:?}", s);
    }
}

#[test]
fn lines_split_at_first_space() {
    assert_eq!(split_at_first_space("der 123"), Some(("der", "123")));
    assert_eq!(split_at_first_space("a b c"), Some(("a", "b c")));
    assert_eq!(split_at_first_space("nospace"), None);
}

#[test]
fn reads_frequency_lines() {
    assert_eq!(read_frequency_line("Stra\u{df}e 40"), Ok(("strasse".to_string(), true)));
    assert_eq!(read_frequency_line("und 4"), Ok(("und".to_string(), false)));
    assert_eq!(read_frequency_line("Berlin 100"), Ok(("berlin".to_string(), true)));
    assert_eq!(read_frequency_line("x 100"), Ok(("x".to_string(), false)));
    assert_eq!(read_frequency_line("und"), Err(FrequencyLineError::MissingSeparator));
    assert_eq!(read_frequency_line("und zwei"), Err(FrequencyLineError::InvalidCount));
    assert_eq!(read_frequency_line("und 1 2"), Err(FrequencyLineError::InvalidCount));
}

#[test]
fn scans_a_corpus() {
    let lines: Vec<String> = ["der 900", "Die 800", "x 700", "der 5", "\u{fc}ber 600"].iter().map(|s| s.to_string()).collect();
    let scan = match scan_frequency_lines(&lines) {
        Ok(scan) => scan,
        Err(_) => panic!("the corpus should read"),
    };
    assert_eq!(scan.words, words(&["der", "die", "x", "der", "ueber"]));
    assert_eq!(word_set(scan.candidates), words(&["der", "die", "ueber"]));
    let bad: Vec<String> = ["der 900", "oops"].iter().map(|s| s.to_string()).collect();
    assert!(matches!(scan_frequency_lines(&bad), Err((1, FrequencyLineError::MissingSeparator))));
}

#[test]
fn later_lines_win_the_rank() {
    let ranks = FrequencyRanks::new(&words(&["der", "die", "x", "der", "ueber"]));
    assert_eq!(ranks.last_line_of(b"der"), Some(3));
    assert_eq!(ranks.last_line_of(b"die"), Some(1));
    assert_eq!(ranks.last_line_of(b"ueber"), Some(4));
    assert_eq!(ranks.last_line_of(b"das"), None);
}

#[test]
fn objectionable_words_are_marked() {
    let list = parse_objectionable(b"[\"doof\", \"m\\u00fcll\"]").unwrap();
    assert_eq!(list, vec!["doof".to_string(), "m\u{fc}ll".to_string()]);
    let flags = objectionable_flags(&words(&["doof", "haus", "m\u{fc}ll"]), &list);
    assert_eq!(flags, vec![true, false, true]);
    assert_eq!(parse_objectionable(b"{\"a\": 1}"), Err(ObjectionableError::NotAStringList));
    assert_eq!(parse_objectionable(b"[1, 2]"), Err(ObjectionableError::NotAStringList));
}

#[test]
fn normalizing_twice_changes_nothing() {
    for w in ["Gr\u{fc}\u{df}e", "\u{c4}RGER", "plain", "\u{f6}\u{f6}"].iter() {
        let once = normalize_german_umlauts(w);
        assert_eq!(normalize_german_umlauts(&once), once);
        assert_eq!(spell_out_umlauts(&once), once);
    }
}

/// The scoring rule written out directly: every pair of words compared.
fn brute_force_scores(list: &[Vec<u8>]) -> Vec<usize> {
    let extends = |w: &Vec<u8>, c: &Vec<u8>| {
        !w.is_empty() && c.len() > w.len() && (c.starts_with(w) || (c.ends_with(w) && c > w))
    };
    let value = |w: &Vec<u8>, c: &Vec<u8>| {
        let diff = c.len() - w.len();
        if diff >= 5 { 1 } else { (5 - diff) * (5 - diff) }
    };
    let subs: Vec<usize> = list
        .iter()
        .map(|w| list.iter().filter(|c| extends(w, c)).map(|c| value(w, c)).sum())
        .collect();
    list.iter()
        .enumerate()
        .map(|(i, c)| subs[i] + list.iter().enumerate().filter(|(_, w)| extends(w, c)).map(|(t, _)| subs[t]).sum::<usize>())
        .collect()
}

#[test]
fn fast_scoring_equals_comparing_every_pair() {
    let raw = [
        "an", "land", "anlage", "ab", "aber", "haber", "bar", "ar", "arbeit", "laden", "den", "en", "n", "nen",
        "rennen", "nennen", "kennen", "ken", "ennen", "e", "ee", "eee", "eeeeeeee", "a\u{e4}", "\u{e4}", "b\u{e4}",
    ];
    let index = WordIndex::new(raw.iter().map(|w| w.as_bytes().to_vec()).collect());
    let list = index.word_list().clone();
    assert_eq!(index.score_words().unwrap(), brute_force_scores(&list));
}

#[test]
fn normalizes_each_line() {
    let lines = vec!["Stra\u{df}e".to_string(), "".to_string(), "\u{d6}L".to_string()];
    assert_eq!(normalize_lines(&lines), words(&["strasse", "", "oel"]));
}
