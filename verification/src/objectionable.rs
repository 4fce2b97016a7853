//! The list of objectionable words, kept in the dictionary but marked.
use vstd::prelude::*;
use vstd::utf8::encode_utf8;
use crate::order::{byte_strings, lemma_strictly_sorted_is_sorted};
use crate::wordset::{contains_word, word_set, word_set_of};

verus! {

#[verifier::external_type_specification]
#[verifier::external_body]
pub struct ExJsonError(serde_json::Error);

/// The list of strings that a JSON text holds, as `serde_json` reads it into
/// a `Vec<String>`; none where the text is not a JSON array of strings.
pub uninterp spec fn json_string_list(bytes: Seq<u8>) -> Option<Seq<Seq<char>>>;

/// The characters of each string of a list.
pub open spec fn string_views(v: Seq<String>) -> Seq<Seq<char>> {
    v.map_values(|s: String| s@)
}

/// Calls `serde_json::from_slice::<Vec<String>>`, which reads a JSON array
/// of strings; the list it gives back is named, not described.
#[verifier::external_body]
fn parse_string_list(bytes: &[u8]) -> (parsed: Result<Vec<String>, serde_json::Error>)
    ensures
        parsed is Ok <==> json_string_list(bytes@) is Some,
        parsed matches Ok(v) ==> json_string_list(bytes@) == Some(string_views(v@)),
{
    serde_json::from_slice(bytes)
}

/// Why the list of objectionable words could not be read.
#[derive(Debug, Clone, Copy, PartialEq, Eq)]
pub enum ObjectionableError {
    /// The text is not a JSON array of strings.
    NotAStringList,
}

/// Reads the list of objectionable words from its JSON text.
pub fn parse_objectionable(input: &[u8]) -> (words: Result<Vec<String>, ObjectionableError>)
    ensures
        words is Ok <==> json_string_list(input@) is Some,
        words matches Ok(v) ==> json_string_list(input@) == Some(string_views(v@)),
{
    match parse_string_list(input) {
        Ok(v) => Ok(v),
        Err(_) => Err(ObjectionableError::NotAStringList),
    }
}

/// The UTF-8 bytes of each string of a list.
pub open spec fn encoded_strings(v: Seq<String>) -> Seq<Seq<u8>> {
    v.map_values(|s: String| encode_utf8(s@))
}

/// For each word, whether the list of objectionable words holds it.
pub fn objectionable_flags(words: &Vec<Vec<u8>>, objectionable: &Vec<String>) -> (flags: Vec<bool>)
    ensures
        flags@.len() == words@.len(),
        forall|i: int| 0 <= i < words@.len() ==> #[trigger] flags@[i] == encoded_strings(objectionable@).contains(words@[i]@),
{
    let mut encoded: Vec<Vec<u8>> = Vec::new();
    let mut j: usize = 0;
    while j < objectionable.len()
        invariant
            j <= objectionable@.len(),
            byte_strings(encoded@) == encoded_strings(objectionable@).take(j as int),
        decreases objectionable.len() - j,
    {
        let ghost before = byte_strings(encoded@);
        let text = objectionable[j].as_str();
        let bytes = text.as_bytes_vec();
        assert(bytes@ == encode_utf8(objectionable@[j as int]@));
        encoded.push(bytes);
        assert(byte_strings(encoded@) =~= before.push(encode_utf8(objectionable@[j as int]@)));
        assert(byte_strings(encoded@) =~= encoded_strings(objectionable@).take(j + 1));
        j = j + 1;
    }
    assert(encoded_strings(objectionable@).take(objectionable@.len() as int) =~= encoded_strings(objectionable@));
    let ghost all = byte_strings(encoded@);
    let set = word_set(encoded);
    proof {
        lemma_strictly_sorted_is_sorted(byte_strings(set@));
    }
    let mut flags: Vec<bool> = Vec::new();
    let mut i: usize = 0;
    while i < words.len()
        invariant
            crate::order::sorted(byte_strings(set@)),
            word_set_of(set@) == all.to_set(),
            all == encoded_strings(objectionable@),
            i <= words@.len(),
            flags@.len() == i,
            forall|k: int| 0 <= k < i ==> #[trigger] flags@[k] == encoded_strings(objectionable@).contains(words@[k]@),
        decreases words.len() - i,
    {
        let found = contains_word(&set, words[i].as_slice());
        assert(all.to_set().contains(words@[i as int]@) == all.contains(words@[i as int]@));
        flags.push(found);
        i = i + 1;
    }
    flags
}

} // verus!
