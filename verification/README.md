# truncate_core

The letter-tile bag and the dictionary builder of a German edition of the
word game Truncate, written in Verus with their contracts proved.

- `src/bag.rs`: the tile bag, filled from a letter distribution and refilled
  when a draw finds it empty.
- `src/text.rs`: normalising German words and deciding which words qualify.
- `src/frequency.rs`: reading the frequency corpus, and the last line of each word.
- `src/order.rs`, `src/wordset.rs`: byte-string order, binary searches and
  word sets as sorted lists.
- `src/scoring.rs`: prefix and suffix extensions of words and their scores.
- `src/objectionable.rs`: the list of objectionable words.
- `app/main.rs`: the dictionary builder program: file input and output, the
  parallel scoring loop, and the float frequencies.
