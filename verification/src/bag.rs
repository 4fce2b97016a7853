//! The bag of letter tiles that players draw from.
use vstd::prelude::*;
use oorandom::Rand32;
use vstd::std_specs::cmp::PartialEqSpecImpl;

verus! {

broadcast use vstd::seq_lib::group_to_multiset_ensures;

#[verifier::external_type_specification]
#[verifier::external_body]
pub struct ExRand32(Rand32);

/// `Rand32` derives `Copy` and `Clone`: a clone is the same generator.
pub assume_specification[ <Rand32 as Clone>::clone ](rng: &Rand32) -> (copy: Rand32)
    ensures
        copy == *rng,
;

/// The generator that `Rand32::new` makes from a seed.
pub uninterp spec fn seeded_generator(seed: u64) -> Rand32;

/// Calls `oorandom::Rand32::new`, which seeds a PCG generator; the same seed
/// gives the same generator.
#[verifier::external_body]
fn new_generator(seed: u64) -> (rng: Rand32)
    ensures
        rng == seeded_generator(seed),
{
    Rand32::new(seed)
}

/// What `oorandom::Rand32::rand_range` gives for `start..end` from a
/// generator: the number drawn and the generator after the draw. Its source
/// computes both from the generator's state and the range alone.
pub uninterp spec fn range_draw(rng: Rand32, start: u32, end: u32) -> (u32, Rand32);

/// Calls `oorandom::Rand32::rand_range`: a pseudo-random number from
/// `start` up to, not including, `end`, which moves the generator on.
#[verifier::external_body]
fn random_below(rng: &mut Rand32, start: u32, end: u32) -> (r: u32)
    requires
        start < end,
    ensures
        start <= r < end,
        (r, *final(rng)) == range_draw(*old(rng), start, end),
{
    rng.rand_range(start..end)
}

/// Calls `instant::SystemTime::now` and `duration_since(UNIX_EPOCH)`: the
/// whole seconds since 1970 by the system clock, none when the clock stands
/// before 1970. Nothing is stated of the value, which depends on the time.
#[verifier::external_body]
fn seconds_since_epoch() -> (secs: Option<u64>) {
    match instant::SystemTime::now().duration_since(instant::SystemTime::UNIX_EPOCH) {
        Ok(elapsed) => Some(elapsed.as_secs()),
        Err(_) => None,
    }
}

/// The `Debug` text of a list of characters, as `format!("{:?}", ..)` writes
/// it: `['A', 'B']`.
pub uninterp spec fn debug_text_of_chars(chars: Seq<char>) -> Seq<char>;

/// Calls `format!("{:?}", chars)` on a `Vec<char>`; the text is named, not
/// described.
#[verifier::external_body]
fn debug_chars(chars: &Vec<char>) -> (text: String)
    ensures
        text@ == debug_text_of_chars(chars@),
{
    format!("{:?}", chars)
}

/// The number of letters of the alphabet that the bag holds.
pub const LETTER_COUNT: usize = 26;

/// The number of letter distributions that the game has had.
pub const GENERATION_COUNT: u32 = 2;

/// Letter number `i` of the alphabet, from `A`.
pub open spec fn letter(i: int) -> char {
    ('A' as int + i) as char
}

/// `count` copies of a character.
pub open spec fn copies(c: char, count: nat) -> Seq<char> {
    Seq::new(count, |k: int| c)
}

/// The tiles of the first `n` letters of a distribution: so many `A`s, then
/// so many `B`s, and so on.
pub open spec fn distribution_tiles(dist: Seq<usize>, n: int) -> Seq<char>
    decreases n,
{
    if n <= 0 {
        Seq::empty()
    } else {
        distribution_tiles(dist, n - 1) + copies(letter(n - 1), dist[n - 1] as nat)
    }
}

/// The tiles of a whole distribution.
pub open spec fn fill_tiles(dist: Seq<usize>) -> Seq<char> {
    distribution_tiles(dist, LETTER_COUNT as int)
}

/// The tiles a bag holds when a draw is made: refilled from its distribution
/// when empty.
pub open spec fn tiles_at_draw(tiles: Seq<char>, dist: Option<Seq<usize>>) -> Seq<char> {
    if tiles.len() == 0 {
        match dist {
            Some(d) => fill_tiles(d),
            None => tiles,
        }
    } else {
        tiles
    }
}

/// The tiles left when the tile at `k` is taken out and the last tile moves
/// into its place.
pub open spec fn swap_removed(tiles: Seq<char>, k: int) -> Seq<char> {
    tiles.update(k, tiles.last()).drop_last()
}

/// A draw from `before` gave `tile` and left `after`.
pub open spec fn draw_outcome(before: Seq<char>, dist: Option<Seq<usize>>, tile: char, after: Seq<char>) -> bool {
    let pool = tiles_at_draw(before, dist);
    exists|k: int| 0 <= k < pool.len() && tile == pool[k] && after == swap_removed(pool, k)
}

/// The letter counts of generation `g` of the game.
pub open spec fn generation_distribution(g: int) -> Seq<usize> {
    if g == 0 {
        seq![6, 2, 3, 2, 18, 2, 4, 5, 6, 1, 2, 4, 2, 9, 3, 1, 1, 8, 7, 7, 4, 1, 1, 1, 1, 1]
    } else {
        seq![8, 3, 2, 2, 17, 2, 3, 4, 6, 1, 3, 4, 3, 8, 4, 2, 1, 7, 7, 8, 4, 1, 1, 1, 1, 1]
    }
}

/// The letter counts of one generation of the game.
fn generation_counts(generation: u32) -> (counts: [usize; 26])
    requires
        generation < GENERATION_COUNT,
    ensures
        counts@ == generation_distribution(generation as int),
{
    let counts = if generation == 0 {
        [6, 2, 3, 2, 18, 2, 4, 5, 6, 1, 2, 4, 2, 9, 3, 1, 1, 8, 7, 7, 4, 1, 1, 1, 1, 1]
    } else {
        [8, 3, 2, 2, 17, 2, 3, 4, 6, 1, 3, 4, 3, 8, 4, 2, 1, 7, 7, 8, 4, 1, 1, 1, 1, 1]
    };
    assert(counts@ =~= generation_distribution(generation as int));
    counts
}

/// The seed a bag is made with: the seed given, else the clock's whole
/// seconds since 1970; none when there is no seed and the clock stands
/// before 1970.
pub open spec fn chosen_seed(seed: Option<u64>, clock: Option<u64>) -> Option<u64> {
    match seed {
        Some(s) => Some(s),
        None => clock,
    }
}

/// The position a draw takes its tile from: a number below the tile count
/// cut to 32 bits, as the generator is asked for it.
pub open spec fn draw_index(pool: Seq<char>, rng: Rand32) -> int {
    range_draw(rng, 0, pool.len() as u32).0 as int
}

/// A draw from a bag with these tiles, distribution and generator: the tile
/// drawn, the tiles left and the generator after the draw.
pub open spec fn draw_step(tiles: Seq<char>, dist: Option<Seq<usize>>, rng: Rand32) -> (char, Seq<char>, Rand32) {
    let pool = tiles_at_draw(tiles, dist);
    let k = draw_index(pool, rng);
    (pool[k], swap_removed(pool, k), range_draw(rng, 0, pool.len() as u32).1)
}

/// Law: what a draw gives depends on the bag's tiles, distribution and
/// generator alone, so two bags that agree on these draw alike and agree
/// again afterwards.
pub proof fn lemma_equal_bags_draw_alike(
    tiles_a: Seq<char>,
    dist_a: Option<Seq<usize>>,
    rng_a: Rand32,
    tiles_b: Seq<char>,
    dist_b: Option<Seq<usize>>,
    rng_b: Rand32,
)
    requires
        tiles_a == tiles_b,
        dist_a == dist_b,
        rng_a == rng_b,
    ensures
        draw_step(tiles_a, dist_a, rng_a) == draw_step(tiles_b, dist_b, rng_b),
{
}

/// Law: a draw takes its tile from the position that the generator gives
/// for the number of tiles in the bag (refilled first if empty), the last
/// tile moves into that place, and the generator moves on as that draw
/// moves it.
pub proof fn lemma_draw_takes_generator_position(tiles: Seq<char>, dist: Option<Seq<usize>>, rng: Rand32)
    ensures
        ({
            let pool = tiles_at_draw(tiles, dist);
            let r = range_draw(rng, 0, pool.len() as u32);
            draw_step(tiles, dist, rng) == (pool[r.0 as int], swap_removed(pool, r.0 as int), r.1)
        }),
{
}

/// Law: a bag filled from a distribution holds `dist[i]` tiles of the
/// character with code 65 + i, that is `A` for the first count up to `Z`
/// for the last, and no tile outside `A` to `Z`.
pub proof fn lemma_fill_holds_letters_by_code(dist: Seq<usize>)
    requires
        dist.len() == 26,
    ensures
        forall|i: int| 0 <= i < 26 ==> #[trigger] fill_tiles(dist).to_multiset().count((65 + i) as char) == dist[i],
        forall|x: char| #[trigger] fill_tiles(dist).to_multiset().count(x) > 0 ==> 65 <= x as int <= 90,
{
    lemma_fill_tiles_counts(dist, 'a');
    assert forall|i: int| 0 <= i < 26 implies #[trigger] fill_tiles(dist).to_multiset().count((65 + i) as char) == dist[i] by {
        assert(letter(i) == (65 + i) as char);
    }
    assert forall|x: char| #[trigger] fill_tiles(dist).to_multiset().count(x) > 0 implies 65 <= x as int <= 90 by {
        lemma_fill_tiles_counts(dist, x);
        if !(65 <= x as int <= 90) {
            assert forall|i: int| 0 <= i < LETTER_COUNT implies x != #[trigger] letter(i) by {
                assert(letter(i) as int == 65 + i);
            }
        }
    }
}

/// Law: the tiles of the game's two letter distributions, letter by letter:
/// the first holds 18 `E`s and 9 `N`s, the second 17 `E`s and 8 `N`s.
pub proof fn lemma_generation_letter_counts()
    ensures
        fill_tiles(generation_distribution(0)).to_multiset().count('A') == 6,
        fill_tiles(generation_distribution(0)).to_multiset().count('B') == 2,
        fill_tiles(generation_distribution(0)).to_multiset().count('C') == 3,
        fill_tiles(generation_distribution(0)).to_multiset().count('D') == 2,
        fill_tiles(generation_distribution(0)).to_multiset().count('E') == 18,
        fill_tiles(generation_distribution(0)).to_multiset().count('F') == 2,
        fill_tiles(generation_distribution(0)).to_multiset().count('G') == 4,
        fill_tiles(generation_distribution(0)).to_multiset().count('H') == 5,
        fill_tiles(generation_distribution(0)).to_multiset().count('I') == 6,
        fill_tiles(generation_distribution(0)).to_multiset().count('J') == 1,
        fill_tiles(generation_distribution(0)).to_multiset().count('K') == 2,
        fill_tiles(generation_distribution(0)).to_multiset().count('L') == 4,
        fill_tiles(generation_distribution(0)).to_multiset().count('M') == 2,
        fill_tiles(generation_distribution(0)).to_multiset().count('N') == 9,
        fill_tiles(generation_distribution(0)).to_multiset().count('O') == 3,
        fill_tiles(generation_distribution(0)).to_multiset().count('P') == 1,
        fill_tiles(generation_distribution(0)).to_multiset().count('Q') == 1,
        fill_tiles(generation_distribution(0)).to_multiset().count('R') == 8,
        fill_tiles(generation_distribution(0)).to_multiset().count('S') == 7,
        fill_tiles(generation_distribution(0)).to_multiset().count('T') == 7,
        fill_tiles(generation_distribution(0)).to_multiset().count('U') == 4,
        fill_tiles(generation_distribution(0)).to_multiset().count('V') == 1,
        fill_tiles(generation_distribution(0)).to_multiset().count('W') == 1,
        fill_tiles(generation_distribution(0)).to_multiset().count('X') == 1,
        fill_tiles(generation_distribution(0)).to_multiset().count('Y') == 1,
        fill_tiles(generation_distribution(0)).to_multiset().count('Z') == 1,
        fill_tiles(generation_distribution(1)).to_multiset().count('A') == 8,
        fill_tiles(generation_distribution(1)).to_multiset().count('B') == 3,
        fill_tiles(generation_distribution(1)).to_multiset().count('C') == 2,
        fill_tiles(generation_distribution(1)).to_multiset().count('D') == 2,
        fill_tiles(generation_distribution(1)).to_multiset().count('E') == 17,
        fill_tiles(generation_distribution(1)).to_multiset().count('F') == 2,
        fill_tiles(generation_distribution(1)).to_multiset().count('G') == 3,
        fill_tiles(generation_distribution(1)).to_multiset().count('H') == 4,
        fill_tiles(generation_distribution(1)).to_multiset().count('I') == 6,
        fill_tiles(generation_distribution(1)).to_multiset().count('J') == 1,
        fill_tiles(generation_distribution(1)).to_multiset().count('K') == 3,
        fill_tiles(generation_distribution(1)).to_multiset().count('L') == 4,
        fill_tiles(generation_distribution(1)).to_multiset().count('M') == 3,
        fill_tiles(generation_distribution(1)).to_multiset().count('N') == 8,
        fill_tiles(generation_distribution(1)).to_multiset().count('O') == 4,
        fill_tiles(generation_distribution(1)).to_multiset().count('P') == 2,
        fill_tiles(generation_distribution(1)).to_multiset().count('Q') == 1,
        fill_tiles(generation_distribution(1)).to_multiset().count('R') == 7,
        fill_tiles(generation_distribution(1)).to_multiset().count('S') == 7,
        fill_tiles(generation_distribution(1)).to_multiset().count('T') == 8,
        fill_tiles(generation_distribution(1)).to_multiset().count('U') == 4,
        fill_tiles(generation_distribution(1)).to_multiset().count('V') == 1,
        fill_tiles(generation_distribution(1)).to_multiset().count('W') == 1,
        fill_tiles(generation_distribution(1)).to_multiset().count('X') == 1,
        fill_tiles(generation_distribution(1)).to_multiset().count('Y') == 1,
        fill_tiles(generation_distribution(1)).to_multiset().count('Z') == 1,
{
    lemma_fill_holds_letters_by_code(generation_distribution(0));
    lemma_fill_holds_letters_by_code(generation_distribution(1));
    assert(((65 + 0) as char) == 'A');
    assert(((65 + 1) as char) == 'B');
    assert(((65 + 2) as char) == 'C');
    assert(((65 + 3) as char) == 'D');
    assert(((65 + 4) as char) == 'E');
    assert(((65 + 5) as char) == 'F');
    assert(((65 + 6) as char) == 'G');
    assert(((65 + 7) as char) == 'H');
    assert(((65 + 8) as char) == 'I');
    assert(((65 + 9) as char) == 'J');
    assert(((65 + 10) as char) == 'K');
    assert(((65 + 11) as char) == 'L');
    assert(((65 + 12) as char) == 'M');
    assert(((65 + 13) as char) == 'N');
    assert(((65 + 14) as char) == 'O');
    assert(((65 + 15) as char) == 'P');
    assert(((65 + 16) as char) == 'Q');
    assert(((65 + 17) as char) == 'R');
    assert(((65 + 18) as char) == 'S');
    assert(((65 + 19) as char) == 'T');
    assert(((65 + 20) as char) == 'U');
    assert(((65 + 21) as char) == 'V');
    assert(((65 + 22) as char) == 'W');
    assert(((65 + 23) as char) == 'X');
    assert(((65 + 24) as char) == 'Y');
    assert(((65 + 25) as char) == 'Z');
    assert(fill_tiles(generation_distribution(0)).to_multiset().count((65 + 0) as char) == generation_distribution(0)[0]);
    assert(fill_tiles(generation_distribution(0)).to_multiset().count((65 + 1) as char) == generation_distribution(0)[1]);
    assert(fill_tiles(generation_distribution(0)).to_multiset().count((65 + 2) as char) == generation_distribution(0)[2]);
    assert(fill_tiles(generation_distribution(0)).to_multiset().count((65 + 3) as char) == generation_distribution(0)[3]);
    assert(fill_tiles(generation_distribution(0)).to_multiset().count((65 + 4) as char) == generation_distribution(0)[4]);
    assert(fill_tiles(generation_distribution(0)).to_multiset().count((65 + 5) as char) == generation_distribution(0)[5]);
    assert(fill_tiles(generation_distribution(0)).to_multiset().count((65 + 6) as char) == generation_distribution(0)[6]);
    assert(fill_tiles(generation_distribution(0)).to_multiset().count((65 + 7) as char) == generation_distribution(0)[7]);
    assert(fill_tiles(generation_distribution(0)).to_multiset().count((65 + 8) as char) == generation_distribution(0)[8]);
    assert(fill_tiles(generation_distribution(0)).to_multiset().count((65 + 9) as char) == generation_distribution(0)[9]);
    assert(fill_tiles(generation_distribution(0)).to_multiset().count((65 + 10) as char) == generation_distribution(0)[10]);
    assert(fill_tiles(generation_distribution(0)).to_multiset().count((65 + 11) as char) == generation_distribution(0)[11]);
    assert(fill_tiles(generation_distribution(0)).to_multiset().count((65 + 12) as char) == generation_distribution(0)[12]);
    assert(fill_tiles(generation_distribution(0)).to_multiset().count((65 + 13) as char) == generation_distribution(0)[13]);
    assert(fill_tiles(generation_distribution(0)).to_multiset().count((65 + 14) as char) == generation_distribution(0)[14]);
    assert(fill_tiles(generation_distribution(0)).to_multiset().count((65 + 15) as char) == generation_distribution(0)[15]);
    assert(fill_tiles(generation_distribution(0)).to_multiset().count((65 + 16) as char) == generation_distribution(0)[16]);
    assert(fill_tiles(generation_distribution(0)).to_multiset().count((65 + 17) as char) == generation_distribution(0)[17]);
    assert(fill_tiles(generation_distribution(0)).to_multiset().count((65 + 18) as char) == generation_distribution(0)[18]);
    assert(fill_tiles(generation_distribution(0)).to_multiset().count((65 + 19) as char) == generation_distribution(0)[19]);
    assert(fill_tiles(generation_distribution(0)).to_multiset().count((65 + 20) as char) == generation_distribution(0)[20]);
    assert(fill_tiles(generation_distribution(0)).to_multiset().count((65 + 21) as char) == generation_distribution(0)[21]);
    assert(fill_tiles(generation_distribution(0)).to_multiset().count((65 + 22) as char) == generation_distribution(0)[22]);
    assert(fill_tiles(generation_distribution(0)).to_multiset().count((65 + 23) as char) == generation_distribution(0)[23]);
    assert(fill_tiles(generation_distribution(0)).to_multiset().count((65 + 24) as char) == generation_distribution(0)[24]);
    assert(fill_tiles(generation_distribution(0)).to_multiset().count((65 + 25) as char) == generation_distribution(0)[25]);
    assert(fill_tiles(generation_distribution(1)).to_multiset().count((65 + 0) as char) == generation_distribution(1)[0]);
    assert(fill_tiles(generation_distribution(1)).to_multiset().count((65 + 1) as char) == generation_distribution(1)[1]);
    assert(fill_tiles(generation_distribution(1)).to_multiset().count((65 + 2) as char) == generation_distribution(1)[2]);
    assert(fill_tiles(generation_distribution(1)).to_multiset().count((65 + 3) as char) == generation_distribution(1)[3]);
    assert(fill_tiles(generation_distribution(1)).to_multiset().count((65 + 4) as char) == generation_distribution(1)[4]);
    assert(fill_tiles(generation_distribution(1)).to_multiset().count((65 + 5) as char) == generation_distribution(1)[5]);
    assert(fill_tiles(generation_distribution(1)).to_multiset().count((65 + 6) as char) == generation_distribution(1)[6]);
    assert(fill_tiles(generation_distribution(1)).to_multiset().count((65 + 7) as char) == generation_distribution(1)[7]);
    assert(fill_tiles(generation_distribution(1)).to_multiset().count((65 + 8) as char) == generation_distribution(1)[8]);
    assert(fill_tiles(generation_distribution(1)).to_multiset().count((65 + 9) as char) == generation_distribution(1)[9]);
    assert(fill_tiles(generation_distribution(1)).to_multiset().count((65 + 10) as char) == generation_distribution(1)[10]);
    assert(fill_tiles(generation_distribution(1)).to_multiset().count((65 + 11) as char) == generation_distribution(1)[11]);
    assert(fill_tiles(generation_distribution(1)).to_multiset().count((65 + 12) as char) == generation_distribution(1)[12]);
    assert(fill_tiles(generation_distribution(1)).to_multiset().count((65 + 13) as char) == generation_distribution(1)[13]);
    assert(fill_tiles(generation_distribution(1)).to_multiset().count((65 + 14) as char) == generation_distribution(1)[14]);
    assert(fill_tiles(generation_distribution(1)).to_multiset().count((65 + 15) as char) == generation_distribution(1)[15]);
    assert(fill_tiles(generation_distribution(1)).to_multiset().count((65 + 16) as char) == generation_distribution(1)[16]);
    assert(fill_tiles(generation_distribution(1)).to_multiset().count((65 + 17) as char) == generation_distribution(1)[17]);
    assert(fill_tiles(generation_distribution(1)).to_multiset().count((65 + 18) as char) == generation_distribution(1)[18]);
    assert(fill_tiles(generation_distribution(1)).to_multiset().count((65 + 19) as char) == generation_distribution(1)[19]);
    assert(fill_tiles(generation_distribution(1)).to_multiset().count((65 + 20) as char) == generation_distribution(1)[20]);
    assert(fill_tiles(generation_distribution(1)).to_multiset().count((65 + 21) as char) == generation_distribution(1)[21]);
    assert(fill_tiles(generation_distribution(1)).to_multiset().count((65 + 22) as char) == generation_distribution(1)[22]);
    assert(fill_tiles(generation_distribution(1)).to_multiset().count((65 + 23) as char) == generation_distribution(1)[23]);
    assert(fill_tiles(generation_distribution(1)).to_multiset().count((65 + 24) as char) == generation_distribution(1)[24]);
    assert(fill_tiles(generation_distribution(1)).to_multiset().count((65 + 25) as char) == generation_distribution(1)[25]);
}

/// Taking the tile at `k` out leaves the other tiles.
pub proof fn lemma_swap_removed_multiset(tiles: Seq<char>, k: int)
    requires
        0 <= k < tiles.len(),
    ensures
        swap_removed(tiles, k).to_multiset().insert(tiles[k]) == tiles.to_multiset(),
        swap_removed(tiles, k).len() == tiles.len() - 1,
{
    let last = tiles.len() - 1;
    if k == last {
        assert(swap_removed(tiles, k) =~= tiles.drop_last());
        assert(tiles.drop_last().push(tiles[k]) =~= tiles);
    } else {
        let u = tiles.update(k, tiles.last());
        assert(u.drop_last().push(u.last()) =~= u);
        assert(u.last() == tiles.last());
        assert(u.to_multiset() == tiles.to_multiset().insert(tiles.last()).remove(tiles[k]));
        assert(tiles.to_multiset().count(tiles[k]) > 0);
        let a = u.drop_last().to_multiset();
        assert(a.insert(tiles.last()) == u.to_multiset());
        assert(a.insert(tiles[k]) =~= tiles.to_multiset()) by {
            broadcast use vstd::multiset::group_multiset_axioms;
            assert forall|x: char| a.insert(tiles[k]).count(x) == tiles.to_multiset().count(x) by {
                assert(a.insert(tiles.last()).count(x) == tiles.to_multiset().insert(tiles.last()).remove(tiles[k]).count(x));
            }
        }
    }
}

/// Law: drawing as many tiles as a non-empty bag holds never refills it,
/// empties it, and gives exactly the tiles it held.
pub proof fn lemma_draws_empty_the_bag(states: Seq<Seq<char>>, dist: Option<Seq<usize>>, drawn: Seq<char>)
    requires
        states.len() == drawn.len() + 1,
        states[0].len() == drawn.len(),
        forall|k: int| 0 <= k < drawn.len() ==> draw_outcome(states[k], dist, drawn[k], #[trigger] states[k + 1]),
    ensures
        drawn.to_multiset() == states[0].to_multiset(),
        states.last().len() == 0,
{
    lemma_draws_so_far(states, dist, drawn, drawn.len() as int);
    assert(drawn.take(drawn.len() as int) =~= drawn);
    assert(states[0].to_multiset() =~= drawn.to_multiset().add(states.last().to_multiset()));
    assert(states.last().to_multiset().len() == 0);
    assert(states.last().to_multiset() =~= vstd::multiset::Multiset::empty()) by {
        broadcast use vstd::multiset::group_multiset_axioms;
    }
    assert(drawn.to_multiset().add(vstd::multiset::Multiset::empty()) =~= drawn.to_multiset()) by {
        broadcast use vstd::multiset::group_multiset_axioms;
    }
}

proof fn lemma_draws_so_far(states: Seq<Seq<char>>, dist: Option<Seq<usize>>, drawn: Seq<char>, k: int)
    requires
        states.len() == drawn.len() + 1,
        states[0].len() == drawn.len(),
        forall|k: int| 0 <= k < drawn.len() ==> draw_outcome(states[k], dist, drawn[k], #[trigger] states[k + 1]),
        0 <= k <= drawn.len(),
    ensures
        states[k].len() == drawn.len() - k,
        states[0].to_multiset() == drawn.take(k).to_multiset().add(states[k].to_multiset()),
    decreases k,
{
    broadcast use vstd::multiset::group_multiset_axioms;
    if k == 0 {
        assert(drawn.take(0) =~= Seq::<char>::empty());
        assert(drawn.take(0).to_multiset() =~= vstd::multiset::Multiset::empty());
        assert(states[0].to_multiset() =~= vstd::multiset::Multiset::empty().add(states[0].to_multiset()));
    } else {
        lemma_draws_so_far(states, dist, drawn, k - 1);
        let before = states[k - 1];
        let prev = k - 1;
        assert(draw_outcome(states[prev], dist, drawn[prev], states[prev + 1]));
        assert(tiles_at_draw(before, dist) == before);
        let j = choose|j: int| 0 <= j < before.len() && drawn[k - 1] == before[j] && states[k] == swap_removed(before, j);
        lemma_swap_removed_multiset(before, j);
        assert(drawn.take(k) =~= drawn.take(k - 1).push(drawn[k - 1]));
        assert(states[0].to_multiset() =~= drawn.take(k).to_multiset().add(states[k].to_multiset()));
    }
}

proof fn lemma_distribution_tiles_count(dist: Seq<usize>, n: int, i: int)
    requires
        0 <= n <= LETTER_COUNT,
        0 <= i < LETTER_COUNT,
        dist.len() == LETTER_COUNT,
    ensures
        distribution_tiles(dist, n).to_multiset().count(letter(i)) == if i < n { dist[i] as int } else { 0 },
    decreases n,
{
    broadcast use vstd::multiset::group_multiset_axioms;
    if n == 0 {
        assert(distribution_tiles(dist, n).to_multiset() =~= vstd::multiset::Multiset::empty());
    } else {
        lemma_distribution_tiles_count(dist, n - 1, i);
        let c = copies(letter(n - 1), dist[n - 1] as nat);
        vstd::seq_lib::lemma_multiset_commutative(distribution_tiles(dist, n - 1), c);
        lemma_copies_count(letter(n - 1), dist[n - 1] as nat, letter(i));
    }
}

proof fn lemma_copies_count(c: char, m: nat, x: char)
    ensures
        copies(c, m).to_multiset().count(x) == if x == c { m as int } else { 0 },
    decreases m,
{
    broadcast use vstd::multiset::group_multiset_axioms;
    if m == 0 {
        assert(copies(c, m).to_multiset() =~= vstd::multiset::Multiset::empty());
    } else {
        lemma_copies_count(c, (m - 1) as nat, x);
        assert(copies(c, m) =~= copies(c, (m - 1) as nat).push(c));
    }
}

/// Law: a bag filled from a distribution holds, of each letter, exactly as
/// many tiles as the distribution gives that letter, and no other tile.
pub proof fn lemma_fill_tiles_counts(dist: Seq<usize>, x: char)
    requires
        dist.len() == LETTER_COUNT,
    ensures
        forall|i: int| 0 <= i < LETTER_COUNT ==> #[trigger] fill_tiles(dist).to_multiset().count(letter(i)) == dist[i],
        (forall|i: int| 0 <= i < LETTER_COUNT ==> x != #[trigger] letter(i)) ==> fill_tiles(dist).to_multiset().count(x) == 0,
{
    assert forall|i: int| 0 <= i < LETTER_COUNT implies #[trigger] fill_tiles(dist).to_multiset().count(letter(i)) == dist[i] by {
        lemma_distribution_tiles_count(dist, LETTER_COUNT as int, i);
    }
    if forall|i: int| 0 <= i < LETTER_COUNT ==> x != #[trigger] letter(i) {
        lemma_no_other_tiles(dist, LETTER_COUNT as int, x);
    }
}

proof fn lemma_no_other_tiles(dist: Seq<usize>, n: int, x: char)
    requires
        0 <= n <= LETTER_COUNT,
        dist.len() == LETTER_COUNT,
        forall|i: int| 0 <= i < LETTER_COUNT ==> x != #[trigger] letter(i),
    ensures
        distribution_tiles(dist, n).to_multiset().count(x) == 0,
    decreases n,
{
    broadcast use vstd::multiset::group_multiset_axioms;
    if n == 0 {
        assert(distribution_tiles(dist, n).to_multiset() =~= vstd::multiset::Multiset::empty());
    } else {
        lemma_no_other_tiles(dist, n - 1, x);
        let c = copies(letter(n - 1), dist[n - 1] as nat);
        vstd::seq_lib::lemma_multiset_commutative(distribution_tiles(dist, n - 1), c);
        lemma_copies_count(letter(n - 1), dist[n - 1] as nat, x);
    }
}

/// One round of draws: as many draws as the bag holds at the first draw
/// (refilled if it was empty) give exactly those tiles and empty it.
proof fn lemma_one_round(states: Seq<Seq<char>>, dist: Option<Seq<usize>>, drawn: Seq<char>)
    requires
        states.len() == drawn.len() + 1,
        drawn.len() > 0,
        tiles_at_draw(states[0], dist).len() == drawn.len(),
        forall|k: int| 0 <= k < drawn.len() ==> draw_outcome(states[k], dist, drawn[k], #[trigger] states[k + 1]),
    ensures
        drawn.to_multiset() == tiles_at_draw(states[0], dist).to_multiset(),
        states.last().len() == 0,
{
    broadcast use vstd::multiset::group_multiset_axioms;
    let pool = tiles_at_draw(states[0], dist);
    assert(draw_outcome(states[0], dist, drawn[0], states[0int + 1]));
    lemma_return_undoes_draw(states[0], dist, drawn[0], states[1]);
    let j = choose|j: int| 0 <= j < pool.len() && drawn[0] == pool[j] && states[1] == swap_removed(pool, j);
    lemma_swap_removed_multiset(pool, j);
    let rest_states = states.skip(1);
    let rest = drawn.skip(1);
    assert forall|k: int| 0 <= k < rest.len() implies draw_outcome(rest_states[k], dist, rest[k], #[trigger] rest_states[k + 1]) by {
        assert(draw_outcome(states[k + 1], dist, drawn[k + 1], states[(k + 1) + 1]));
    }
    lemma_draws_empty_the_bag(rest_states, dist, rest);
    assert(states[1].push(drawn[0]).to_multiset() == pool.to_multiset());
    assert(drawn =~= seq![drawn[0]] + rest);
    vstd::seq_lib::lemma_multiset_commutative(seq![drawn[0]], rest);
    assert(seq![drawn[0]] =~= Seq::<char>::empty().push(drawn[0]));
    assert(Seq::<char>::empty().to_multiset() =~= vstd::multiset::Multiset::empty());
    assert(drawn.to_multiset() =~= pool.to_multiset());
    assert(rest_states.last() == states.last());
}

/// Law: from a bag that holds the tiles of its distribution, or none,
/// `rounds` times as many draws as one filling holds give each letter
/// `rounds` times as often as the distribution says and no other tile, the
/// bag refilled only when empty, and leave it empty.
pub proof fn lemma_rounds_of_draws(states: Seq<Seq<char>>, dist: Seq<usize>, drawn: Seq<char>, rounds: nat)
    requires
        dist.len() == LETTER_COUNT,
        fill_tiles(dist).len() > 0,
        states[0] == fill_tiles(dist) || states[0].len() == 0,
        drawn.len() == rounds * fill_tiles(dist).len(),
        states.len() == drawn.len() + 1,
        forall|k: int| 0 <= k < drawn.len() ==> draw_outcome(states[k], Some(dist), drawn[k], #[trigger] states[k + 1]),
    ensures
        forall|i: int| 0 <= i < LETTER_COUNT ==> #[trigger] drawn.to_multiset().count(letter(i)) == rounds * dist[i],
        forall|x: char| (forall|i: int| 0 <= i < LETTER_COUNT ==> x != #[trigger] letter(i)) ==> drawn.to_multiset().count(x) == 0,
        rounds > 0 ==> states.last().len() == 0,
    decreases rounds,
{
    broadcast use vstd::multiset::group_multiset_axioms;
    let size = fill_tiles(dist).len() as int;
    if rounds == 0 {
        assert(drawn.len() == 0) by (nonlinear_arith)
            requires
                drawn.len() == rounds * size,
                rounds == 0,
        ;
        assert(drawn =~= Seq::<char>::empty());
        assert(drawn.to_multiset() =~= vstd::multiset::Multiset::empty());
    } else {
        assert(size <= drawn.len()) by (nonlinear_arith)
            requires
                drawn.len() == rounds * size,
                rounds >= 1,
                size > 0,
        ;
        assert(drawn.len() - size == (rounds - 1) * size) by (nonlinear_arith)
            requires
                drawn.len() == rounds * size,
        ;
        let first_states = states.take(size + 1);
        let first = drawn.take(size);
        assert(tiles_at_draw(states[0], Some(dist)) == fill_tiles(dist));
        assert forall|k: int| 0 <= k < first.len() implies draw_outcome(first_states[k], Some(dist), first[k], #[trigger] first_states[k + 1]) by {
            assert(draw_outcome(states[k], Some(dist), drawn[k], states[k + 1]));
        }
        lemma_one_round(first_states, Some(dist), first);
        let rest_states = states.skip(size);
        let rest = drawn.skip(size);
        assert(rest_states[0] == first_states.last());
        assert forall|k: int| 0 <= k < rest.len() implies draw_outcome(rest_states[k], Some(dist), rest[k], #[trigger] rest_states[k + 1]) by {
            assert(draw_outcome(states[k + size], Some(dist), drawn[k + size], states[(k + size) + 1]));
        }
        lemma_rounds_of_draws(rest_states, dist, rest, (rounds - 1) as nat);
        assert(drawn =~= first + rest);
        vstd::seq_lib::lemma_multiset_commutative(first, rest);
        lemma_fill_tiles_counts(dist, 'a');
        assert forall|i: int| 0 <= i < LETTER_COUNT implies #[trigger] drawn.to_multiset().count(letter(i)) == rounds * dist[i] by {
            assert(first.to_multiset().count(letter(i)) == dist[i]);
            assert(rest.to_multiset().count(letter(i)) == (rounds - 1) * dist[i]);
            assert(dist[i] + (rounds - 1) * dist[i] == rounds * dist[i]) by (nonlinear_arith);
        }
        assert forall|x: char| (forall|i: int| 0 <= i < LETTER_COUNT ==> x != #[trigger] letter(i)) implies drawn.to_multiset().count(x) == 0 by {
            lemma_fill_tiles_counts(dist, x);
        }
        if rounds > 1 {
            assert(rest_states.last() == states.last());
        } else {
            assert((rounds - 1) * size == 0) by (nonlinear_arith)
                requires
                    rounds == 1,
            ;
            assert(rest_states.len() == 1);
            assert(states.last() == rest_states[0]);
        }
    }
}

/// Law: a tile drawn and put back leaves the bag with the tiles it held at
/// the draw, the bag refilled if the draw found it empty.
pub proof fn lemma_return_undoes_draw(before: Seq<char>, dist: Option<Seq<usize>>, tile: char, after: Seq<char>)
    requires
        draw_outcome(before, dist, tile, after),
    ensures
        after.push(tile).to_multiset() == tiles_at_draw(before, dist).to_multiset(),
{
    let pool = tiles_at_draw(before, dist);
    let k = choose|k: int| 0 <= k < pool.len() && tile == pool[k] && after == swap_removed(pool, k);
    lemma_swap_removed_multiset(pool, k);
}

/// The seed that `chosen_seed` describes.
fn choose_seed(seed: Option<u64>, clock: Option<u64>) -> (chosen: Option<u64>)
    ensures
        chosen == chosen_seed(seed, clock),
{
    match seed {
        Some(s) => Some(s),
        None => clock,
    }
}

/// A bag of letter tiles with a pseudo-random generator, refilled from its
/// letter distribution, if it has one, whenever a draw finds it empty.
#[derive(Debug, Clone)]
pub struct TileBag {
    bag: Vec<char>,
    rng: Rand32,
    letter_distribution: Option<[usize; 26]>,
}

impl TileBag {
    /// The tiles in the bag, in the order in which the bag keeps them.
    pub closed spec fn tiles(&self) -> Seq<char> {
        self.bag@
    }

    /// The letter counts the bag is refilled from.
    pub closed spec fn distribution(&self) -> Option<Seq<usize>> {
        match self.letter_distribution {
            Some(d) => Some(d@),
            None => None,
        }
    }

    /// The generator that the bag draws with.
    pub closed spec fn generator(&self) -> Rand32 {
        self.rng
    }

    /// A bag filled from one of the game's letter distributions, seeded as
    /// in `custom`; none when there is no seed and the clock stands before
    /// 1970.
    pub fn generation(generation: u32, seed: Option<u64>) -> (bag: Option<Self>)
        requires
            generation < GENERATION_COUNT,
        ensures
            match bag {
                Some(b) => {
                    &&& b.tiles() == fill_tiles(generation_distribution(generation as int))
                    &&& b.distribution() == Some(generation_distribution(generation as int))
                    &&& (seed matches Some(s) ==> b.generator() == seeded_generator(s))
                    &&& exists|s: u64| b.generator() == seeded_generator(s)
                },
                None => seed is None,
            },
    {
        TileBag::custom(generation_counts(generation), seed)
    }

    /// The newest of the game's letter distributions, and a bag filled from
    /// it as `generation` fills one.
    pub fn latest(seed: Option<u64>) -> (latest: (u32, Option<Self>))
        ensures
            latest.0 == GENERATION_COUNT - 1,
            match latest.1 {
                Some(b) => {
                    &&& b.tiles() == fill_tiles(generation_distribution(latest.0 as int))
                    &&& b.distribution() == Some(generation_distribution(latest.0 as int))
                    &&& (seed matches Some(s) ==> b.generator() == seeded_generator(s))
                    &&& exists|s: u64| b.generator() == seeded_generator(s)
                },
                None => seed is None,
            },
    {
        let generation = GENERATION_COUNT - 1;
        (generation, TileBag::generation(generation, seed))
    }

    /// A bag filled from the given letter counts, its generator seeded with
    /// `seed`, or with the clock's whole seconds since 1970 when there is no
    /// seed; none when there is no seed and the clock stands before 1970.
    pub fn custom(letter_distribution: [usize; 26], seed: Option<u64>) -> (bag: Option<Self>)
        ensures
            match bag {
                Some(b) => {
                    &&& b.tiles() == fill_tiles(letter_distribution@)
                    &&& b.distribution() == Some(letter_distribution@)
                    &&& (seed matches Some(s) ==> b.generator() == seeded_generator(s))
                    &&& exists|s: u64| b.generator() == seeded_generator(s)
                },
                None => seed is None,
            },
    {
        let clock = match seed {
            Some(_) => None,
            None => seconds_since_epoch(),
        };
        TileBag::custom_at(letter_distribution, seed, clock)
    }

    /// A bag filled from the given letter counts, its generator seeded with
    /// `seed`, or else with the clock reading `clock` (whole seconds since
    /// 1970, none before 1970); none when neither is given.
    pub fn custom_at(letter_distribution: [usize; 26], seed: Option<u64>, clock: Option<u64>) -> (bag: Option<Self>)
        ensures
            match chosen_seed(seed, clock) {
                Some(v) => bag matches Some(b) && {
                    &&& b.tiles() == fill_tiles(letter_distribution@)
                    &&& b.distribution() == Some(letter_distribution@)
                    &&& b.generator() == seeded_generator(v)
                },
                None => bag is None,
            },
    {
        match choose_seed(seed, clock) {
            Some(seed_value) => {
                let mut tile_bag = TileBag {
                    bag: Vec::new(),
                    rng: new_generator(seed_value),
                    letter_distribution: Some(letter_distribution),
                };
                tile_bag.fill();
                assert(tile_bag.bag@ =~= fill_tiles(letter_distribution@));
                Some(tile_bag)
            },
            None => None,
        }
    }

    /// A bag holding exactly the given tiles, never refilled, its generator
    /// seeded as in `custom`; none when there is no seed and the clock
    /// stands before 1970.
    pub fn explicit(tiles: Vec<char>, seed: Option<u64>) -> (bag: Option<Self>)
        ensures
            match bag {
                Some(b) => {
                    &&& b.tiles() == tiles@
                    &&& b.distribution() is None
                    &&& (seed matches Some(s) ==> b.generator() == seeded_generator(s))
                    &&& exists|s: u64| b.generator() == seeded_generator(s)
                },
                None => seed is None,
            },
    {
        let clock = match seed {
            Some(_) => None,
            None => seconds_since_epoch(),
        };
        TileBag::explicit_at(tiles, seed, clock)
    }

    /// A bag holding exactly the given tiles, never refilled, its generator
    /// seeded with `seed`, or else with the clock reading `clock`; none when
    /// neither is given.
    pub fn explicit_at(tiles: Vec<char>, seed: Option<u64>, clock: Option<u64>) -> (bag: Option<Self>)
        ensures
            match chosen_seed(seed, clock) {
                Some(v) => bag matches Some(b) && {
                    &&& b.tiles() == tiles@
                    &&& b.distribution() is None
                    &&& b.generator() == seeded_generator(v)
                },
                None => bag is None,
            },
    {
        match choose_seed(seed, clock) {
            Some(seed_value) => Some(TileBag { bag: tiles, rng: new_generator(seed_value), letter_distribution: None }),
            None => None,
        }
    }

    /// Takes out the tile at `index`; the last tile moves into its place.
    pub fn take_tile_at(&mut self, index: u32) -> (tile: char)
        requires
            (index as int) < old(self).tiles().len(),
        ensures
            tile == old(self).tiles()[index as int],
            final(self).tiles() == swap_removed(old(self).tiles(), index as int),
            final(self).distribution() == old(self).distribution(),
            final(self).generator() == old(self).generator(),
    {
        self.bag.swap_remove(index as usize)
    }

    /// Draws a pseudo-random tile, refilling the bag first if it is empty.
    /// The generator is asked for a number below the tile count cut to 32
    /// bits; that count must not be 0.
    pub fn draw_tile(&mut self) -> (tile: char)
        requires
            (tiles_at_draw(old(self).tiles(), old(self).distribution()).len() as u32) > 0,
        ensures
            (tile, final(self).tiles(), final(self).generator()) == draw_step(
                old(self).tiles(),
                old(self).distribution(),
                old(self).generator(),
            ),
            tile == tiles_at_draw(old(self).tiles(), old(self).distribution())[range_draw(
                old(self).generator(),
                0,
                tiles_at_draw(old(self).tiles(), old(self).distribution()).len() as u32,
            ).0 as int],
            final(self).generator() == range_draw(
                old(self).generator(),
                0,
                tiles_at_draw(old(self).tiles(), old(self).distribution()).len() as u32,
            ).1,
            draw_outcome(old(self).tiles(), old(self).distribution(), tile, final(self).tiles()),
            final(self).tiles().to_multiset().insert(tile) == tiles_at_draw(old(self).tiles(), old(self).distribution()).to_multiset(),
            final(self).tiles().len() + 1 == tiles_at_draw(old(self).tiles(), old(self).distribution()).len(),
            final(self).distribution() == old(self).distribution(),
    {
        let ghost pool = tiles_at_draw(self.tiles(), self.distribution());
        let ghost rng0 = self.rng;
        if self.bag.len() == 0 {
            self.fill();
        }
        assert(self.bag@ =~= pool);
        let len = self.bag.len();
        let count = len as u32;
        assert(count as usize <= len) by (bit_vector)
            requires
                count == len as u32,
        ;
        let index = random_below(&mut self.rng, 0, count);
        assert(index == draw_index(pool, rng0));
        let tile = self.take_tile_at(index);
        proof {
            lemma_swap_removed_multiset(pool, index as int);
        }
        tile
    }

    /// Puts a tile into the bag.
    pub fn return_tile(&mut self, c: char)
        ensures
            final(self).tiles() == old(self).tiles().push(c),
            final(self).distribution() == old(self).distribution(),
            final(self).generator() == old(self).generator(),
    {
        self.bag.push(c);
    }

    /// Whether two bags hold the same tiles in the same order and the same
    /// distribution; their generators are not compared.
    pub fn same_contents(&self, rhs: &Self) -> (same: bool)
        ensures
            same == (self.tiles() == rhs.tiles() && self.distribution() == rhs.distribution()),
    {
        if self.bag.len() != rhs.bag.len() {
            return false;
        }
        let mut i: usize = 0;
        while i < self.bag.len()
            invariant
                self.bag@.len() == rhs.bag@.len(),
                i <= self.bag@.len(),
                forall|j: int| 0 <= j < i ==> self.bag@[j] == rhs.bag@[j],
            decreases self.bag.len() - i,
        {
            if self.bag[i] != rhs.bag[i] {
                return false;
            }
            i = i + 1;
        }
        assert(self.bag@ =~= rhs.bag@);
        match (self.letter_distribution, rhs.letter_distribution) {
            (None, None) => true,
            (Some(a), Some(b)) => {
                assert(self.distribution() == Some(a@));
                assert(rhs.distribution() == Some(b@));
                let mut k: usize = 0;
                while k < LETTER_COUNT
                    invariant
                        k <= LETTER_COUNT,
                        a@.len() == LETTER_COUNT,
                        b@.len() == LETTER_COUNT,
                        self.distribution() == Some(a@),
                        rhs.distribution() == Some(b@),
                        self.tiles() == rhs.tiles(),
                        forall|j: int| 0 <= j < k ==> a@[j] == b@[j],
                    decreases LETTER_COUNT - k,
                {
                    if a[k] != b[k] {
                        assert(a@[k as int] != b@[k as int]);
                        return false;
                    }
                    k = k + 1;
                }
                assert(a@ =~= b@);
                true
            },
            _ => false,
        }
    }

    /// A description of the bag: `Letters in the bag:`, a line break, then
    /// the tiles as `Debug` writes a list of characters.
    pub fn to_string(&self) -> (text: String)
        ensures
            text@ == "Letters in the bag:\n"@ + debug_text_of_chars(self.tiles()),
    {
        let mut text = String::new();
        text.append("Letters in the bag:\n");
        let list = debug_chars(&self.bag);
        text.append(list.as_str());
        text
    }

    /// Adds the tiles of the bag's distribution, if it has one.
    fn fill(&mut self)
        ensures
            final(self).bag@ == old(self).bag@ + match old(self).distribution() {
                Some(d) => fill_tiles(d),
                None => Seq::empty(),
            },
            final(self).distribution() == old(self).distribution(),
            final(self).rng == old(self).rng,
    {
        if let Some(letter_distribution) = self.letter_distribution {
            let ghost start = self.bag@;
            let ghost d = letter_distribution@;
            let mut i: usize = 0;
            while i < LETTER_COUNT
                invariant
                    i <= LETTER_COUNT,
                    d == letter_distribution@,
                    self.bag@ == start + distribution_tiles(d, i as int),
                    self.letter_distribution == old(self).letter_distribution,
                    self.rng == old(self).rng,
                decreases LETTER_COUNT - i,
            {
                let c = ((i as u8) + 65) as char;
                assert(c == letter(i as int));
                let count = letter_distribution[i];
                let ghost before = self.bag@;
                let mut k: usize = 0;
                while k < count
                    invariant
                        k <= count,
                        self.bag@ == before + copies(c, k as nat),
                        self.letter_distribution == old(self).letter_distribution,
                        self.rng == old(self).rng,
                    decreases count - k,
                {
                    self.bag.push(c);
                    assert(copies(c, (k + 1) as nat) =~= copies(c, k as nat).push(c));
                    k = k + 1;
                }
                assert(self.bag@ =~= start + distribution_tiles(d, i + 1));
                i = i + 1;
            }
        } else {
            assert(self.bag@ =~= self.bag@ + Seq::<char>::empty());
        }
    }
}

impl PartialEq for TileBag {
    fn eq(&self, rhs: &Self) -> (same: bool) {
        self.same_contents(rhs)
    }
}

impl PartialEqSpecImpl for TileBag {
    open spec fn obeys_eq_spec() -> bool {
        true
    }

    open spec fn eq_spec(&self, other: &Self) -> bool {
        self.tiles() == other.tiles() && self.distribution() == other.distribution()
    }
}

} // verus!
