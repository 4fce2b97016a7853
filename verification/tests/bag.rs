use truncate_core::bag::{TileBag, GENERATION_COUNT};

fn a_b_bag() -> TileBag {
    let mut dist = [0; 26];
    dist[0] = 1; // There is 1 A and
    dist[1] = 1; // 1 B in the bag
    TileBag::custom(dist, Some(12345)).unwrap()
}

fn trivial_bag() -> TileBag {
    let mut dist = [0; 26];
    dist[0] = 1;
    TileBag::custom(dist, Some(12345)).unwrap()
}

#[test]
fn refills() {
    let mut bag = a_b_bag();
    assert_eq!(bag.to_string(), "Letters in the bag:\n['A', 'B']");
    let drawn = (0..10).map(|_| bag.draw_tile());
    assert_eq!(drawn.filter(|&x| x == 'A').count(), 5);
}

#[test]
fn trivial_bag_always_gives_a() {
    let mut bag = trivial_bag();
    for _ in 0..5 {
        assert_eq!(bag.draw_tile(), 'A');
    }
}

#[test]
fn custom_bag_holds_its_distribution() {
    let mut dist = [0; 26];
    dist[0] = 2;
    dist[2] = 1;
    dist[25] = 3;
    let bag = TileBag::custom(dist, Some(7)).unwrap();
    assert_eq!(bag.to_string(), "Letters in the bag:\n['A', 'A', 'C', 'Z', 'Z', 'Z']");
}

#[test]
fn a_cycle_of_draws_gives_back_the_distribution() {
    let mut dist = [0; 26];
    dist[4] = 3;
    dist[13] = 2;
    dist[17] = 1;
    let mut bag = TileBag::custom(dist, Some(99)).unwrap();
    let mut drawn: Vec<char> = (0..6).map(|_| bag.draw_tile()).collect();
    drawn.sort();
    assert_eq!(drawn, vec!['E', 'E', 'E', 'N', 'N', 'R']);
    assert_eq!(bag.to_string(), "Letters in the bag:\n[]");
    // The next draw refills the bag first.
    let next = bag.draw_tile();
    assert!(next == 'E' || next == 'N' || next == 'R');
}

#[test]
fn explicit_bag_is_never_refilled() {
    let mut bag = TileBag::explicit(vec!['Q', 'X'], Some(1)).unwrap();
    let mut drawn = vec![bag.draw_tile(), bag.draw_tile()];
    drawn.sort();
    assert_eq!(drawn, vec!['Q', 'X']);
    assert_eq!(bag.to_string(), "Letters in the bag:\n[]");
}

#[test]
fn returned_tile_goes_back_in() {
    let mut bag = TileBag::explicit(vec!['A'], Some(3)).unwrap();
    let tile = bag.draw_tile();
    assert_eq!(tile, 'A');
    bag.return_tile(tile);
    bag.return_tile('\u{e4}');
    assert_eq!(bag.to_string(), "Letters in the bag:\n['A', '\u{e4}']");
}

#[test]
fn take_tile_at_moves_last_tile_in() {
    let mut bag = TileBag::explicit(vec!['A', 'B', 'C', 'D'], Some(3)).unwrap();
    assert_eq!(bag.take_tile_at(1), 'B');
    assert_eq!(bag.to_string(), "Letters in the bag:\n['A', 'D', 'C']");
}

#[test]
fn generations_have_their_tile_counts() {
    let first = TileBag::generation(0, Some(1)).unwrap();
    let second = TileBag::generation(1, Some(1)).unwrap();
    let count = |bag: &TileBag| bag.to_string().matches('\'').count() / 2;
    assert_eq!(count(&first), 102);
    assert_eq!(count(&second), 104);
    let (generation, latest) = TileBag::latest(Some(1));
    assert_eq!(generation, GENERATION_COUNT - 1);
    let latest = latest.unwrap();
    assert!(latest == second);
    assert!(!(latest == first));
}

#[test]
fn equality_ignores_the_generator() {
    let a = TileBag::explicit(vec!['A', 'B'], Some(1)).unwrap();
    let b = TileBag::explicit(vec!['A', 'B'], Some(2)).unwrap();
    let c = TileBag::explicit(vec!['B', 'A'], Some(1)).unwrap();
    assert!(a == b);
    assert!(!(a == c));
    let mut dist = [0; 26];
    dist[0] = 1;
    dist[1] = 1;
    let d = TileBag::custom(dist, Some(5)).unwrap();
    assert!(!(a == d));
    assert!(d.same_contents(&a_b_bag()));
}

#[test]
fn same_seed_draws_the_same_tiles() {
    let mut first = TileBag::generation(1, Some(42)).unwrap();
    let mut second = TileBag::generation(1, Some(42)).unwrap();
    let a: Vec<char> = (0..20).map(|_| first.draw_tile()).collect();
    let b: Vec<char> = (0..20).map(|_| second.draw_tile()).collect();
    assert_eq!(a, b);
    assert!(first == second);
}

#[test]
fn cloned_bag_draws_alike() {
    let mut bag = TileBag::generation(0, Some(8)).unwrap();
    let mut copy = bag.clone();
    assert_eq!(bag.draw_tile(), copy.draw_tile());
}

#[test]
fn clock_reading_seeds_like_a_seed() {
    let mut dist = [0; 26];
    dist[0] = 3;
    dist[1] = 2;
    dist[7] = 4;
    let mut by_clock = TileBag::custom_at(dist, None, Some(1_700_000_000)).unwrap();
    let mut by_seed = TileBag::custom(dist, Some(1_700_000_000)).unwrap();
    assert!(TileBag::custom_at(dist, None, None).is_none());
    assert!(TileBag::explicit_at(vec!['A'], None, None).is_none());
    let mut seed_wins = TileBag::custom_at(dist, Some(5), Some(9)).unwrap();
    let mut five = TileBag::custom(dist, Some(5)).unwrap();
    for _ in 0..20 {
        assert_eq!(by_clock.draw_tile(), by_seed.draw_tile());
        assert_eq!(seed_wins.draw_tile(), five.draw_tile());
    }
    let mut loose = TileBag::explicit_at(vec!['A', 'B', 'C'], None, Some(77)).unwrap();
    let mut fixed = TileBag::explicit(vec!['A', 'B', 'C'], Some(77)).unwrap();
    for _ in 0..3 {
        assert_eq!(loose.draw_tile(), fixed.draw_tile());
    }
}

#[test]
fn generation_draws_as_custom_does() {
    let mut dist = [0; 26];
    let counts = [8, 3, 2, 2, 17, 2, 3, 4, 6, 1, 3, 4, 3, 8, 4, 2, 1, 7, 7, 8, 4, 1, 1, 1, 1, 1];
    dist.copy_from_slice(&counts);
    let mut from_generation = TileBag::generation(1, Some(11)).unwrap();
    let mut from_custom = TileBag::custom(dist, Some(11)).unwrap();
    let mut from_latest = TileBag::latest(Some(11)).1.unwrap();
    for _ in 0..250 {
        let tile = from_generation.draw_tile();
        assert_eq!(tile, from_custom.draw_tile());
        assert_eq!(tile, from_latest.draw_tile());
    }
}

#[test]
fn several_rounds_give_the_distribution_each_round() {
    let mut dist = [0; 26];
    dist[3] = 2;
    dist[20] = 1;
    let mut bag = TileBag::custom(dist, Some(4)).unwrap();
    let drawn: Vec<char> = (0..12).map(|_| bag.draw_tile()).collect();
    assert_eq!(drawn.iter().filter(|&&c| c == 'D').count(), 8);
    assert_eq!(drawn.iter().filter(|&&c| c == 'U').count(), 4);
    assert_eq!(bag.to_string(), "Letters in the bag:\n[]");
}

#[test]
fn no_seed_reads_the_clock() {
    let mut dist = [0; 26];
    dist[0] = 1;
    let bag = TileBag::custom(dist, None).unwrap();
    assert_eq!(bag.to_string(), "Letters in the bag:\n['A']");
    let loose = TileBag::explicit(vec!['B'], None).unwrap();
    assert_eq!(loose.to_string(), "Letters in the bag:\n['B']");
}

#[test]
fn returning_a_tile_keeps_the_generator() {
    let mut first = TileBag::explicit(vec!['A', 'B', 'C', 'D', 'E'], Some(21)).unwrap();
    let mut second = first.clone();
    let tile = first.draw_tile();
    assert_eq!(tile, second.draw_tile());
    first.return_tile(tile);
    second.return_tile(tile);
    for _ in 0..5 {
        assert_eq!(first.draw_tile(), second.draw_tile());
    }
    assert!(first == second);
}
