use puzzles::almanac;
use puzzles::cube_game::CubeCount;
use puzzles::cube_game::Game;
use puzzles::cube_game;
use puzzles::range_map::Interval;
use puzzles::range_map::Rule;
use puzzles::range_map::Table;
use puzzles::scratch_cards::Card;
use puzzles::scratch_cards;

fn rule(src_start: usize, src_len: usize, dst: usize) -> Rule {
    Rule {
        source: Interval::new(src_start, src_len).unwrap(),
        destination_start: dst,
    }
}

#[test]
fn almanac_first_star_takes_least_single_seed_location() {
    // stage one moves [0, 10) to 100; stage two moves [100, 5) to 1000
    let stage1 = Table::new(vec![rule(0, 10, 100)]).unwrap();
    let stage2 = Table::new(vec![rule(100, 5, 1000)]).unwrap();
    let tables = vec![stage1, stage2];
    assert_eq!(almanac::seed_location(&tables, 3), 1003);
    assert_eq!(almanac::seed_location(&tables, 7), 107);
    assert_eq!(almanac::seed_location(&tables, 50), 50);
    let seeds = vec![3, 7, 50];
    assert_eq!(almanac::first_star(&seeds, &tables), 50);
}

#[test]
fn almanac_second_star_takes_least_location_over_ranges() {
    let stage1 = Table::new(vec![rule(0, 10, 100)]).unwrap();
    let stage2 = Table::new(vec![rule(100, 5, 1000)]).unwrap();
    let tables = vec![stage1, stage2];
    // the range [0, 10): values 0..=4 reach 1000..=1004, 5..=9 reach 105..=109
    let seeds = vec![0, 10];
    assert_eq!(almanac::second_star(&seeds, &tables), 105);
    // two ranges, one untouched by any rule
    let seeds = vec![0, 10, 40, 3];
    assert_eq!(almanac::second_star(&seeds, &tables), 40);
}

fn round(red: u32, green: u32, blue: u32) -> CubeCount {
    CubeCount { red_count: red, green_count: green, blue_count: blue }
}

#[test]
fn cube_game_query_checks_every_round() {
    let game = Game { game_id: 1, rounds: vec![round(4, 0, 3), round(1, 2, 6), round(0, 2, 0)] };
    assert!(game.query(&round(12, 13, 14)));
    assert!(!game.query(&round(3, 13, 14)));
    let empty = Game { game_id: 2, rounds: Vec::new() };
    assert!(empty.query(&round(0, 0, 0)));
}

#[test]
fn cube_game_first_star_sums_possible_game_ids() {
    let games = vec![
        Game { game_id: 1, rounds: vec![round(4, 0, 3), round(1, 2, 6), round(0, 2, 0)] },
        Game { game_id: 2, rounds: vec![round(0, 2, 1), round(1, 3, 4), round(0, 1, 1)] },
        Game { game_id: 3, rounds: vec![round(20, 8, 6), round(4, 13, 5), round(1, 5, 0)] },
        Game { game_id: 4, rounds: vec![round(3, 1, 6), round(6, 3, 0), round(14, 3, 15)] },
        Game { game_id: 5, rounds: vec![round(6, 3, 1), round(1, 2, 2)] },
    ];
    // the classic sample: games 1, 2 and 5 fit a 12/13/14 bag
    assert_eq!(cube_game::first_star(&games), 8);
}

#[test]
fn cube_game_second_star_sums_powers_of_fewest_cubes() {
    let games = vec![
        Game { game_id: 1, rounds: vec![round(4, 0, 3), round(1, 2, 6), round(0, 2, 0)] },
        Game { game_id: 2, rounds: vec![round(0, 2, 1), round(1, 3, 4), round(0, 1, 1)] },
        Game { game_id: 3, rounds: vec![round(20, 8, 6), round(4, 13, 5), round(1, 5, 0)] },
        Game { game_id: 4, rounds: vec![round(3, 1, 6), round(6, 3, 0), round(14, 3, 15)] },
        Game { game_id: 5, rounds: vec![round(6, 3, 1), round(1, 2, 2)] },
    ];
    assert_eq!(cube_game::second_star(&games), 2286);
    let m = games[0].fewest_cubes();
    assert_eq!((m.red_count, m.green_count, m.blue_count), (4, 2, 6));
}

fn card(id: u32, winning: Vec<u32>, numbers: Vec<u32>) -> Card {
    Card { id, winning, numbers }
}

fn sample_cards() -> Vec<Card> {
    vec![
        card(1, vec![41, 48, 83, 86, 17], vec![83, 86, 6, 31, 17, 9, 48, 53]),
        card(2, vec![13, 32, 20, 16, 61], vec![61, 30, 68, 82, 17, 32, 24, 19]),
        card(3, vec![1, 21, 53, 59, 44], vec![69, 82, 63, 72, 16, 21, 14, 1]),
        card(4, vec![41, 92, 73, 84, 69], vec![59, 84, 76, 51, 58, 5, 54, 83]),
        card(5, vec![87, 83, 26, 28, 32], vec![88, 30, 70, 12, 93, 22, 82, 36]),
        card(6, vec![31, 18, 13, 56, 72], vec![74, 77, 10, 23, 35, 67, 36, 11]),
    ]
}

#[test]
fn scratch_cards_count_wins_counts_drawn_winners() {
    let cards = sample_cards();
    assert_eq!(scratch_cards::count_wins(&cards[0]), 4);
    assert_eq!(scratch_cards::count_wins(&cards[4]), 0);
}

#[test]
fn scratch_cards_points_double_per_extra_win() {
    let cards = sample_cards();
    assert_eq!(scratch_cards::card_points(&cards[0]), 8);
    assert_eq!(scratch_cards::card_points(&cards[1]), 2);
    assert_eq!(scratch_cards::card_points(&cards[4]), 0);
}

#[test]
fn scratch_cards_first_star_sums_points() {
    // the classic sample scores 13
    assert_eq!(scratch_cards::first_star(&sample_cards()), 13);
}

#[test]
fn scratch_cards_second_star_counts_cascading_copies() {
    // the classic sample ends with 30 cards
    assert_eq!(scratch_cards::second_star(&sample_cards()), 30);
    // a card never grants copies past the end of the list
    let cards = vec![card(1, vec![5, 6, 7], vec![5, 6, 7])];
    assert_eq!(scratch_cards::second_star(&cards), 1);
}
