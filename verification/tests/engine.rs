use console_core::game::{Direction, Game};
use console_core::line::slide_line;

fn slide(cells: [u8; 4]) -> (Vec<u8>, bool) {
    let mut line: Vec<u8> = cells.to_vec();
    let moved = slide_line(&mut line);
    (line, moved)
}

#[test]
fn slide_merges_adjacent_pair_at_front() {
    let (line, moved) = slide([1, 1, 0, 0]);
    assert_eq!(line, vec![2, 0, 0, 0]);
    assert!(moved);
}

#[test]
fn slide_merges_pair_at_back() {
    let (line, moved) = slide([0, 0, 1, 1]);
    assert_eq!(line, vec![2, 0, 0, 0]);
    assert!(moved);
}

#[test]
fn slide_merges_pair_split_by_gap() {
    let (line, moved) = slide([1, 0, 1, 0]);
    assert_eq!(line, vec![2, 0, 0, 0]);
    assert!(moved);
}

#[test]
fn slide_of_empty_line_does_nothing() {
    let (line, moved) = slide([0, 0, 0, 0]);
    assert_eq!(line, vec![0, 0, 0, 0]);
    assert!(!moved);
}

#[test]
fn each_cell_merges_at_most_once() {
    let (line, moved) = slide([1, 1, 1, 0]);
    assert_eq!(line, vec![2, 1, 0, 0]);
    assert!(moved);
    let (line, moved) = slide([2, 2, 2, 2]);
    assert_eq!(line, vec![3, 3, 0, 0]);
    assert!(moved);
}

#[test]
fn second_slide_of_a_merge_free_result_is_identity() {
    let (once, moved_once) = slide([1, 1, 0, 0]);
    assert!(moved_once);
    let mut again = once.clone();
    let moved_again = slide_line(&mut again);
    assert_eq!(again, once);
    assert!(!moved_again);
}

#[test]
fn both_pairs_merge_in_one_pass() {
    let (once, _) = slide([2, 2, 1, 1]);
    assert_eq!(once, vec![3, 2, 0, 0]);
    let mut again = once.clone();
    let moved_again = slide_line(&mut again);
    assert_eq!(again, once);
    assert!(!moved_again);
}

#[test]
fn second_slide_can_merge_what_the_first_pushed_together() {
    // The single merge pass does not revisit a merged-into cell, so the pair
    // it creates here only merges on the next slide.
    let (once, moved_once) = slide([1, 1, 2, 0]);
    assert_eq!(once, vec![2, 2, 0, 0]);
    assert!(moved_once);
    let mut again = once.clone();
    let moved_again = slide_line(&mut again);
    assert_eq!(again, vec![3, 0, 0, 0]);
    assert!(moved_again);
}

#[test]
fn next_rand_matches_the_xorshift_recurrence() {
    let mut game = Game::new();
    assert_eq!(game.rand_state(), 1);
    // 1 -> 1 ^ (1 << 13) = 0x2001; ^ (0x2001 >> 17) = 0x2001; ^ (0x2001 << 5)
    let first = game.next_rand();
    assert_eq!(first, 0x2001 ^ (0x2001 << 5));
    assert_eq!(game.rand_state(), first);
}

#[test]
fn generator_stays_nonzero_from_nonzero_seed() {
    let mut game = Game::new();
    for _ in 0..10_000 {
        assert_ne!(game.next_rand(), 0);
    }
}

#[test]
fn generator_does_not_revisit_the_seed_early() {
    let mut game = Game::new();
    let seed = game.rand_state();
    for _ in 0..100_000 {
        assert_ne!(game.next_rand(), seed);
    }
}

fn occupied(game: &Game) -> usize {
    let mut n = 0;
    for r in 0..4 {
        for c in 0..4 {
            if game.cell(r, c) != 0 {
                n += 1;
            }
        }
    }
    n
}

fn snapshot(game: &Game) -> Vec<u8> {
    let mut cells = Vec::new();
    for r in 0..4 {
        for c in 0..4 {
            cells.push(game.cell(r, c));
        }
    }
    cells
}

#[test]
fn new_game_is_empty_with_unit_seed() {
    let game = Game::new();
    assert_eq!(occupied(&game), 0);
    assert_eq!(game.score(), 0);
    assert_eq!(game.rand_state(), 1);
}

#[test]
fn reset_spawns_exactly_two_tiles() {
    let mut game = Game::new();
    game.reset();
    assert_eq!(occupied(&game), 2);
    assert_eq!(game.score(), 0);
    for r in 0..4 {
        for c in 0..4 {
            let e = game.cell(r, c);
            assert!(e == 0 || e == 1 || e == 2);
        }
    }
}

#[test]
fn spawned_tiles_follow_the_draws() {
    let mut game = Game::new();
    game.reset();
    // From the unit seed the first spawn draws 0x42021 (cell 1 of the 16
    // empties) and 0x4080601 (low two bits 01, so a "4": exponent 2); the
    // second draws 0x9dcca8c5 (cell 7 of the 15 left) and 0x1255994f (low
    // two bits 11: exponent 2 again).
    assert_eq!(game.cell(0, 1), 2);
    assert_eq!(game.cell(1, 3), 2);
    assert_eq!(game.rand_state(), 0x1255_994F);
    // On a second reset the first value draw has zero low two bits, so a
    // "2" (exponent 1) spawns for once.
    game.reset();
    assert_eq!(game.cell(0, 1), 1);
    assert_eq!(game.cell(2, 0), 2);
    assert_eq!(occupied(&game), 2);
}

#[test]
fn move_on_empty_grid_is_a_noop() {
    let mut game = Game::new();
    let before_rng = game.rand_state();
    for dir in [Direction::Left, Direction::Right, Direction::Up, Direction::Down] {
        let moved = game.make_move(dir);
        assert!(!moved);
        assert_eq!(occupied(&game), 0);
        assert_eq!(game.rand_state(), before_rng);
    }
}

#[test]
fn unmoved_moves_change_nothing_and_spare_the_generator() {
    let mut game = Game::new();
    game.reset();
    for _ in 0..50 {
        for dir in [Direction::Left, Direction::Right, Direction::Up, Direction::Down] {
            let before = snapshot(&game);
            let before_rng = game.rand_state();
            let moved = game.make_move(dir);
            let after = snapshot(&game);
            if moved {
                assert_ne!(after, before);
            } else {
                assert_eq!(after, before);
                assert_eq!(game.rand_state(), before_rng);
            }
        }
    }
}

#[test]
fn moves_raise_occupancy_by_at_most_one_and_only_on_change() {
    let mut game = Game::new();
    game.reset();
    for _ in 0..200 {
        for dir in [Direction::Up, Direction::Left, Direction::Down, Direction::Right] {
            let before = occupied(&game);
            let moved = game.make_move(dir);
            let after = occupied(&game);
            assert!(after <= before + 1);
            if !moved {
                assert_eq!(after, before);
            }
        }
    }
}

#[test]
fn score_never_changes_without_a_scoring_rule() {
    let mut game = Game::new();
    game.reset();
    for _ in 0..20 {
        for dir in [Direction::Left, Direction::Up, Direction::Right, Direction::Down] {
            game.make_move(dir);
            assert_eq!(game.score(), 0);
        }
    }
}
