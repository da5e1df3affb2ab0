//! Scenario tests for the pour engine: glass scans, move legality, undo,
//! winning, and the solver on small boards.
use water_sort::glass::{glass_fill, glass_info, glass_is_one_color, glass_is_vacant, glass_key};
use water_sort::level::Level;

fn level_from(glass_height: usize, glasses: &[&[u8]]) -> Level {
    let mut data: Vec<u8> = vec![glasses.len() as u8];
    for g in glasses {
        assert_eq!(g.len(), glass_height);
        data.extend_from_slice(g);
    }
    Level::from_saved_bytes(0, glass_height, &data).expect("board should parse")
}

#[test]
fn glass_info_scans_top_run() {
    assert_eq!(glass_info(&vec![1, 1, 2, 0]), (2, 1, 1));
    assert_eq!(glass_info(&vec![1, 2, 2, 2]), (2, 3, 0));
    assert_eq!(glass_info(&vec![0, 0, 0, 0]), (0, 0, 4));
    assert_eq!(glass_info(&vec![3, 0, 0]), (3, 1, 2));
    assert_eq!(glass_info(&vec![5, 5, 5]), (5, 3, 0));
}

#[test]
fn glass_fill_counts_contents() {
    assert_eq!(glass_fill(&vec![1, 2, 0, 0]), 2);
    assert_eq!(glass_fill(&vec![0, 0]), 0);
    assert_eq!(glass_fill(&vec![4, 4, 4]), 3);
}

#[test]
fn glass_vacancy_and_uniformity() {
    assert!(glass_is_vacant(&vec![0, 0, 0]));
    assert!(!glass_is_vacant(&vec![0, 1, 0]));
    assert!(glass_is_one_color(&vec![2, 2, 2]));
    assert!(!glass_is_one_color(&vec![2, 2, 0]));
    assert!(!glass_is_one_color(&vec![0, 0, 0]));
}

#[test]
fn glass_key_packs_cells() {
    assert_eq!(glass_key(&vec![1, 2]), 0x0102);
    assert_eq!(glass_key(&vec![0, 0]), 0);
    assert_eq!(glass_key(&vec![255, 255, 255]), 0xFF_FF_FF);
    assert_eq!(glass_key(&Vec::new()), 0);
}

#[test]
fn won_board_solves_in_zero_moves() {
    let mut level = level_from(2, &[&[1, 1], &[0, 0]]);
    assert!(level.test_win());
    let (moves, explored) = level.solve();
    assert_eq!(moves.len(), 0);
    assert_eq!(explored, 1);
}

#[test]
fn three_glass_board_solves_and_replays_to_win() {
    let mut level = level_from(2, &[&[1, 2], &[2, 1], &[0, 0]]);
    assert!(!level.test_win());
    let (moves, explored) = level.solve();
    assert!(moves.len() > 0);
    assert_eq!(moves.len() % 2, 0);
    assert!(explored >= 1);
    for pair in moves.chunks(2) {
        let ok = level.move_water(pair[0] as usize, pair[1] as usize, false);
        assert!(ok, "solver move must be legal");
    }
    assert!(level.test_win());
}

#[test]
fn immediate_win_is_found_in_one_move() {
    let mut level = level_from(2, &[&[1, 0], &[1, 0]]);
    assert!(!level.test_win());
    let (moves, _explored) = level.solve();
    assert_eq!(moves, vec![0, 1]);
}

#[test]
fn pour_from_vacant_glass_fails_without_mutation() {
    let mut level = level_from(2, &[&[1, 1], &[0, 0]]);
    let before = level.current.clone();
    assert!(!level.move_water(1, 0, true));
    assert_eq!(level.current, before);
    assert_eq!(level.moves.len(), 0);
    // rejection is repeatable
    assert!(!level.move_water(1, 0, true));
    assert_eq!(level.current, before);
}

#[test]
fn pour_onto_other_color_fails() {
    let mut level = level_from(2, &[&[2, 2], &[1, 0]]);
    let before = level.current.clone();
    assert!(!level.move_water(0, 1, false));
    assert_eq!(level.current, before);
}

#[test]
fn pour_with_insufficient_room_fails() {
    let mut level = level_from(2, &[&[2, 2], &[1, 2]]);
    let before = level.current.clone();
    assert!(!level.move_water(0, 1, false));
    assert_eq!(level.current, before);
}

#[test]
fn legal_pour_moves_the_top_run() {
    let mut level = level_from(4, &[&[1, 2, 2, 0], &[2, 0, 0, 0]]);
    assert!(level.move_water(0, 1, true));
    assert_eq!(level.current, vec![vec![1, 0, 0, 0], vec![2, 2, 2, 0]]);
    assert_eq!(level.moves.len(), 1);
    assert_eq!(level.moves[0].from, 0);
    assert_eq!(level.moves[0].to, 1);
    assert_eq!(level.move_counts, vec![2]);
}

#[test]
fn pour_conserves_units() {
    let mut level = level_from(3, &[&[1, 2, 2], &[2, 0, 0], &[0, 0, 0]]);
    let count_color = |l: &Level, c: u8| -> usize {
        l.current.iter().flatten().filter(|&&x| x == c).count()
    };
    let ones = count_color(&level, 1);
    let twos = count_color(&level, 2);
    assert!(level.move_water(0, 1, false));
    assert!(level.move_water(0, 2, false));
    assert_eq!(count_color(&level, 1), ones);
    assert_eq!(count_color(&level, 2), twos);
}

#[test]
fn undo_restores_the_board() {
    let mut level = level_from(3, &[&[1, 2, 2], &[2, 0, 0], &[0, 0, 0]]);
    let before = level.current.clone();
    assert!(level.move_water(0, 1, true));
    assert_ne!(level.current, before);
    assert!(level.undo());
    assert_eq!(level.current, before);
    assert_eq!(level.moves.len(), 0);
    // nothing left to undo
    assert!(!level.undo());
}

#[test]
fn reverse_pour_moves_onto_any_color() {
    let mut level = level_from(3, &[&[1, 2, 2], &[3, 0, 0], &[0, 0, 0]]);
    // one unit of the top color may land on a different color
    assert!(level.move_reverse(0, 1, 1));
    assert_eq!(level.current, vec![vec![1, 2, 0], vec![3, 2, 0], vec![0, 0, 0]]);
}

#[test]
fn reverse_pour_may_not_strand_a_partial_run() {
    let mut level = level_from(4, &[&[1, 2, 2, 0], &[0, 0, 0, 0]]);
    let before = level.current.clone();
    // taking the whole run off a partially filled foreign-bottomed glass
    // is refused
    assert!(!level.move_reverse(0, 1, 2));
    assert_eq!(level.current, before);
    // and so is taking more than the run holds
    assert!(!level.move_reverse(0, 1, 3));
    assert_eq!(level.current, before);
}

#[test]
fn reverse_pour_may_empty_the_run_of_a_full_glass() {
    // the source glass is full, so its whole top run may leave even though
    // a foreign color is exposed underneath
    let mut level = level_from(3, &[&[1, 2, 2], &[0, 0, 0]]);
    assert!(level.move_reverse(0, 1, 2));
    assert_eq!(level.current, vec![vec![1, 0, 0], vec![2, 2, 0]]);
}

#[test]
fn reverse_pour_respects_room() {
    let mut level = level_from(2, &[&[1, 1], &[2, 2]]);
    let before = level.current.clone();
    assert!(!level.move_reverse(0, 1, 1));
    assert_eq!(level.current, before);
}

#[test]
fn restart_returns_to_the_loaded_board() {
    let mut level = level_from(2, &[&[1, 0], &[1, 0]]);
    let loaded = level.current.clone();
    assert!(level.move_water(0, 1, true));
    level.restart();
    assert_eq!(level.current, loaded);
}

#[test]
fn get_color_reads_cells() {
    let level = level_from(2, &[&[1, 0], &[2, 2]]);
    assert_eq!(level.get_color(0, 0), Some(1));
    assert_eq!(level.get_color(0, 1), None);
    assert_eq!(level.get_color(1, 1), Some(2));
    assert_eq!(level.number_of_glasses(), 2);
}
