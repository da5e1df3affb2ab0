//! Tests of the level generator: the tutorial board, determinism, and the
//! acceptance rules.
use water_sort::level::Level;
use water_sort::level::Move;
use water_sort::ui::GameButton;
use water_sort::ui::{autoplay, button_press_system, AutoplayAction, ButtonAction};

#[test]
fn tutorial_level_splits_one_color() {
    let level = Level::create(0, 4);
    assert_eq!(level.number, 0);
    assert_eq!(level.glass_height, 4);
    assert_eq!(level.loaded, vec![vec![1, 1, 0, 0], vec![1, 1, 0, 0]]);
    assert_eq!(level.current, level.loaded);
}

#[test]
fn tutorial_level_with_odd_height() {
    let level = Level::create(0, 5);
    assert_eq!(level.loaded, vec![vec![1, 1, 0, 0, 0], vec![1, 1, 1, 0, 0]]);
}

#[test]
fn generation_is_deterministic() {
    let a = Level::create(1, 3);
    let b = Level::create(1, 3);
    assert_eq!(a.loaded, b.loaded);
    let c = Level::create(2, 3);
    let d = Level::create(2, 3);
    assert_eq!(c.loaded, d.loaded);
}

#[test]
fn generated_board_is_solvable_and_mixed() {
    let mut level = Level::create(1, 3);
    // no glass may start out full of one color
    for glass in &level.loaded {
        let c0 = glass[0];
        assert!(c0 == 0 || glass.iter().any(|&c| c != c0));
    }
    // some glass holds two different colors: the shuffle really mixed
    assert!(level.loaded.iter().any(|g| {
        let mut colors: Vec<u8> = g.iter().copied().filter(|&c| c != 0).collect();
        colors.sort();
        colors.dedup();
        colors.len() >= 2
    }));
    // the solver accepts it, and its solution replays to a win
    let (moves, _explored) = level.solve();
    assert!(moves.len() > 0);
    for pair in moves.chunks(2) {
        assert!(level.move_water(pair[0] as usize, pair[1] as usize, false));
    }
    assert!(level.test_win());
}

#[test]
fn generated_cells_stay_within_the_palette() {
    let level = Level::create(2, 3);
    for glass in &level.loaded {
        assert_eq!(glass.len(), 3);
        for &cell in glass {
            assert!(cell as usize <= 12);
        }
    }
    assert!(level.number_of_glasses() >= 2);
}

#[test]
fn generated_board_deals_whole_glasses_of_each_color() {
    let level = Level::create(3, 3);
    let mut counts = [0usize; 13];
    for glass in &level.loaded {
        for &cell in glass {
            counts[cell as usize] += 1;
        }
    }
    // every color present contributes exactly one glassful of units
    for col in 1..=12 {
        assert!(counts[col] == 0 || counts[col] == 3);
    }
}

#[test]
fn button_labels() {
    assert_eq!(GameButton::Restart.name(), "Restart");
    assert_eq!(GameButton::Solution.name(), "Solution");
    assert_eq!(GameButton::Size3.name(), "3");
    assert_eq!(GameButton::Size4.name(), "4");
    assert_eq!(GameButton::Size5.name(), "5");
}

#[test]
fn mixed_level_is_well_formed_and_solvable() {
    let mut level = water_sort::mixer::mix_level().expect("the backward search should qualify a board");
    let glasses = level.number_of_glasses();
    assert_eq!(glasses, 5);
    assert_eq!(level.glass_height, 3);
    // the two spares at the end are vacant
    for x in glasses - 2..glasses {
        for y in 0..level.glass_height {
            assert_eq!(level.get_color(x, y), None);
        }
    }
    // every other glass holds at least two colors
    for x in 0..glasses - 2 {
        let mut colors: Vec<u8> = level.current[x].iter().copied().filter(|&c| c != 0).collect();
        colors.sort();
        colors.dedup();
        assert!(colors.len() >= 2);
    }
    // and the board can be solved forward
    let (moves, _explored) = level.solve();
    assert!(moves.len() > 0);
    for pair in moves.chunks(2) {
        assert!(level.move_water(pair[0] as usize, pair[1] as usize, false));
    }
    assert!(level.test_win());
}

#[test]
fn button_presses_map_to_actions() {
    assert!(matches!(
        button_press_system(&GameButton::Restart, false),
        ButtonAction::RestartLevel
    ));
    assert!(matches!(
        button_press_system(&GameButton::Restart, true),
        ButtonAction::Ignore
    ));
    assert!(matches!(
        button_press_system(&GameButton::Solution, true),
        ButtonAction::PlaySolution
    ));
    assert!(matches!(
        button_press_system(&GameButton::Size4, false),
        ButtonAction::Resize(4)
    ));
    assert!(matches!(
        button_press_system(&GameButton::Size5, true),
        ButtonAction::Ignore
    ));
}

#[test]
fn autoplay_alternates_select_and_apply() {
    let queue = vec![Move { from: 2, to: 0 }];
    assert!(matches!(autoplay(&queue, true), AutoplayAction::Highlight(2)));
    assert!(matches!(autoplay(&queue, false), AutoplayAction::Apply));
    let empty: Vec<Move> = Vec::new();
    assert!(matches!(autoplay(&empty, true), AutoplayAction::Stop));
}
