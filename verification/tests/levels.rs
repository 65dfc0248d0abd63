use sokoban::bitv::Bitv;
use sokoban::board::{Board, BuildError};

fn rows(lines: &[&str]) -> Vec<String> {
    let mut data = Vec::new();
    for line in lines {
        data.push(line.to_string());
    }
    data
}

#[test]
fn masks_follow_the_characters() {
    let board = Board::new((5, 4), rows(&["#####", "#.$ #", "#@* #", "#####"])).unwrap();
    // row 1: target at 6, box at 7, floor at 8
    assert!(board.targets.get_bit(6));
    assert!(board.boxes.get_bit(7));
    assert!(board.floor.get_bit(8));
    assert!(!board.boxes.get_bit(6));
    // row 2: player at 11, box on target at 12
    assert_eq!(board.player, 11);
    assert!(board.boxes.get_bit(12));
    assert!(board.targets.get_bit(12));
    assert!(board.floor.get_bit(12));
    // walls carry nothing
    assert!(!board.floor.get_bit(0));
    assert!(!board.floor.get_bit(5));
}

#[test]
fn short_rows_are_walls() {
    let board = Board::new((5, 4), rows(&["#####", "#@$.#", "##", "#####"])).unwrap();
    assert!(!board.floor.get_bit(12));
    assert!(!board.floor.get_bit(13));
    assert!(board.floor.get_bit(6));
}

#[test]
fn impossible_level_is_refused() {
    let r = Board::new((5, 4), rows(&["#####", "#..$#", "#@  #", "#####"]));
    assert_eq!(r.unwrap_err(), BuildError::ImpossibleLevel);
}

#[test]
fn extra_boxes_are_accepted() {
    let r = Board::new((5, 4), rows(&["#####", "#.$$#", "#@  #", "#####"]));
    assert!(r.is_ok());
}

#[test]
fn malformed_level_names_the_character() {
    let r = Board::new((3, 1), rows(&["#X#"]));
    assert_eq!(r.unwrap_err(), BuildError::MalformedLevel('X'));
}

#[test]
fn places_exclude_dead_corners() {
    let board = Board::new((5, 4), rows(&["#####", "# $.#", "#   #", "#####"])).unwrap();
    // the corner cell at row 1, column 1 has walls on its left and above:
    // a box there could never be pushed again
    assert!(!board.places.get_bit(6));
    // the open middle cell is a legal resting place
    assert!(board.places.get_bit(12));
    // a target is always a legal resting place
    assert!(board.places.get_bit(8));
}

#[test]
fn largest_board_fits() {
    let mut lines = Vec::new();
    for _ in 0..16 {
        lines.push("################".to_string());
    }
    let board = Board::new((16, 16), lines).unwrap();
    assert_eq!(board.size, (16, 16));
}

#[test]
fn single_cell_level() {
    let board = Board::new((1, 1), rows(&["#"])).unwrap();
    assert_eq!(board.size, (1, 1));
    assert_eq!(sokoban::solver::resolve(&board), None);
}
