use sokoban::bitv::Bitv;
use sokoban::board::Board;
use sokoban::solver::resolve;

fn rows(lines: &[&str]) -> Vec<String> {
    let mut data = Vec::new();
    for line in lines {
        data.push(line.to_string());
    }
    data
}

fn two_box_level() -> Vec<String> {
    let mut data = Vec::new();
    data.push("#########".to_string());
    data.push("###  ####".to_string());
    data.push("#     $ #".to_string());
    data.push("# #  #$ #".to_string());
    data.push("# . .#@ #".to_string());
    data.push("#########".to_string());
    data
}

#[test]
fn test() {
    let board = Board::new((9, 6), two_box_level()).unwrap();
    let result = resolve(&board);
    assert!(result.is_some());
}

#[test]
fn simple_test() {
    let board = Board::new((9, 6), two_box_level()).unwrap();
    resolve(&board);
}

#[test]
fn solves_the_two_box_room() {
    let board = Board::new((9, 6), two_box_level()).unwrap();
    let path = resolve(&board).unwrap();

    // the first state carries the two '$' cells
    let first = &path[0];
    for i in 0..256 {
        assert_eq!(first.boxes.get_bit(i), i == 2 * 9 + 6 || i == 3 * 9 + 6);
    }

    // the last state carries the two '.' cells exactly
    let last = &path[path.len() - 1];
    for i in 0..256 {
        assert_eq!(last.boxes.get_bit(i), i == 4 * 9 + 2 || i == 4 * 9 + 4);
    }

    // only the final state of the path has won
    for (k, p) in path.iter().enumerate() {
        assert_eq!(p.win(&board), k == path.len() - 1);
    }
}

#[test]
fn no_solution_for_a_cornered_box() {
    // the box stands against two adjacent walls and can never be pushed
    let board = Board::new((5, 4), rows(&["#####", "#$ .#", "#@  #", "#####"])).unwrap();
    assert!(resolve(&board).is_none());
}

#[test]
fn reachability_is_idempotent() {
    let board = Board::new((9, 6), two_box_level()).unwrap();
    let mut pos = board.initial_position();
    pos.expand(&board);
    let once = pos.player;
    pos.expand(&board);
    assert_eq!(pos.player, once);
}

#[test]
fn last_push_onto_last_target_wins() {
    let board = Board::new((5, 3), rows(&["#####", "#@$.#", "#####"])).unwrap();
    let mut pos = board.initial_position();
    pos.expand(&board);
    let moves = pos.moves(&board);
    assert_eq!(moves.len(), 1);
    let next = pos.move_to(&moves[0]);
    assert!(next.win(&board));
    assert!(!pos.win(&board));
}

#[test]
fn move_generation_respects_reachability_and_places() {
    let board = Board::new((5, 3), rows(&["#####", "#.$@#", "#####"])).unwrap();
    let mut pos = board.initial_position();
    pos.expand(&board);
    // the player stands right of the box and pushes it left onto the target
    let moves = pos.moves(&board);
    assert_eq!(moves.len(), 1);
    assert_eq!(moves[0].from, 7);
    assert_eq!(moves[0].to, 6);
    assert_eq!(moves[0].player, 7);
}

#[test]
fn moves_come_in_a_fixed_order() {
    // a box in an open room can be pushed all four ways; the generator
    // emits lower column, higher column, lower row, higher row
    let board = Board::new((5, 5), rows(&["#####", "#   #", "#@$ #", "#   #", "#####"])).unwrap();
    let mut pos = board.initial_position();
    pos.expand(&board);
    let moves = pos.moves(&board);
    assert_eq!(moves.len(), 4);
    assert_eq!((moves[0].from, moves[0].to), (12, 11));
    assert_eq!((moves[1].from, moves[1].to), (12, 13));
    assert_eq!((moves[2].from, moves[2].to), (12, 7));
    assert_eq!((moves[3].from, moves[3].to), (12, 17));
}

#[test]
fn search_is_deterministic() {
    let board = Board::new((9, 6), two_box_level()).unwrap();
    let mut pos = board.initial_position();
    pos.expand(&board);
    assert_eq!(pos.moves(&board), pos.moves(&board));
    assert_eq!(resolve(&board), resolve(&board));
}
