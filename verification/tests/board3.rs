use race_analyzer::board3::Board3;
use race_analyzer::commons::{Board, Position, Turn};

#[test]
fn move_r0o0() {
    let board = Board3::new(Turn::Red);

    let board = board.move_at(0).unwrap();

    assert_eq!(board.turn, Turn::Yellow);
    assert_eq!(board.red_pieces[0], Position::Outward(2));
    assert_eq!(board.red_pieces[1], Position::Outward(0));
    assert_eq!(board.red_pieces[2], Position::Outward(0));
    assert_eq!(board.yellow_pieces[0], Position::Outward(0));
    assert_eq!(board.yellow_pieces[1], Position::Outward(0));
    assert_eq!(board.yellow_pieces[2], Position::Outward(0));
}

#[test]
fn move_y0o0() {
    let board = Board3::new(Turn::Yellow);

    let board = board.move_at(0).unwrap();

    assert_eq!(board.turn, Turn::Red);
    assert_eq!(board.red_pieces[0], Position::Outward(0));
    assert_eq!(board.red_pieces[1], Position::Outward(0));
    assert_eq!(board.red_pieces[2], Position::Outward(0));
    assert_eq!(board.yellow_pieces[0], Position::Outward(1));
    assert_eq!(board.yellow_pieces[1], Position::Outward(0));
    assert_eq!(board.yellow_pieces[2], Position::Outward(0));
}

#[test]
fn move_r0o2() {
    let mut board = Board3::new(Turn::Red);

    board.red_pieces[0] = Position::Outward(2);

    let board = board.move_at(0).unwrap();

    assert_eq!(board.turn, Turn::Yellow);
    assert_eq!(board.red_pieces[0], Position::Homeward(0));
    assert_eq!(board.red_pieces[1], Position::Outward(0));
    assert_eq!(board.red_pieces[2], Position::Outward(0));
    assert_eq!(board.yellow_pieces[0], Position::Outward(0));
    assert_eq!(board.yellow_pieces[1], Position::Outward(0));
    assert_eq!(board.yellow_pieces[2], Position::Outward(0));
}

#[test]
fn move_r0o3() {
    let mut board = Board3::new(Turn::Red);

    board.red_pieces[0] = Position::Outward(3);

    let board = board.move_at(0).unwrap();

    assert_eq!(board.turn, Turn::Yellow);
    assert_eq!(board.red_pieces[0], Position::Homeward(0));
    assert_eq!(board.red_pieces[1], Position::Outward(0));
    assert_eq!(board.red_pieces[2], Position::Outward(0));
    assert_eq!(board.yellow_pieces[0], Position::Outward(0));
    assert_eq!(board.yellow_pieces[1], Position::Outward(0));
    assert_eq!(board.yellow_pieces[2], Position::Outward(0));
}

#[test]
fn move_r1o3() {
    let mut board = Board3::new(Turn::Red);

    board.red_pieces[1] = Position::Outward(3);

    let board = board.move_at(1).unwrap();

    assert_eq!(board.turn, Turn::Yellow);
    assert_eq!(board.red_pieces[0], Position::Outward(0));
    assert_eq!(board.red_pieces[1], Position::Homeward(0));
    assert_eq!(board.red_pieces[2], Position::Outward(0));
    assert_eq!(board.yellow_pieces[0], Position::Outward(0));
    assert_eq!(board.yellow_pieces[1], Position::Outward(0));
    assert_eq!(board.yellow_pieces[2], Position::Outward(0));
}

#[test]
fn move_r0o0_then_jump_y0o1() {
    let mut board = Board3::new(Turn::Red);

    board.yellow_pieces[0] = Position::Outward(1);

    let board = board.move_at(0).unwrap();

    assert_eq!(board.turn, Turn::Yellow);
    assert_eq!(board.red_pieces[0], Position::Outward(2));
    assert_eq!(board.red_pieces[1], Position::Outward(0));
    assert_eq!(board.red_pieces[2], Position::Outward(0));
    assert_eq!(board.yellow_pieces[0], Position::Outward(0));
    assert_eq!(board.yellow_pieces[1], Position::Outward(0));
    assert_eq!(board.yellow_pieces[2], Position::Outward(0));
}

#[test]
fn move_r0o0_then_jump_y1o1() {
    let mut board = Board3::new(Turn::Red);

    board.yellow_pieces[1] = Position::Outward(1);

    let board = board.move_at(0).unwrap();

    assert_eq!(board.turn, Turn::Yellow);
    assert_eq!(board.red_pieces[0], Position::Outward(3));
    assert_eq!(board.red_pieces[1], Position::Outward(0));
    assert_eq!(board.red_pieces[2], Position::Outward(0));
    assert_eq!(board.yellow_pieces[0], Position::Outward(0));
    assert_eq!(board.yellow_pieces[1], Position::Outward(0));
    assert_eq!(board.yellow_pieces[2], Position::Outward(0));
}

#[test]
fn move_r1o0_then_jump_y0o2_and_y1o2() {
    let mut board = Board3::new(Turn::Red);

    board.yellow_pieces[0] = Position::Outward(2);
    board.yellow_pieces[1] = Position::Outward(2);

    let board = board.move_at(1).unwrap();

    assert_eq!(board.turn, Turn::Yellow);
    assert_eq!(board.red_pieces[0], Position::Outward(0));
    assert_eq!(board.red_pieces[1], Position::Outward(3));
    assert_eq!(board.red_pieces[2], Position::Outward(0));
    assert_eq!(board.yellow_pieces[0], Position::Outward(0));
    assert_eq!(board.yellow_pieces[1], Position::Outward(0));
    assert_eq!(board.yellow_pieces[2], Position::Outward(0));
}

#[test]
fn move_r1o0_then_jump_y0o2_but_not_y2o2() {
    let mut board = Board3::new(Turn::Red);

    board.yellow_pieces[0] = Position::Outward(2);
    board.yellow_pieces[2] = Position::Outward(2);

    let board = board.move_at(1).unwrap();

    assert_eq!(board.turn, Turn::Yellow);
    assert_eq!(board.red_pieces[0], Position::Outward(0));
    assert_eq!(board.red_pieces[1], Position::Outward(2));
    assert_eq!(board.red_pieces[2], Position::Outward(0));
    assert_eq!(board.yellow_pieces[0], Position::Outward(0));
    assert_eq!(board.yellow_pieces[1], Position::Outward(0));
    assert_eq!(board.yellow_pieces[2], Position::Outward(2));
}

#[test]
fn move_r1o0_then_jump_y0o2_and_y1o2_and_y2o2() {
    let mut board = Board3::new(Turn::Red);

    board.yellow_pieces[0] = Position::Outward(2);
    board.yellow_pieces[1] = Position::Outward(2);
    board.yellow_pieces[2] = Position::Outward(2);

    let board = board.move_at(1).unwrap();

    assert_eq!(board.turn, Turn::Yellow);
    assert_eq!(board.red_pieces[0], Position::Outward(0));
    assert_eq!(board.red_pieces[1], Position::Homeward(0));
    assert_eq!(board.red_pieces[2], Position::Outward(0));
    assert_eq!(board.yellow_pieces[0], Position::Outward(0));
    assert_eq!(board.yellow_pieces[1], Position::Outward(0));
    assert_eq!(board.yellow_pieces[2], Position::Outward(0));
}

#[test]
fn move_r0o0_then_jump_y1h3() {
    let mut board = Board3::new(Turn::Red);

    board.yellow_pieces[1] = Position::Homeward(3);

    let board = board.move_at(0).unwrap();

    assert_eq!(board.turn, Turn::Yellow);
    assert_eq!(board.red_pieces[0], Position::Outward(3));
    assert_eq!(board.red_pieces[1], Position::Outward(0));
    assert_eq!(board.red_pieces[2], Position::Outward(0));
    assert_eq!(board.yellow_pieces[0], Position::Outward(0));
    assert_eq!(board.yellow_pieces[1], Position::Homeward(0));
    assert_eq!(board.yellow_pieces[2], Position::Outward(0));
}

#[test]
fn move_r0h0() {
    let mut board = Board3::new(Turn::Red);

    board.red_pieces[0] = Position::Homeward(0);

    let board = board.move_at(0).unwrap();

    assert_eq!(board.turn, Turn::Yellow);
    assert_eq!(board.red_pieces[0], Position::Homeward(1));
    assert_eq!(board.red_pieces[1], Position::Outward(0));
    assert_eq!(board.red_pieces[2], Position::Outward(0));
    assert_eq!(board.yellow_pieces[0], Position::Outward(0));
    assert_eq!(board.yellow_pieces[1], Position::Outward(0));
    assert_eq!(board.yellow_pieces[2], Position::Outward(0));
}

#[test]
fn move_r0h3() {
    let mut board = Board3::new(Turn::Red);

    board.red_pieces[0] = Position::Homeward(3);

    let board = board.move_at(0).unwrap();

    assert_eq!(board.turn, Turn::Yellow);
    assert_eq!(board.red_pieces[0], Position::Finished);
    assert_eq!(board.red_pieces[1], Position::Outward(0));
    assert_eq!(board.red_pieces[2], Position::Outward(0));
    assert_eq!(board.yellow_pieces[0], Position::Outward(0));
    assert_eq!(board.yellow_pieces[1], Position::Outward(0));
    assert_eq!(board.yellow_pieces[2], Position::Outward(0));
}

#[test]
fn initial_board() {
    let board = Board3::new(Turn::Red);

    assert_eq!(
        board.draw_ascii_art(),
        [
            "              .   :   .  next-> Red",
            "        +---+---+---+---+---+",
            "        |===|   |   |   |===|",
            "        +---+---+---+---+---+",
            "    . 2 | > |   |   |   |   | :",
            "        +---+---+---+---+---+",
            "    : 1 | > |   |   |   |   | .",
            "        +---+---+---+---+---+",
            "    . 0 | > |   |   |   |   | :",
            "        +---+---+---+---+---+",
            "        |===| ^ | ^ | ^ |===|",
            "        +---+---+---+---+---+",
            "Yellow /      0   1   2",
            "      / Red   :   .   :"
        ]
        .join("\n")
    );
}

#[test]
fn all_in_turning_point() {
    let mut board = Board3::new(Turn::Yellow);

    board.red_pieces[0] = Position::Homeward(0);
    board.red_pieces[1] = Position::Homeward(0);
    board.red_pieces[2] = Position::Homeward(0);
    board.yellow_pieces[0] = Position::Homeward(0);
    board.yellow_pieces[1] = Position::Homeward(0);
    board.yellow_pieces[2] = Position::Homeward(0);

    assert_eq!(
        board.draw_ascii_art(),
        [
            "              .   :   .  next-> Yellow",
            "        +---+---+---+---+---+",
            "        |===| v | v | v |===|",
            "        +---+---+---+---+---+",
            "    . 2 |   |   |   |   | < | :",
            "        +---+---+---+---+---+",
            "    : 1 |   |   |   |   | < | .",
            "        +---+---+---+---+---+",
            "    . 0 |   |   |   |   | < | :",
            "        +---+---+---+---+---+",
            "        |===|   |   |   |===|",
            "        +---+---+---+---+---+",
            "Yellow /      0   1   2",
            "      / Red   :   .   :"
        ]
        .join("\n")
    );
}

#[test]
fn all_in_finish_point() {
    let mut board = Board3::new(Turn::Red);

    board.red_pieces[0] = Position::Finished;
    board.red_pieces[1] = Position::Finished;
    board.red_pieces[2] = Position::Finished;
    board.yellow_pieces[0] = Position::Finished;
    board.yellow_pieces[1] = Position::Finished;
    board.yellow_pieces[2] = Position::Finished;

    assert_eq!(
        board.draw_ascii_art(),
        [
            "              .   :   .  next-> Red",
            "        +---+---+---+---+---+",
            "        |===|   |   |   |===|",
            "        +---+---+---+---+---+",
            "    . 2 | < |   |   |   |   | :",
            "        +---+---+---+---+---+",
            "    : 1 | < |   |   |   |   | .",
            "        +---+---+---+---+---+",
            "    . 0 | < |   |   |   |   | :",
            "        +---+---+---+---+---+",
            "        |===| v | v | v |===|",
            "        +---+---+---+---+---+",
            "Yellow /      0   1   2",
            "      / Red   :   .   :"
        ]
        .join("\n")
    );
}

#[test]
fn vortex() {
    let mut board = Board3::new(Turn::Red);

    board.red_pieces[0] = Position::Outward(2);
    board.red_pieces[1] = Position::Outward(0);
    board.red_pieces[2] = Position::Homeward(2);
    board.yellow_pieces[0] = Position::Homeward(2);
    board.yellow_pieces[1] = Position::Outward(0);
    board.yellow_pieces[2] = Position::Outward(2);

    assert_eq!(
        board.draw_ascii_art(),
        [
            "              .   :   .  next-> Red",
            "        +---+---+---+---+---+",
            "        |===|   |   |   |===|",
            "        +---+---+---+---+---+",
            "    . 2 |   |   | > |   |   | :",
            "        +---+---+---+---+---+",
            "    : 1 | > | ^ |   | v |   | .",
            "        +---+---+---+---+---+",
            "    . 0 |   |   | < |   |   | :",
            "        +---+---+---+---+---+",
            "        |===|   | ^ |   |===|",
            "        +---+---+---+---+---+",
            "Yellow /      0   1   2",
            "      / Red   :   .   :"
        ]
        .join("\n")
    );
}

#[test]
fn saw() {
    let mut board = Board3::new(Turn::Red);

    board.red_pieces[0] = Position::Homeward(1);
    board.red_pieces[1] = Position::Homeward(3);
    board.red_pieces[2] = Position::Homeward(2);
    board.yellow_pieces[0] = Position::Homeward(1);
    board.yellow_pieces[1] = Position::Homeward(3);
    board.yellow_pieces[2] = Position::Homeward(2);

    assert_eq!(
        board.draw_ascii_art(),
        [
            "              .   :   .  next-> Red",
            "        +---+---+---+---+---+",
            "        |===|   |   |   |===|",
            "        +---+---+---+---+---+",
            "    . 2 |   | v | < |   |   | :",
            "        +---+---+---+---+---+",
            "    : 1 |   | < |   | v |   | .",
            "        +---+---+---+---+---+",
            "    . 0 |   |   | v | < |   | :",
            "        +---+---+---+---+---+",
            "        |===|   |   |   |===|",
            "        +---+---+---+---+---+",
            "Yellow /      0   1   2",
            "      / Red   :   .   :"
        ]
        .join("\n")
    );
}
