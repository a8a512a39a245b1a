use race_analyzer::analysis::{AnalysisTreeNode, Analyzer};
use race_analyzer::board3::Board3;
use race_analyzer::commons::{Board, Code, GameResult, Position, Turn};
use race_analyzer::search::Searcher;
use race_analyzer::tag_board::TagBoard;

fn code(s: &str) -> Code {
    Code(s.to_string())
}

fn insert(analyzer: &mut Analyzer<TagBoard>, c: &str, result: GameResult, next: &[&str]) {
    let mut next_boards = Vec::new();
    for n in next {
        next_boards.push(code(n));
    }
    analyzer.insert_node(code(c), AnalysisTreeNode { game_result: result, next_boards });
}

/// A board one red move away from red's win: two red pieces are done, the
/// third sits one step from the finish, and yellow cannot interfere.
fn red_endgame() -> Board3 {
    let mut board = Board3::new(Turn::Red);
    board.red_pieces[0] = Position::Finished;
    board.red_pieces[1] = Position::Finished;
    board.red_pieces[2] = Position::Homeward(3);
    board.yellow_pieces[0] = Position::Finished;
    board.yellow_pieces[1] = Position::Homeward(3);
    board.yellow_pieces[2] = Position::Homeward(3);
    board
}

#[test]
fn analyze_endgame_red_wins() {
    let mut analyzer = Analyzer::<Board3>::new();
    let board = red_endgame();

    assert_eq!(analyzer.analyze(&board), GameResult::RedWins);
}

#[test]
fn analyze_returns_the_same_outcome_again() {
    let mut analyzer = Analyzer::<Board3>::new();
    let board = red_endgame();

    let first = analyzer.analyze(&board);
    let second = analyzer.analyze(&board);

    assert_eq!(first, second);
}

#[test]
fn analyze_endgame_no_escape() {
    // Yellow has already finished every piece, so red's only move leads to a
    // state that is terminal for both sides at once, reported as Invalid;
    // with no winning or drawn continuation the mover loses.
    let mut analyzer = Analyzer::<Board3>::new();
    let mut board = Board3::new(Turn::Red);
    board.red_pieces[0] = Position::Finished;
    board.red_pieces[1] = Position::Finished;
    board.red_pieces[2] = Position::Homeward(3);
    board.yellow_pieces[0] = Position::Finished;
    board.yellow_pieces[1] = Position::Finished;
    board.yellow_pieces[2] = Position::Finished;

    assert_eq!(analyzer.analyze(&board), GameResult::YellowWins);
}

#[test]
fn analyze_dead_end_board_is_a_loss_for_the_mover() {
    let mut analyzer = Analyzer::<TagBoard>::new();

    assert_eq!(analyzer.analyze(&TagBoard), GameResult::YellowWins);
    assert_eq!(analyzer.analyze(&TagBoard), GameResult::YellowWins);
}

#[test]
fn encode_initial_board() {
    let board = Board3::new(Turn::Red);
    assert_eq!(board.encode().0, "ro0o0o0yo0o0o0tr");

    let board = Board3::new(Turn::Yellow);
    assert_eq!(board.encode().0, "ro0o0o0yo0o0o0ty");
}

#[test]
fn encode_mixed_positions() {
    let mut board = Board3::new(Turn::Yellow);
    board.red_pieces[0] = Position::Homeward(2);
    board.red_pieces[1] = Position::Finished;
    board.yellow_pieces[2] = Position::Outward(3);

    assert_eq!(board.encode().0, "rh2f_o0yo0o0o3ty");
}

#[test]
fn turn_recovered_from_code() {
    let board = Board3::new(Turn::Red);
    assert_eq!(board.encode().get_turn::<Board3>(), Turn::Red);

    let board = Board3::new(Turn::Yellow);
    assert_eq!(board.encode().get_turn::<Board3>(), Turn::Yellow);

    assert_eq!(code("R:x").get_turn::<TagBoard>(), Turn::Red);
    assert_eq!(code("Y:x").get_turn::<TagBoard>(), Turn::Yellow);
}

#[test]
fn result_names() {
    assert_eq!(GameResult::Unknown.get_string(), "unknown");
    assert_eq!(GameResult::RedWins.get_string(), "red");
    assert_eq!(GameResult::YellowWins.get_string(), "yellow");
    assert_eq!(GameResult::Drawn.get_string(), "undeterminable");
    assert_eq!(GameResult::Invalid.get_string(), "invalid");
}

#[test]
fn emit_nodes_and_links_lists_the_graph() {
    let mut analyzer = Analyzer::<TagBoard>::new();
    insert(&mut analyzer, "R:i", GameResult::Unknown, &["Y:f1"]);
    insert(&mut analyzer, "Y:f1", GameResult::RedWins, &[]);
    let _ = analyzer.solve(&code("R:i"));

    let (nodes, links) = analyzer.emit_nodes_and_links();

    assert_eq!(nodes.len(), 2);
    assert_eq!(nodes[0].0, "R:i");
    assert_eq!(nodes[0].1, "red");
    assert_eq!(nodes[1].0, "Y:f1");
    assert_eq!(nodes[1].1, "red");
    assert_eq!(links.len(), 1);
    assert_eq!(links[0].0, "R:i");
    assert_eq!(links[0].1, "Y:f1");
}

#[test]
fn dump_lists_outcomes_and_successors() {
    let mut analyzer = Analyzer::<TagBoard>::new();
    insert(&mut analyzer, "R:i", GameResult::Unknown, &["Y:f1"]);
    insert(&mut analyzer, "Y:f1", GameResult::YellowWins, &[]);
    let _ = analyzer.solve(&code("R:i"));

    let triples = analyzer.dump();

    assert_eq!(triples.len(), 2);
    assert_eq!(triples[0].0 .0, "R:i");
    assert_eq!(triples[0].1, GameResult::YellowWins);
    assert_eq!(triples[0].2.len(), 1);
    assert_eq!(triples[0].2[0].0, "Y:f1");
    assert_eq!(triples[1].0 .0, "Y:f1");
    assert_eq!(triples[1].1, GameResult::YellowWins);
    assert_eq!(triples[1].2.len(), 0);
}

#[test]
fn searcher_records_successors_and_predecessors() {
    let board = red_endgame();
    let root_code = board.encode();
    let child = board.move_at(2).unwrap();
    let child_code = child.encode();

    let mut searcher = Searcher::new();
    searcher.search(board);

    let root_rel = searcher.relation_of(&root_code).unwrap();
    assert_eq!(root_rel.game_result, GameResult::Unknown);
    assert_eq!(root_rel.next_boards.len(), 1);
    assert_eq!(root_rel.next_boards[0].0, child_code.0);
    assert_eq!(root_rel.previous_boards.len(), 0);

    let child_rel = searcher.relation_of(&child_code).unwrap();
    assert_eq!(child_rel.game_result, GameResult::RedWins);
    assert_eq!(child_rel.next_boards.len(), 0);
    assert_eq!(child_rel.previous_boards.len(), 1);
    assert_eq!(child_rel.previous_boards[0].0, root_code.0);
}
