use race_analyzer::analysis::{AnalysisTreeNode, Analyzer};
use race_analyzer::commons::{Code, GameResult};
use race_analyzer::tag_board::TagBoard;

fn code(s: &str) -> Code {
    Code(s.to_string())
}

fn insert(analyzer: &mut Analyzer<TagBoard>, c: &str, result: GameResult, next: &[&str]) {
    let mut next_boards = Vec::new();
    for n in next {
        next_boards.push(code(n));
    }
    analyzer.insert_node(code(c), AnalysisTreeNode { game_result: result, next_boards });
}

#[test]
fn only_1_move() {
    let mut analyzer = Analyzer::<TagBoard>::new();
    insert(&mut analyzer, "R:1", GameResult::RedWins, &[]);

    let result = analyzer.solve(&code("R:1"));

    assert_eq!(result, GameResult::RedWins)
}

#[test]
fn choose_3_moves_some_can_win() {
    let mut analyzer = Analyzer::<TagBoard>::new();
    insert(&mut analyzer, "R:i", GameResult::Unknown, &["Y:f1", "Y:f2", "Y:f3"]);
    insert(&mut analyzer, "Y:f1", GameResult::RedWins, &[]);
    insert(&mut analyzer, "Y:f2", GameResult::YellowWins, &[]);
    insert(&mut analyzer, "Y:f3", GameResult::Drawn, &[]);

    let result = analyzer.solve(&code("R:i"));

    assert_eq!(result, GameResult::RedWins)
}

#[test]
fn choose_2_moves_anyway_lose() {
    let mut analyzer = Analyzer::<TagBoard>::new();
    insert(&mut analyzer, "R:i", GameResult::Unknown, &["Y:f1", "Y:f2"]);
    insert(&mut analyzer, "Y:f1", GameResult::YellowWins, &[]);
    insert(&mut analyzer, "Y:f2", GameResult::YellowWins, &[]);

    let result = analyzer.solve(&code("R:i"));

    assert_eq!(result, GameResult::YellowWins)
}

#[test]
fn choose_2_moves_some_can_drawn() {
    let mut analyzer = Analyzer::<TagBoard>::new();
    insert(&mut analyzer, "R:i", GameResult::Unknown, &["Y:f1", "Y:f2"]);
    insert(&mut analyzer, "Y:f1", GameResult::YellowWins, &[]);
    insert(&mut analyzer, "Y:f2", GameResult::Drawn, &[]);

    let result = analyzer.solve(&code("R:i"));

    assert_eq!(result, GameResult::Drawn)
}

#[test]
fn loop_with_all_undeterminable() {
    let mut analyzer = Analyzer::<TagBoard>::new();
    insert(&mut analyzer, "Y:!", GameResult::Unknown, &["R:a"]);
    insert(&mut analyzer, "R:a", GameResult::Unknown, &["Y:b"]);
    insert(&mut analyzer, "Y:b", GameResult::Unknown, &["R:c"]);
    insert(&mut analyzer, "R:c", GameResult::Unknown, &["Y:d"]);
    insert(&mut analyzer, "Y:d", GameResult::Unknown, &["R:a"]);

    let result = analyzer.solve(&code("Y:!"));

    assert_eq!(result, GameResult::Drawn)
}

#[test]
fn loop_with_red_wins() {
    let mut analyzer = Analyzer::<TagBoard>::new();
    insert(&mut analyzer, "Y:!", GameResult::Unknown, &["R:a"]);
    insert(&mut analyzer, "R:a", GameResult::Unknown, &["Y:b"]);
    insert(&mut analyzer, "Y:b", GameResult::Unknown, &["R:c"]);
    insert(&mut analyzer, "R:c", GameResult::Unknown, &["Y:d", "Y:d'"]);
    insert(&mut analyzer, "Y:d", GameResult::Unknown, &["R:a"]);
    insert(&mut analyzer, "Y:d'", GameResult::RedWins, &[]);

    let result = analyzer.solve(&code("Y:!"));

    assert_eq!(result, GameResult::RedWins)
}

#[test]
fn loop_with_undeterminable_though_yellow_could_win() {
    let mut analyzer = Analyzer::<TagBoard>::new();
    insert(&mut analyzer, "Y:!", GameResult::Unknown, &["R:a"]);
    insert(&mut analyzer, "R:a", GameResult::Unknown, &["Y:b"]);
    insert(&mut analyzer, "Y:b", GameResult::Unknown, &["R:c"]);
    insert(&mut analyzer, "R:c", GameResult::Unknown, &["Y:d", "Y:d'"]);
    insert(&mut analyzer, "Y:d", GameResult::Unknown, &["R:a"]);
    insert(&mut analyzer, "Y:d'", GameResult::YellowWins, &[]);

    let result = analyzer.solve(&code("Y:!"));

    assert_eq!(result, GameResult::Drawn)
}

#[test]
fn loop_with_yellow_wins_because_of_outside_of_the_loop() {
    let mut analyzer = Analyzer::<TagBoard>::new();
    insert(&mut analyzer, "Y:!", GameResult::Unknown, &["R:a", "R:a'"]);
    insert(&mut analyzer, "R:a", GameResult::Unknown, &["Y:b"]);
    insert(&mut analyzer, "R:a'", GameResult::YellowWins, &[]);
    insert(&mut analyzer, "Y:b", GameResult::Unknown, &["R:c"]);
    insert(&mut analyzer, "R:c", GameResult::Unknown, &["Y:d"]);
    insert(&mut analyzer, "Y:d", GameResult::Unknown, &["R:a"]);

    let result = analyzer.solve(&code("Y:!"));

    assert_eq!(result, GameResult::YellowWins)
}

#[test]
fn single_terminal_move() {
    let mut analyzer = Analyzer::<TagBoard>::new();
    insert(&mut analyzer, "R:i", GameResult::Unknown, &["Y:f1"]);
    insert(&mut analyzer, "Y:f1", GameResult::RedWins, &[]);

    let result = analyzer.solve(&code("R:i"));

    assert_eq!(result, GameResult::RedWins)
}

#[test]
fn unexplored_code_degrades_to_unknown() {
    let mut analyzer = Analyzer::<TagBoard>::new();

    let result = analyzer.solve(&code("R:missing"));

    assert_eq!(result, GameResult::Unknown)
}

#[test]
fn terminal_invalid_is_reported_not_rejected() {
    let mut analyzer = Analyzer::<TagBoard>::new();
    insert(&mut analyzer, "R:broken", GameResult::Invalid, &[]);

    let result = analyzer.solve(&code("R:broken"));

    assert_eq!(result, GameResult::Invalid)
}

#[test]
fn dead_end_without_moves_is_a_loss() {
    let mut analyzer = Analyzer::<TagBoard>::new();
    insert(&mut analyzer, "R:stuck", GameResult::Unknown, &[]);

    let result = analyzer.solve(&code("R:stuck"));

    assert_eq!(result, GameResult::YellowWins)
}

#[test]
fn terminal_fidelity_inside_a_graph() {
    let mut analyzer = Analyzer::<TagBoard>::new();
    insert(&mut analyzer, "R:i", GameResult::Unknown, &["Y:f1", "Y:f2"]);
    insert(&mut analyzer, "Y:f1", GameResult::YellowWins, &[]);
    insert(&mut analyzer, "Y:f2", GameResult::RedWins, &[]);

    let _ = analyzer.solve(&code("R:i"));

    assert_eq!(analyzer.solve(&code("Y:f1")), GameResult::YellowWins);
    assert_eq!(analyzer.solve(&code("Y:f2")), GameResult::RedWins);
}

#[test]
fn solve_twice_returns_the_same_result() {
    let mut analyzer = Analyzer::<TagBoard>::new();
    insert(&mut analyzer, "R:i", GameResult::Unknown, &["Y:f1", "Y:f2"]);
    insert(&mut analyzer, "Y:f1", GameResult::YellowWins, &[]);
    insert(&mut analyzer, "Y:f2", GameResult::Drawn, &[]);

    let first = analyzer.solve(&code("R:i"));
    let second = analyzer.solve(&code("R:i"));

    assert_eq!(first, second)
}
