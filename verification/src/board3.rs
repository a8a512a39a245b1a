use vstd::prelude::*;

use crate::commons::{Board, Code, GameResult, Position, Turn};

verus! {

/// Number of pieces per side, which is also the length of each lane.
pub const BOARD_SIZE: usize = 3;

/// A three-piece race board: each side's pieces run outward along the
/// opponent's edge, turn, and run homeward; a piece that lands on a square
/// where an opposing piece stands crossing it jumps that piece back to the
/// start of its leg and gains an extra step.
#[derive(Debug, Copy, Clone)]
pub struct Board3 {
    pub red_pieces: [Position; BOARD_SIZE],
    pub yellow_pieces: [Position; BOARD_SIZE],
    pub turn: Turn,
}

/// Steps a piece takes per move on its outward leg.
pub open spec fn spec_speed_outward(t: Turn, i: int) -> u8 {
    if t == Turn::Red {
        if i == 1 {
            1
        } else {
            2
        }
    } else {
        if i == 1 {
            2
        } else {
            1
        }
    }
}

/// Steps a piece takes per move on its homeward leg.
pub open spec fn spec_speed_homeward(t: Turn, i: int) -> u8 {
    if t == Turn::Red {
        if i == 1 {
            2
        } else {
            1
        }
    } else {
        if i == 1 {
            1
        } else {
            2
        }
    }
}

fn speed_outward(t: Turn, i: usize) -> (r: u8)
    ensures
        r == spec_speed_outward(t, i as int),
{
    if t == Turn::Red {
        if i == 1 {
            1
        } else {
            2
        }
    } else {
        if i == 1 {
            2
        } else {
            1
        }
    }
}

fn speed_homeward(t: Turn, i: usize) -> (r: u8)
    ensures
        r == spec_speed_homeward(t, i as int),
{
    if t == Turn::Red {
        if i == 1 {
            2
        } else {
            1
        }
    } else {
        if i == 1 {
            1
        } else {
            2
        }
    }
}

/// Whether an opposing piece standing at `t` is crossing the lane of the
/// mover's piece `pi` on the square under consideration; if so, the
/// position it is jumped back to.
pub open spec fn spec_jump(t: Position, pi: int) -> Option<Position> {
    match t {
        Position::Outward(m) => if m == pi + 1 {
            Option::Some(Position::Outward(0))
        } else {
            Option::None
        },
        Position::Homeward(m) => if m == 3 - pi {
            Option::Some(Position::Homeward(0))
        } else {
            Option::None
        },
        Position::Finished => Option::None,
    }
}

fn jump_of(t: Position, pi: usize) -> (r: Option<Position>)
    requires
        pi < 3,
    ensures
        r == spec_jump(t, pi as int),
{
    let pi8: u8 = pi as u8;
    match t {
        Position::Outward(m) => if m == pi8 + 1 {
            Option::Some(Position::Outward(0))
        } else {
            Option::None
        },
        Position::Homeward(m) => if m == 3 - pi8 {
            Option::Some(Position::Homeward(0))
        } else {
            Option::None
        },
        Position::Finished => Option::None,
    }
}

/// One leg of a move: the piece walks square by square. It must take
/// `base` steps; every jump of a crossing opponent grants one extra step,
/// and once a jump has happened the walk stops at the first square without
/// one. The walk also stops past the end of the lane. Returns the number of
/// steps taken and the opponent pieces after any jumps.
pub open spec fn spec_walk(
    opp: [Position; 3],
    pi: int,
    outward: bool,
    base: int,
    n_moves: int,
    path: int,
    jumped: bool,
) -> (int, [Position; 3])
    decreases 3 - path,
{
    if !(n_moves < base || jumped) {
        (n_moves, opp)
    } else if path >= 3 {
        (n_moves + 1, opp)
    } else {
        let ti = if outward {
            path
        } else {
            2 - path
        };
        match spec_jump(opp[ti], pi) {
            Option::Some(p) => spec_walk(
                vstd::array::spec_array_update(opp, ti, p),
                pi,
                outward,
                base,
                n_moves + 1,
                path + 1,
                true,
            ),
            Option::None => {
                if jumped {
                    (n_moves + 1, opp)
                } else {
                    spec_walk(opp, pi, outward, base, n_moves + 1, path + 1, jumped)
                }
            },
        }
    }
}

/// Executable walk; see `spec_walk`.
fn walk(opp: [Position; 3], pi: usize, outward: bool, base: u8, n: u8) -> (r: (u8, [Position; 3]))
    requires
        pi < 3,
    ensures
        r.0 as int == spec_walk(opp, pi as int, outward, base as int, 0, n as int, false).0,
        r.1 == spec_walk(opp, pi as int, outward, base as int, 0, n as int, false).1,
        r.0 <= 4,
        n <= 3 ==> n as int + r.0 as int <= 4,
{
    let mut opp2 = opp;
    let mut n_moves: u8 = 0;
    let mut path: u8 = n;
    let mut jumped = false;
    while n_moves < base || jumped
        invariant_except_break
            pi < 3,
            n <= path,
            n <= 3 ==> path <= 3,
            n > 3 ==> path == n,
            n_moves as int == path as int - n as int,
            spec_walk(opp, pi as int, outward, base as int, 0, n as int, false) == spec_walk(
                opp2,
                pi as int,
                outward,
                base as int,
                n_moves as int,
                path as int,
                jumped,
            ),
        ensures
            spec_walk(opp, pi as int, outward, base as int, 0, n as int, false) == (
                n_moves as int,
                opp2,
            ),
            n_moves <= 4,
            n <= 3 ==> n as int + n_moves as int <= 4,
        decreases
                (if path <= 3 {
                    4 - path as int
                } else {
                    0
                }),
    {
        let ghost pre = (opp2, n_moves as int, path as int, jumped);
        n_moves = n_moves + 1;
        if path >= 3 {
            break ;
        }
        let ti: usize = if outward {
            path as usize
        } else {
            2 - path as usize
        };
        match jump_of(opp2[ti], pi) {
            Option::Some(p) => {
                opp2[ti] = p;
                jumped = true;
                proof {
                    assert(opp2 =~= vstd::array::spec_array_update(pre.0, ti as int, p));
                }
            },
            Option::None => {
                if jumped {
                    break ;
                }
            },
        }
        path = path + 1;
    }
    (n_moves, opp2)
}

/// The state reached by moving piece `i` of the side to move, or nothing
/// when that piece has already finished its circuit. An outward piece that
/// walks past the end of the lane turns for home; a homeward piece whose
/// plain step count passes the end finishes.
pub open spec fn spec_move3(b: Board3, i: int) -> Option<Board3> {
    let mover_red = b.turn == Turn::Red;
    let mine = if mover_red {
        b.red_pieces
    } else {
        b.yellow_pieces
    };
    let opp = if mover_red {
        b.yellow_pieces
    } else {
        b.red_pieces
    };
    let next_turn = if mover_red {
        Turn::Yellow
    } else {
        Turn::Red
    };
    match mine[i] {
        Position::Finished => Option::None,
        Position::Outward(n) => {
            let base = spec_speed_outward(b.turn, i) as int;
            let w = spec_walk(opp, i, true, base, 0, n as int, false);
            let newpos = if n as int + w.0 > 3 {
                Position::Homeward(0)
            } else {
                Position::Outward((n as int + w.0) as u8)
            };
            let mine2 = vstd::array::spec_array_update(mine, i, newpos);
            Option::Some(
                if mover_red {
                    Board3 { red_pieces: mine2, yellow_pieces: w.1, turn: next_turn }
                } else {
                    Board3 { red_pieces: w.1, yellow_pieces: mine2, turn: next_turn }
                },
            )
        },
        Position::Homeward(n) => {
            let base = spec_speed_homeward(b.turn, i) as int;
            let w = spec_walk(opp, i, false, base, 0, n as int, false);
            let newpos = if n as int + base > 3 {
                Position::Finished
            } else {
                Position::Homeward((n as int + w.0) as u8)
            };
            let mine2 = vstd::array::spec_array_update(mine, i, newpos);
            Option::Some(
                if mover_red {
                    Board3 { red_pieces: mine2, yellow_pieces: w.1, turn: next_turn }
                } else {
                    Board3 { red_pieces: w.1, yellow_pieces: mine2, turn: next_turn }
                },
            )
        },
    }
}

/// The decimal digit characters.
pub open spec fn spec_digit(d: int) -> char {
    if d == 0 {
        '0'
    } else if d == 1 {
        '1'
    } else if d == 2 {
        '2'
    } else if d == 3 {
        '3'
    } else if d == 4 {
        '4'
    } else if d == 5 {
        '5'
    } else if d == 6 {
        '6'
    } else if d == 7 {
        '7'
    } else if d == 8 {
        '8'
    } else {
        '9'
    }
}

/// The decimal rendering of a byte, without leading zeros.
pub open spec fn spec_u8_dec(n: u8) -> Seq<char> {
    if n < 10 {
        seq![spec_digit(n as int)]
    } else if n < 100 {
        seq![spec_digit(n as int / 10), spec_digit(n as int % 10)]
    } else {
        seq![
            spec_digit(n as int / 100),
            spec_digit((n as int / 10) % 10),
            spec_digit(n as int % 10),
        ]
    }
}

/// The code fragment for one piece position.
pub open spec fn spec_pos_code(p: Position) -> Seq<char> {
    match p {
        Position::Outward(n) => "o"@ + spec_u8_dec(n),
        Position::Homeward(n) => "h"@ + spec_u8_dec(n),
        Position::Finished => "f_"@,
    }
}

/// The canonical code of a board: the six piece positions and the side to
/// move.
pub open spec fn spec_code3(b: Board3) -> Seq<char> {
    "r"@ + spec_pos_code(b.red_pieces[0]) + spec_pos_code(b.red_pieces[1]) + spec_pos_code(
        b.red_pieces[2],
    ) + "y"@ + spec_pos_code(b.yellow_pieces[0]) + spec_pos_code(b.yellow_pieces[1])
        + spec_pos_code(b.yellow_pieces[2]) + "t"@ + (if b.turn == Turn::Red {
        "r"@
    } else {
        "y"@
    })
}

/// The side to move as recoverable from a code: red codes end in 'r'.
pub open spec fn spec_turn3(code: Seq<char>) -> Turn {
    if code.len() > 0 && code.last() == 'r' {
        Turn::Red
    } else {
        Turn::Yellow
    }
}

/// 1 when the piece has finished its circuit.
pub open spec fn spec_fin(p: Position) -> int {
    if p == Position::Finished {
        1
    } else {
        0
    }
}

/// How many of a side's pieces have finished.
pub open spec fn spec_fin_count(l: [Position; 3]) -> int {
    spec_fin(l[0]) + spec_fin(l[1]) + spec_fin(l[2])
}

/// A side wins as soon as all but one of its pieces have finished; both
/// sides satisfying that at once is a contradiction.
pub open spec fn spec_result3(b: Board3) -> GameResult {
    let red_done = spec_fin_count(b.red_pieces) >= 2;
    let yellow_done = spec_fin_count(b.yellow_pieces) >= 2;
    if !red_done && !yellow_done {
        GameResult::Unknown
    } else if red_done && !yellow_done {
        GameResult::RedWins
    } else if !red_done && yellow_done {
        GameResult::YellowWins
    } else {
        GameResult::Invalid
    }
}

/// The starting board: all pieces at the start of their outward leg.
pub open spec fn spec_new3(t: Turn) -> Board3 {
    Board3 {
        red_pieces: [Position::Outward(0), Position::Outward(0), Position::Outward(0)],
        yellow_pieces: [Position::Outward(0), Position::Outward(0), Position::Outward(0)],
        turn: t,
    }
}

fn digit_str(d: u8) -> (r: &'static str)
    requires
        d < 10,
    ensures
        r@ == seq![spec_digit(d as int)],
{
    let r: &'static str = match d {
        0 => "0",
        1 => "1",
        2 => "2",
        3 => "3",
        4 => "4",
        5 => "5",
        6 => "6",
        7 => "7",
        8 => "8",
        _ => "9",
    };
    proof {
        reveal_strlit("0");
        reveal_strlit("1");
        reveal_strlit("2");
        reveal_strlit("3");
        reveal_strlit("4");
        reveal_strlit("5");
        reveal_strlit("6");
        reveal_strlit("7");
        reveal_strlit("8");
        reveal_strlit("9");
        assert(r@ =~= seq![spec_digit(d as int)]);
    }
    r
}

/// Appends the decimal rendering of `n`.
fn push_u8_dec(s: &mut String, n: u8)
    ensures
        final(s)@ == old(s)@ + spec_u8_dec(n),
{
    if n < 10 {
        s.append(digit_str(n));
    } else if n < 100 {
        s.append(digit_str(n / 10));
        s.append(digit_str(n % 10));
        proof {
            assert(s@ =~= old(s)@ + spec_u8_dec(n));
        }
    } else {
        s.append(digit_str(n / 100));
        s.append(digit_str((n / 10) % 10));
        s.append(digit_str(n % 10));
        proof {
            assert(s@ =~= old(s)@ + spec_u8_dec(n));
        }
    }
}

/// Appends the code fragment of one position.
fn push_pos(s: &mut String, p: Position)
    ensures
        final(s)@ == old(s)@ + spec_pos_code(p),
{
    match p {
        Position::Outward(n) => {
            s.append("o");
            push_u8_dec(s, n);
            proof {
                assert(s@ =~= old(s)@ + spec_pos_code(p));
            }
        },
        Position::Homeward(n) => {
            s.append("h");
            push_u8_dec(s, n);
            proof {
                assert(s@ =~= old(s)@ + spec_pos_code(p));
            }
        },
        Position::Finished => {
            s.append("f_");
        },
    }
}

fn finished_count(l: &[Position; 3]) -> (r: u8)
    ensures
        r as int == spec_fin_count(*l),
{
    let mut c: u8 = 0;
    if let Position::Finished = l[0] {
        c = c + 1;
    }
    if let Position::Finished = l[1] {
        c = c + 1;
    }
    if let Position::Finished = l[2] {
        c = c + 1;
    }
    c
}

/// Top edge cell for a red piece's lane: marks a red piece waiting at the
/// turning point.
pub open spec fn spec_top_cell(p: Position) -> Seq<char> {
    if p == Position::Homeward(0) {
        " v "@
    } else {
        "   "@
    }
}

/// Left edge cell for a yellow piece's lane: marks a yellow piece at its
/// start, or done.
pub open spec fn spec_yellow_edge_cell(p: Position) -> Seq<char> {
    match p {
        Position::Outward(n) => if n == 0 {
            " > "@
        } else {
            "   "@
        },
        Position::Finished => " < "@,
        Position::Homeward(_) => "   "@,
    }
}

/// Bottom edge cell for a red piece's lane: marks a red piece at its start,
/// or done.
pub open spec fn spec_red_edge_cell(p: Position) -> Seq<char> {
    match p {
        Position::Outward(n) => if n == 0 {
            " ^ "@
        } else {
            "   "@
        },
        Position::Finished => " v "@,
        Position::Homeward(_) => "   "@,
    }
}

/// Right edge cell for a yellow piece's lane: marks a yellow piece waiting
/// at the turning point.
pub open spec fn spec_goal_cell(p: Position) -> Seq<char> {
    if p == Position::Homeward(0) {
        " < "@
    } else {
        "   "@
    }
}

/// One interior square, crossed by red lane `ri` (vertical) and yellow lane
/// `yi` (horizontal); a red piece on the square takes precedence in the
/// drawing.
pub open spec fn spec_square(rp: Position, yp: Position, yi: int, ri: int) -> Seq<char> {
    match rp {
        Position::Outward(n) => if n == yi + 1 {
            " ^ "@
        } else {
            spec_square_yellow(yp, ri)
        },
        Position::Homeward(n) => if n == 3 - yi {
            " v "@
        } else {
            spec_square_yellow(yp, ri)
        },
        Position::Finished => spec_square_yellow(yp, ri),
    }
}

pub open spec fn spec_square_yellow(yp: Position, ri: int) -> Seq<char> {
    match yp {
        Position::Outward(n) => if n == ri + 1 {
            " > "@
        } else {
            "   "@
        },
        Position::Homeward(n) => if n == 3 - ri {
            " < "@
        } else {
            "   "@
        },
        Position::Finished => "   "@,
    }
}

/// One playing row of the picture: yellow lane `y` from its start cell
/// across the three interior squares to its goal cell.
pub open spec fn spec_lane_row(b: Board3, y: int) -> Seq<char> {
    spec_yellow_edge_cell(b.yellow_pieces[y]) + "|"@ + spec_square(
        b.red_pieces[0],
        b.yellow_pieces[y],
        y,
        0,
    ) + "|"@ + spec_square(b.red_pieces[1], b.yellow_pieces[y], y, 1) + "|"@ + spec_square(
        b.red_pieces[2],
        b.yellow_pieces[y],
        y,
        2,
    ) + "|"@ + spec_goal_cell(b.yellow_pieces[y])
}

/// The whole picture, line by line.
pub open spec fn spec_art3(b: Board3) -> Seq<char> {
    "              .   :   .  next-> "@ + (if b.turn == Turn::Red {
        "Red"@
    } else {
        "Yellow"@
    }) + "\n        +---+---+---+---+---+\n        |===|"@ + spec_top_cell(b.red_pieces[0]) + "|"@
        + spec_top_cell(b.red_pieces[1]) + "|"@ + spec_top_cell(b.red_pieces[2])
        + "|===|\n        +---+---+---+---+---+\n    . 2 |"@ + spec_lane_row(b, 2)
        + "| :\n        +---+---+---+---+---+\n    : 1 |"@ + spec_lane_row(b, 1)
        + "| .\n        +---+---+---+---+---+\n    . 0 |"@ + spec_lane_row(b, 0)
        + "| :\n        +---+---+---+---+---+\n        |===|"@ + spec_red_edge_cell(
        b.red_pieces[0],
    ) + "|"@ + spec_red_edge_cell(b.red_pieces[1]) + "|"@ + spec_red_edge_cell(b.red_pieces[2])
        + "|===|\n        +---+---+---+---+---+\nYellow /      0   1   2\n      / Red   :   .   :"@
}

fn top_cell(p: Position) -> (r: &'static str)
    ensures
        r@ == spec_top_cell(p),
{
    if p == Position::Homeward(0) {
        " v "
    } else {
        "   "
    }
}

fn yellow_edge_cell(p: Position) -> (r: &'static str)
    ensures
        r@ == spec_yellow_edge_cell(p),
{
    match p {
        Position::Outward(n) => if n == 0 {
            " > "
        } else {
            "   "
        },
        Position::Finished => " < ",
        Position::Homeward(_) => "   ",
    }
}

fn red_edge_cell(p: Position) -> (r: &'static str)
    ensures
        r@ == spec_red_edge_cell(p),
{
    match p {
        Position::Outward(n) => if n == 0 {
            " ^ "
        } else {
            "   "
        },
        Position::Finished => " v ",
        Position::Homeward(_) => "   ",
    }
}

fn goal_cell(p: Position) -> (r: &'static str)
    ensures
        r@ == spec_goal_cell(p),
{
    if p == Position::Homeward(0) {
        " < "
    } else {
        "   "
    }
}

fn square(rp: Position, yp: Position, yi: usize, ri: usize) -> (r: &'static str)
    requires
        yi < 3,
        ri < 3,
    ensures
        r@ == spec_square(rp, yp, yi as int, ri as int),
{
    let yi8: u8 = yi as u8;
    let ri8: u8 = ri as u8;
    match rp {
        Position::Outward(n) => if n == yi8 + 1 {
            return " ^ ";
        },
        Position::Homeward(n) => if n == 3 - yi8 {
            return " v ";
        },
        Position::Finished => {},
    }
    match yp {
        Position::Outward(n) => if n == ri8 + 1 {
            " > "
        } else {
            "   "
        },
        Position::Homeward(n) => if n == 3 - ri8 {
            " < "
        } else {
            "   "
        },
        Position::Finished => "   ",
    }
}

/// Appends one playing row.
fn push_lane_row(s: &mut String, b: &Board3, y: usize)
    requires
        y < 3,
    ensures
        final(s)@ == old(s)@ + spec_lane_row(*b, y as int),
{
    s.append(yellow_edge_cell(b.yellow_pieces[y]));
    s.append("|");
    s.append(square(b.red_pieces[0], b.yellow_pieces[y], y, 0));
    s.append("|");
    s.append(square(b.red_pieces[1], b.yellow_pieces[y], y, 1));
    s.append("|");
    s.append(square(b.red_pieces[2], b.yellow_pieces[y], y, 2));
    s.append("|");
    s.append(goal_cell(b.yellow_pieces[y]));
    proof {
        assert(s@ =~= old(s)@ + spec_lane_row(*b, y as int));
    }
}

/// Positions are indexed for the finite enumeration of boards: the two open
/// legs carry a byte each, and `Finished` closes the range.
pub open spec fn pos_index(p: Position) -> int {
    match p {
        Position::Outward(n) => n as int,
        Position::Homeward(n) => 256 + n as int,
        Position::Finished => 512,
    }
}

pub open spec fn pos_of_index(i: int) -> Position {
    if i < 256 {
        Position::Outward(i as u8)
    } else if i < 512 {
        Position::Homeward((i - 256) as u8)
    } else {
        Position::Finished
    }
}

pub open spec fn turn_bit(t: Turn) -> int {
    if t == Turn::Red {
        0
    } else {
        1
    }
}

/// The rank of a board in the enumeration of all boards.
pub open spec fn board_index(b: Board3) -> int {
    pos_index(b.red_pieces[0]) + 513 * (pos_index(b.red_pieces[1]) + 513 * (pos_index(
        b.red_pieces[2],
    ) + 513 * (pos_index(b.yellow_pieces[0]) + 513 * (pos_index(b.yellow_pieces[1]) + 513 * (
    pos_index(b.yellow_pieces[2]) + 513 * turn_bit(b.turn))))))
}

pub open spec fn spec_state_count3() -> nat {
    (513 * 513 * 513 * 513 * 513 * 513 * 2) as nat
}

/// The board of a given rank.
pub open spec fn spec_state_at3(i: int) -> Board3 {
    let p0 = pos_of_index(i % 513);
    let i1 = i / 513;
    let p1 = pos_of_index(i1 % 513);
    let i2 = i1 / 513;
    let p2 = pos_of_index(i2 % 513);
    let i3 = i2 / 513;
    let q0 = pos_of_index(i3 % 513);
    let i4 = i3 / 513;
    let q1 = pos_of_index(i4 % 513);
    let i5 = i4 / 513;
    let q2 = pos_of_index(i5 % 513);
    let i6 = i5 / 513;
    Board3 {
        red_pieces: [p0, p1, p2],
        yellow_pieces: [q0, q1, q2],
        turn: if i6 == 1 {
            Turn::Yellow
        } else {
            Turn::Red
        },
    }
}

proof fn lemma_pos_index(p: Position)
    ensures
        0 <= pos_index(p) < 513,
        pos_of_index(pos_index(p)) == p,
{
}

/// Every board sits at its own rank: decoding `board_index(b)` gives `b`
/// back, and the rank is below the state count.
proof fn lemma_board_index_roundtrip(b: Board3)
    ensures
        0 <= board_index(b) < spec_state_count3(),
        spec_state_at3(board_index(b)) == b,
{
    let p0 = pos_index(b.red_pieces[0]);
    let p1 = pos_index(b.red_pieces[1]);
    let p2 = pos_index(b.red_pieces[2]);
    let q0 = pos_index(b.yellow_pieces[0]);
    let q1 = pos_index(b.yellow_pieces[1]);
    let q2 = pos_index(b.yellow_pieces[2]);
    let t = turn_bit(b.turn);
    lemma_pos_index(b.red_pieces[0]);
    lemma_pos_index(b.red_pieces[1]);
    lemma_pos_index(b.red_pieces[2]);
    lemma_pos_index(b.yellow_pieces[0]);
    lemma_pos_index(b.yellow_pieces[1]);
    lemma_pos_index(b.yellow_pieces[2]);
    let a5 = q2 + 513 * t;
    let a4 = q1 + 513 * a5;
    let a3 = q0 + 513 * a4;
    let a2 = p2 + 513 * a3;
    let a1 = p1 + 513 * a2;
    let i = p0 + 513 * a1;
    assert(i == board_index(b));
    vstd::arithmetic::div_mod::lemma_fundamental_div_mod_converse(i, 513, a1, p0);
    vstd::arithmetic::div_mod::lemma_fundamental_div_mod_converse(a1, 513, a2, p1);
    vstd::arithmetic::div_mod::lemma_fundamental_div_mod_converse(a2, 513, a3, p2);
    vstd::arithmetic::div_mod::lemma_fundamental_div_mod_converse(a3, 513, a4, q0);
    vstd::arithmetic::div_mod::lemma_fundamental_div_mod_converse(a4, 513, a5, q1);
    vstd::arithmetic::div_mod::lemma_fundamental_div_mod_converse(a5, 513, t, q2);
    let d = spec_state_at3(i);
    assert(d.red_pieces =~= b.red_pieces);
    assert(d.yellow_pieces =~= b.yellow_pieces);
}

impl Board for Board3 {
    open spec fn spec_size() -> usize {
        3
    }

    open spec fn spec_move(self, i: int) -> Option<Board3> {
        spec_move3(self, i)
    }

    open spec fn spec_code(self) -> Seq<char> {
        spec_code3(self)
    }

    open spec fn spec_result(self) -> GameResult {
        spec_result3(self)
    }

    open spec fn spec_art(self) -> Seq<char> {
        spec_art3(self)
    }

    open spec fn spec_turn(code: Seq<char>) -> Turn {
        spec_turn3(code)
    }

    open spec fn spec_code_wf(code: Seq<char>) -> bool {
        true
    }

    open spec fn spec_state_count() -> nat {
        spec_state_count3()
    }

    open spec fn spec_state_at(i: int) -> Board3 {
        spec_state_at3(i)
    }

    proof fn lemma_states_cover(&self) {
        lemma_board_index_roundtrip(*self);
        assert(0 <= board_index(*self) < Self::spec_state_count() && Self::spec_state_at(
            board_index(*self),
        ).spec_code() == self.spec_code());
    }

    fn get_board_size() -> usize {
        3
    }

    fn move_at(&self, piece_index: usize) -> Option<Board3> {
        let mover_red = self.turn == Turn::Red;
        let mine: [Position; 3] = if mover_red {
            self.red_pieces
        } else {
            self.yellow_pieces
        };
        let opp: [Position; 3] = if mover_red {
            self.yellow_pieces
        } else {
            self.red_pieces
        };
        let next_turn = if mover_red {
            Turn::Yellow
        } else {
            Turn::Red
        };
        match mine[piece_index] {
            Position::Finished => Option::None,
            Position::Outward(n) => {
                let base = speed_outward(self.turn, piece_index);
                let w = walk(opp, piece_index, true, base, n);
                let n_moves = w.0;
                let opp2 = w.1;
                let newpos = if (n as u16) + (n_moves as u16) > 3 {
                    Position::Homeward(0)
                } else {
                    Position::Outward(n + n_moves)
                };
                let mut mine2 = mine;
                mine2[piece_index] = newpos;
                proof {
                    assert(mine2 =~= vstd::array::spec_array_update(
                        mine,
                        piece_index as int,
                        newpos,
                    ));
                }
                if mover_red {
                    Option::Some(Board3 { red_pieces: mine2, yellow_pieces: opp2, turn: next_turn })
                } else {
                    Option::Some(Board3 { red_pieces: opp2, yellow_pieces: mine2, turn: next_turn })
                }
            },
            Position::Homeward(n) => {
                let base = speed_homeward(self.turn, piece_index);
                let w = walk(opp, piece_index, false, base, n);
                let n_moves = w.0;
                let opp2 = w.1;
                let newpos = if (n as u16) + (base as u16) > 3 {
                    Position::Finished
                } else {
                    Position::Homeward(n + n_moves)
                };
                let mut mine2 = mine;
                mine2[piece_index] = newpos;
                proof {
                    assert(mine2 =~= vstd::array::spec_array_update(
                        mine,
                        piece_index as int,
                        newpos,
                    ));
                }
                if mover_red {
                    Option::Some(Board3 { red_pieces: mine2, yellow_pieces: opp2, turn: next_turn })
                } else {
                    Option::Some(Board3 { red_pieces: opp2, yellow_pieces: mine2, turn: next_turn })
                }
            },
        }
    }

    fn encode(&self) -> Code {
        let mut s = String::new();
        s.append("r");
        push_pos(&mut s, self.red_pieces[0]);
        push_pos(&mut s, self.red_pieces[1]);
        push_pos(&mut s, self.red_pieces[2]);
        s.append("y");
        push_pos(&mut s, self.yellow_pieces[0]);
        push_pos(&mut s, self.yellow_pieces[1]);
        push_pos(&mut s, self.yellow_pieces[2]);
        s.append("t");
        if self.turn == Turn::Red {
            s.append("r");
        } else {
            s.append("y");
        }
        proof {
            assert(s@ =~= spec_code3(*self));
        }
        Code(s)
    }

    fn get_turn_from_code(code: &Code) -> Turn {
        let s = code.0.as_str();
        let len = s.unicode_len();
        if len > 0 {
            let c = s.get_char(len - 1);
            if c == 'r' {
                Turn::Red
            } else {
                Turn::Yellow
            }
        } else {
            Turn::Yellow
        }
    }

    fn get_result(&self) -> GameResult {
        let red_done = finished_count(&self.red_pieces) >= 2;
        let yellow_done = finished_count(&self.yellow_pieces) >= 2;
        if red_done {
            if yellow_done {
                GameResult::Invalid
            } else {
                GameResult::RedWins
            }
        } else {
            if yellow_done {
                GameResult::YellowWins
            } else {
                GameResult::Unknown
            }
        }
    }

    fn draw_ascii_art(&self) -> String {
        let mut s = String::new();
        s.append("              .   :   .  next-> ");
        if self.turn == Turn::Red {
            s.append("Red");
        } else {
            s.append("Yellow");
        }
        s.append("\n        +---+---+---+---+---+\n        |===|");
        s.append(top_cell(self.red_pieces[0]));
        s.append("|");
        s.append(top_cell(self.red_pieces[1]));
        s.append("|");
        s.append(top_cell(self.red_pieces[2]));
        s.append("|===|\n        +---+---+---+---+---+\n    . 2 |");
        push_lane_row(&mut s, self, 2);
        s.append("| :\n        +---+---+---+---+---+\n    : 1 |");
        push_lane_row(&mut s, self, 1);
        s.append("| .\n        +---+---+---+---+---+\n    . 0 |");
        push_lane_row(&mut s, self, 0);
        s.append("| :\n        +---+---+---+---+---+\n        |===|");
        s.append(red_edge_cell(self.red_pieces[0]));
        s.append("|");
        s.append(red_edge_cell(self.red_pieces[1]));
        s.append("|");
        s.append(red_edge_cell(self.red_pieces[2]));
        s.append(
            "|===|\n        +---+---+---+---+---+\nYellow /      0   1   2\n      / Red   :   .   :",
        );
        proof {
            assert(s@ =~= spec_art3(*self));
        }
        s
    }
}

impl Board3 {
    pub fn new(the_first_move: Turn) -> (r: Board3)
        ensures
            r == spec_new3(the_first_move),
    {
        Board3 {
            red_pieces: [Position::Outward(0), Position::Outward(0), Position::Outward(0)],
            yellow_pieces: [Position::Outward(0), Position::Outward(0), Position::Outward(0)],
            turn: the_first_move,
        }
    }
}

} // verus!
