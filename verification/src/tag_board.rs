use vstd::prelude::*;

use crate::commons::{Board, Code, GameResult, Turn};

verus! {

/// A degenerate game variant with no moves of its own: its codes are opaque
/// tags whose first letter names the side to move, 'R' for red and 'Y' for
/// yellow. It exists to drive the solver over hand-built graphs, where the
/// nodes are inserted directly and only the side to move needs decoding.
#[derive(Debug, Copy, Clone)]
pub struct TagBoard;

pub open spec fn spec_tag_turn(code: Seq<char>) -> Turn {
    if code.len() > 0 && code[0] == 'R' {
        Turn::Red
    } else {
        Turn::Yellow
    }
}

pub open spec fn spec_tag_wf(code: Seq<char>) -> bool {
    code.len() > 0 && (code[0] == 'R' || code[0] == 'Y')
}

impl Board for TagBoard {
    open spec fn spec_size() -> usize {
        0
    }

    open spec fn spec_move(self, i: int) -> Option<TagBoard> {
        Option::None
    }

    open spec fn spec_code(self) -> Seq<char> {
        "R"@
    }

    open spec fn spec_result(self) -> GameResult {
        GameResult::Unknown
    }

    open spec fn spec_art(self) -> Seq<char> {
        Seq::empty()
    }

    open spec fn spec_turn(code: Seq<char>) -> Turn {
        spec_tag_turn(code)
    }

    open spec fn spec_code_wf(code: Seq<char>) -> bool {
        spec_tag_wf(code)
    }

    open spec fn spec_state_count() -> nat {
        1
    }

    open spec fn spec_state_at(i: int) -> TagBoard {
        TagBoard
    }

    proof fn lemma_states_cover(&self) {
        assert(Self::spec_state_at(0).spec_code() == self.spec_code());
    }

    fn get_board_size() -> usize {
        0
    }

    fn move_at(&self, piece_index: usize) -> Option<TagBoard> {
        Option::None
    }

    fn encode(&self) -> Code {
        proof {
            reveal_strlit("R");
        }
        Code(String::from_str("R"))
    }

    fn get_turn_from_code(code: &Code) -> Turn {
        let c = code.0.as_str().get_char(0);
        if c == 'R' {
            Turn::Red
        } else {
            Turn::Yellow
        }
    }

    fn get_result(&self) -> GameResult {
        GameResult::Unknown
    }

    fn draw_ascii_art(&self) -> String {
        String::new()
    }
}

} // verus!
