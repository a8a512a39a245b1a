use vstd::prelude::*;

verus! {

/// Where a single piece stands on its course: racing outward along the
/// opponent's edge, racing back homeward, or done with the circuit.
#[derive(Debug, Copy, Clone, Eq, PartialEq, Structural)]
pub enum Position {
    Outward(u8),
    Homeward(u8),
    Finished,
}

/// The value assigned to a game state. `Unknown` is a sentinel for states
/// that are not yet solved; `Drawn` covers states that resolve to neither
/// side's forced win (including states caught in a repetition cycle);
/// `Invalid` marks a state where both sides satisfy a terminal condition at
/// once, which signals a broken rule set rather than a playable result.
#[derive(Debug, Copy, Clone, Eq, PartialEq, Structural)]
pub enum GameResult {
    Unknown,
    RedWins,
    YellowWins,
    Drawn,
    Invalid,
}

/// The side to move.
#[derive(Debug, Copy, Clone, Eq, PartialEq, Structural)]
pub enum Turn {
    Red,
    Yellow,
}

/// Canonical identifier of a game state: the board configuration plus the
/// side to move, folded into one string. Equal states always produce equal
/// codes, and the active player can be read back from the code alone.
#[derive(Debug)]
pub struct Code(pub String);

impl View for Code {
    type V = Seq<char>;

    open spec fn view(&self) -> Seq<char> {
        self.0@
    }
}

impl Clone for Code {
    fn clone(&self) -> (r: Code)
        ensures
            r == *self,
    {
        Code(self.0.clone())
    }
}

/// The state-transition contract a game variant supplies to the engine:
/// move enumeration, canonical encoding, terminal detection, and recovery of
/// the side to move from a code.
///
/// The three ghost members `spec_state_count`, `spec_state_at` and
/// `lemma_states_cover` witness that the codes of all values of the state
/// type are drawn from a finite set; the exploration of the state graph
/// terminates because every newly discovered code comes out of that set.
pub trait Board where Self: Sized {
    /// Number of independent move choices available each turn.
    spec fn spec_size() -> usize;

    /// The state reached by move `i`, or `None` when that move is illegal.
    spec fn spec_move(self, i: int) -> Option<Self>;

    /// The canonical code of this state.
    spec fn spec_code(self) -> Seq<char>;

    /// The terminal outcome of this state, `Unknown` when it is not terminal.
    spec fn spec_result(self) -> GameResult;

    /// The rendering of this state as text.
    spec fn spec_art(self) -> Seq<char>;

    /// The side to move, as recovered from a code.
    spec fn spec_turn(code: Seq<char>) -> Turn;

    /// The codes this variant accepts as well formed; every code produced by
    /// `encode` satisfies it, and `get_turn_from_code` relies on it.
    spec fn spec_code_wf(code: Seq<char>) -> bool;

    /// An upper bound on the number of distinct states of this variant.
    spec fn spec_state_count() -> nat;

    /// An enumeration of states whose codes cover every state's code.
    spec fn spec_state_at(i: int) -> Self;

    /// Every state's code appears among the codes of the enumerated states.
    proof fn lemma_states_cover(&self)
        ensures
            exists|i: int|
                0 <= i < Self::spec_state_count()
                    && (#[trigger] Self::spec_state_at(i)).spec_code() == self.spec_code(),
    ;

    fn get_board_size() -> (r: usize)
        ensures
            r == Self::spec_size(),
    ;

    fn move_at(&self, piece_index: usize) -> (r: Option<Self>)
        requires
            piece_index < Self::spec_size(),
        ensures
            r == self.spec_move(piece_index as int),
    ;

    fn encode(&self) -> (r: Code)
        ensures
            r@ == self.spec_code(),
            Self::spec_code_wf(self.spec_code()),
    ;

    fn get_turn_from_code(code: &Code) -> (r: Turn)
        requires
            Self::spec_code_wf(code@),
        ensures
            r == Self::spec_turn(code@),
    ;

    fn get_result(&self) -> (r: GameResult)
        ensures
            r == self.spec_result(),
            r != GameResult::Drawn,
    ;

    fn draw_ascii_art(&self) -> (r: String)
        ensures
            r@ == self.spec_art(),
    ;
}

/// The set all codes of a variant's states are drawn from: the image of the
/// finite state enumeration under `spec_code`.
pub open spec fn code_universe<B: Board>() -> Set<Seq<char>> {
    vstd::set_lib::set_int_range(0, B::spec_state_count() as int).map(
        |i: int| B::spec_state_at(i).spec_code(),
    )
}

pub proof fn lemma_code_universe_finite<B: Board>()
    ensures
        code_universe::<B>().finite(),
{
    let dom = vstd::set_lib::set_int_range(0, B::spec_state_count() as int);
    vstd::set_lib::lemma_int_range(0, B::spec_state_count() as int);
    dom.lemma_map_finite(|i: int| B::spec_state_at(i).spec_code());
}

pub proof fn lemma_code_in_universe<B: Board>(b: &B)
    ensures
        code_universe::<B>().contains(b.spec_code()),
{
    b.lemma_states_cover();
    let i = choose|i: int|
        0 <= i < B::spec_state_count()
            && (#[trigger] B::spec_state_at(i)).spec_code() == b.spec_code();
    let dom = vstd::set_lib::set_int_range(0, B::spec_state_count() as int);
    assert(dom.contains(i));
    assert(code_universe::<B>().contains(B::spec_state_at(i).spec_code()));
}

impl Code {
    /// The side to move encoded in this code, read through variant `B`'s
    /// code format.
    pub fn get_turn<B>(&self) -> (r: Turn) where B: Board
        requires
            B::spec_code_wf(self@),
        ensures
            r == B::spec_turn(self@),
    {
        B::get_turn_from_code(self)
    }
}

} // verus!
