use vstd::prelude::*;

use core::marker::PhantomData;
use crate::code_map::CodeMap;
use crate::commons::{Board, Code, GameResult, Turn};
use crate::commons::{code_universe, lemma_code_in_universe, lemma_code_universe_finite};

verus! {

/// Per-state record in the graph store: the cached outcome and the codes of
/// the states reachable from here by exactly one legal move.
#[derive(Debug)]
pub struct AnalysisTreeNode {
    pub game_result: GameResult,
    pub next_boards: Vec<Code>,
}

/// The views of a sequence of codes.
pub open spec fn views_of(s: Seq<Code>) -> Seq<Seq<char>> {
    s.map_values(|c: Code| c@)
}

/// The winning value for the side to move.
pub open spec fn win_of(t: Turn) -> GameResult {
    if t == Turn::Red {
        GameResult::RedWins
    } else {
        GameResult::YellowWins
    }
}

/// The losing value for the side to move.
pub open spec fn lose_of(t: Turn) -> GameResult {
    if t == Turn::Red {
        GameResult::YellowWins
    } else {
        GameResult::RedWins
    }
}

/// The backward-induction decision rule, three valued with mover-to-move
/// semantics: one winning continuation suffices to win; otherwise one drawn
/// continuation suffices to hold the draw; otherwise every continuation
/// favors the opponent and the mover loses.
pub open spec fn decide(t: Turn, rs: Seq<GameResult>) -> GameResult {
    if exists|i: int| 0 <= i < rs.len() && rs[i] == win_of(t) {
        win_of(t)
    } else if exists|i: int| 0 <= i < rs.len() && rs[i] == GameResult::Drawn {
        GameResult::Drawn
    } else {
        lose_of(t)
    }
}

/// The outcomes a store assigns to a sequence of successor codes; a code
/// absent from the store counts as `Unknown`.
pub open spec fn child_results(
    m: Map<Seq<char>, AnalysisTreeNode>,
    succs: Seq<Seq<char>>,
) -> Seq<GameResult> {
    Seq::new(
        succs.len(),
        |i: int|
            if m.contains_key(succs[i]) {
                m[succs[i]].game_result
            } else {
                GameResult::Unknown
            },
    )
}

/// The successor-code views a store records under key `k`.
pub open spec fn succ_views(m: Map<Seq<char>, AnalysisTreeNode>, k: Seq<char>) -> Seq<Seq<char>> {
    views_of(m[k].next_boards@)
}

/// Outcomes recorded in `m1` agree with `m0` on every key of `m0`.
pub open spec fn results_unchanged(
    m0: Map<Seq<char>, AnalysisTreeNode>,
    m1: Map<Seq<char>, AnalysisTreeNode>,
) -> bool {
    forall|x: Seq<char>| #[trigger]
        m0.contains_key(x) ==> m1[x].game_result == m0[x].game_result
}

/// Outcomes recorded in `m1` agree with `m0` on every key of `m0` but `k`.
pub open spec fn results_unchanged_except(
    m0: Map<Seq<char>, AnalysisTreeNode>,
    m1: Map<Seq<char>, AnalysisTreeNode>,
    k: Seq<char>,
) -> bool {
    forall|x: Seq<char>| #[trigger]
        m0.contains_key(x) && x != k ==> m1[x].game_result == m0[x].game_result
}

/// How one `solve` call may move the store from `m0` to `m1` and the
/// in-progress set from `c0` to `c1`, whatever code it was asked about:
/// the key set and every successor list stay fixed; the in-progress set only
/// grows, and only by store keys; an outcome once distinct from `Unknown` is
/// never changed; outcomes of states never entered into the in-progress set
/// are untouched; every state newly entered is resolved by the time the call
/// returns; and a state already in progress with an unresolved outcome can
/// only stay unresolved or be marked `Drawn` provisionally.
pub open spec fn solve_frame(
    m0: Map<Seq<char>, AnalysisTreeNode>,
    c0: Set<Seq<char>>,
    m1: Map<Seq<char>, AnalysisTreeNode>,
    c1: Set<Seq<char>>,
) -> bool {
    &&& m1.dom() == m0.dom()
    &&& forall|x: Seq<char>| #[trigger]
        m0.contains_key(x) ==> succ_views(m1, x) == succ_views(m0, x)
    &&& c0.subset_of(c1)
    &&& c1.subset_of(c0 + m0.dom())
    &&& forall|x: Seq<char>| #[trigger]
        m0.contains_key(x) && m0[x].game_result != GameResult::Unknown ==> m1[x].game_result
            == m0[x].game_result
    &&& forall|x: Seq<char>| #[trigger]
        m0.contains_key(x) && !c1.contains(x) ==> m1[x].game_result == m0[x].game_result
    &&& forall|x: Seq<char>| #[trigger]
        c1.contains(x) && !c0.contains(x) ==> m0.contains_key(x) && m1[x].game_result
            != GameResult::Unknown
    &&& forall|x: Seq<char>| #[trigger]
        m0.contains_key(x) && c0.contains(x) && m0[x].game_result == GameResult::Unknown
            ==> m1[x].game_result == GameResult::Unknown || m1[x].game_result == GameResult::Drawn
}

/// What one `solve` call on code `k` returns, by case: an unexplored code
/// reports `Unknown` and changes nothing; a cached outcome is returned with
/// nothing changed; a code already in progress is marked and reported
/// `Drawn`; and an unresolved code not yet in progress is assigned the
/// decision rule's verdict over the outcomes its successors hold in the
/// store the call leaves behind. In the store left behind, `k`'s recorded
/// outcome is the returned value.
pub open spec fn solve_result<B: Board>(
    m0: Map<Seq<char>, AnalysisTreeNode>,
    c0: Set<Seq<char>>,
    m1: Map<Seq<char>, AnalysisTreeNode>,
    c1: Set<Seq<char>>,
    k: Seq<char>,
    r: GameResult,
) -> bool {
    &&& !m0.contains_key(k) ==> r == GameResult::Unknown && c1 == c0 && results_unchanged(m0, m1)
    &&& m0.contains_key(k) ==> r != GameResult::Unknown && m1[k].game_result == r
    &&& m0.contains_key(k) && m0[k].game_result != GameResult::Unknown ==> r == m0[k].game_result
        && c1 == c0 && results_unchanged(m0, m1)
    &&& m0.contains_key(k) && m0[k].game_result == GameResult::Unknown && c0.contains(k) ==> r
        == GameResult::Drawn && c1 == c0 && results_unchanged_except(m0, m1, k)
    &&& m0.contains_key(k) && m0[k].game_result == GameResult::Unknown && !c0.contains(k) ==> r
        == decide(B::spec_turn(k), child_results(m1, succ_views(m0, k))) && c1.contains(k)
}

/// The node coded `x` satisfies the backward-induction equation in store
/// `m`: its outcome is the decision rule applied to the outcomes its
/// successors hold in `m`, and every successor present in `m` is resolved.
pub open spec fn node_decided<B: Board>(m: Map<Seq<char>, AnalysisTreeNode>, x: Seq<char>) -> bool {
    &&& m[x].game_result == decide(B::spec_turn(x), child_results(m, succ_views(m, x)))
    &&& forall|j: int|
        0 <= j < succ_views(m, x).len() && m.contains_key(#[trigger] succ_views(m, x)[j])
            ==> m[succ_views(m, x)[j]].game_result != GameResult::Unknown
}

/// Every state a `solve` call freshly resolves to something other than
/// `Drawn` satisfies the backward-induction equation in the store the call
/// leaves behind. States reported `Drawn` carry no such guarantee: a cycle
/// cut mid-recursion keeps its provisional draw even where a longer path,
/// met later in the same traversal, would have forced a win or loss — the
/// single-pass approximation this engine makes.
pub open spec fn solve_decides<B: Board>(
    c0: Set<Seq<char>>,
    m1: Map<Seq<char>, AnalysisTreeNode>,
    c1: Set<Seq<char>>,
) -> bool {
    forall|x: Seq<char>| #[trigger]
        c1.contains(x) && !c0.contains(x) && m1[x].game_result != GameResult::Drawn
            ==> node_decided::<B>(m1, x)
}

/// Replacing the `Drawn` entries of an outcome sequence by one fixed value
/// cannot change a decision that was not itself `Drawn`: a winning witness
/// is never a `Drawn` entry, and a losing verdict means no entry was
/// `Drawn` at all.
proof fn lemma_decide_upgrade(t: Turn, rs1: Seq<GameResult>, rs2: Seq<GameResult>, v: GameResult)
    requires
        rs1.len() == rs2.len(),
        forall|j: int|
            0 <= j < rs1.len() ==> rs2[j] == rs1[j] || (rs1[j] == GameResult::Drawn && rs2[j]
                == v),
        decide(t, rs1) != GameResult::Drawn,
    ensures
        decide(t, rs2) == decide(t, rs1),
{
    if exists|i: int| 0 <= i < rs1.len() && rs1[i] == win_of(t) {
        let i = choose|i: int| 0 <= i < rs1.len() && rs1[i] == win_of(t);
        assert(win_of(t) != GameResult::Drawn);
        assert(rs2[i] == win_of(t));
        lemma_win_propagation(t, rs2, i);
    } else {
        assert(forall|j: int| 0 <= j < rs1.len() ==> rs1[j] != GameResult::Drawn);
        assert(rs2 =~= rs1);
    }
}

/// The successor codes produced by trying moves `0..n` from `b` in order,
/// skipping illegal moves.
pub open spec fn spec_succs_upto<B: Board>(b: B, n: int) -> Seq<Seq<char>>
    decreases n,
{
    if n <= 0 {
        Seq::empty()
    } else {
        spec_succs_upto(b, n - 1) + (match b.spec_move(n - 1) {
            Option::Some(c) => seq![c.spec_code()],
            Option::None => Seq::empty(),
        })
    }
}

/// The successor codes of state `b`: one for each legal move, in move order.
pub open spec fn spec_succs<B: Board>(b: B) -> Seq<Seq<char>> {
    spec_succs_upto(b, B::spec_size() as int)
}

/// A fully explored node: the recorded outcome is the state's terminal
/// outcome, and the recorded successors are the codes of its legal moves —
/// empty for a terminal state, which exploration treats as a leaf.
pub open spec fn node_for<B: Board>(b: B, node: AnalysisTreeNode) -> bool {
    &&& node.game_result == b.spec_result()
    &&& b.spec_result() == GameResult::Unknown ==> views_of(node.next_boards@) == spec_succs(b)
    &&& b.spec_result() != GameResult::Unknown ==> node.next_boards@.len() == 0
}

/// Some state of the variant carries code `k` and is fully explored in
/// `node`.
pub open spec fn node_complete<B: Board>(k: Seq<char>, node: AnalysisTreeNode) -> bool {
    exists|b: B| b.spec_code() == k && node_for(b, node)
}

/// Every successor recorded under `k` is itself a key of `m`: no dangling
/// references.
pub open spec fn node_closed(m: Map<Seq<char>, AnalysisTreeNode>, k: Seq<char>) -> bool {
    forall|j: int|
        0 <= j < m[k].next_boards@.len() ==> m.contains_key(#[trigger] m[k].next_boards@[j]@)
}

/// The effect of exploring one discovered state whose code is `k`: if the
/// code was already stored, everything reachable from it has been handled
/// before and the store is untouched; otherwise the store grows by fully
/// explored, closed nodes, among them `k` itself, and no earlier entry
/// changes.
pub open spec fn explore_effect<B: Board>(
    m0: Map<Seq<char>, AnalysisTreeNode>,
    m1: Map<Seq<char>, AnalysisTreeNode>,
    k: Seq<char>,
) -> bool {
    &&& m1.contains_key(k)
    &&& m0.contains_key(k) ==> m1 == m0
    &&& !m0.contains_key(k) ==> {
        &&& m0.dom().subset_of(m1.dom())
        &&& forall|x: Seq<char>| #[trigger] m0.contains_key(x) ==> m1[x] == m0[x]
        &&& forall|x: Seq<char>| #[trigger]
            m1.contains_key(x) && !m0.contains_key(x) ==> node_complete::<B>(x, m1[x])
                && node_closed(m1, x)
    }
}

/// The effect of exploring from root state `b`: the root's node is rebuilt
/// with an unresolved outcome and the full list of its legal successors,
/// every other state discovered on the way gets a fully explored, closed
/// node, and entries already present stay as they were.
pub open spec fn explore_root<B: Board>(
    m0: Map<Seq<char>, AnalysisTreeNode>,
    m1: Map<Seq<char>, AnalysisTreeNode>,
    b: B,
) -> bool {
    let k = b.spec_code();
    &&& m1.contains_key(k)
    &&& m1[k].game_result == GameResult::Unknown
    &&& succ_views(m1, k) == spec_succs(b)
    &&& node_closed(m1, k)
    &&& m0.dom().subset_of(m1.dom())
    &&& forall|x: Seq<char>| #[trigger] m0.contains_key(x) && x != k ==> m1[x] == m0[x]
    &&& forall|x: Seq<char>| #[trigger]
        m1.contains_key(x) && !m0.contains_key(x) && x != k ==> node_complete::<B>(x, m1[x])
            && node_closed(m1, x)
}

/// The set of code views held in a sequence of codes.
pub open spec fn codes_set(s: Seq<Code>) -> Set<Seq<char>>
    decreases s.len(),
{
    if s.len() == 0 {
        Set::empty()
    } else {
        codes_set(s.drop_last()).insert(s.last()@)
    }
}

proof fn lemma_codes_set_contains(s: Seq<Code>, k: Seq<char>)
    ensures
        codes_set(s).contains(k) <==> exists|i: int| 0 <= i < s.len() && s[i]@ == k,
    decreases s.len(),
{
    if s.len() > 0 {
        lemma_codes_set_contains(s.drop_last(), k);
        if s.last()@ == k {
            assert(s[s.len() - 1]@ == k);
        } else {
            if codes_set(s).contains(k) {
                let i = choose|i: int| 0 <= i < s.drop_last().len() && s.drop_last()[i]@ == k;
                assert(s[i]@ == k);
            }
            if exists|i: int| 0 <= i < s.len() && s[i]@ == k {
                let i = choose|i: int| 0 <= i < s.len() && s[i]@ == k;
                assert(i < s.len() - 1);
                assert(s.drop_last()[i]@ == k);
            }
        }
    }
}

proof fn lemma_codes_set_push(s: Seq<Code>, c: Code)
    ensures
        codes_set(s.push(c)) == codes_set(s).insert(c@),
{
    assert(s.push(c).drop_last() =~= s);
    assert(s.push(c).last() == c);
}

/// Copies a vector of codes; the copy denotes the same code views.
pub(crate) fn clone_codes(v: &Vec<Code>) -> (r: Vec<Code>)
    ensures
        r@ == v@,
        views_of(r@) == views_of(v@),
{
    let mut r: Vec<Code> = Vec::new();
    let n = v.len();
    let mut i: usize = 0;
    while i < n
        invariant
            n == v@.len(),
            i <= n,
            r@.len() == i,
            forall|j: int| 0 <= j < i ==> r@[j] == v@[j],
        decreases n - i,
    {
        r.push(v[i].clone());
        i = i + 1;
    }
    proof {
        assert(r@ =~= v@);
    }
    r
}

/// The analysis engine: explores the reachable state graph of a game variant
/// and solves every reachable state by memoized, cycle-aware backward
/// induction. The graph store persists across calls, so repeated analyses
/// reuse already solved states.
pub struct Analyzer<B: Board> {
    map: CodeMap<AnalysisTreeNode>,
    checked_set: Vec<Code>,
    _marker: PhantomData<B>,
}

impl<B: Board> Analyzer<B> {
    /// The graph store: code view to node.
    pub closed spec fn store(&self) -> Map<Seq<char>, AnalysisTreeNode> {
        self.map@
    }

    /// The graph store as an ordered sequence of entries.
    pub closed spec fn store_seq(&self) -> Seq<(Code, AnalysisTreeNode)> {
        self.map.seq_view()
    }

    /// The codes that have entered recursive evaluation.
    pub closed spec fn checked(&self) -> Set<Seq<char>> {
        codes_set(self.checked_set@)
    }

    /// Well-formedness: the store's keys are pairwise distinct and every
    /// stored key is a well-formed code of the variant.
    pub closed spec fn wf(&self) -> bool {
        &&& self.map.wf()
        &&& forall|k: Seq<char>| self.store().contains_key(k) ==> B::spec_code_wf(k)
    }

    pub proof fn lemma_store_dom_finite(&self)
        ensures
            self.store().dom().finite(),
    {
        self.map.lemma_dom_finite();
    }

    pub fn new() -> (r: Analyzer<B>)
        ensures
            r.wf(),
            r.store() == Map::<Seq<char>, AnalysisTreeNode>::empty(),
            r.checked() == Set::<Seq<char>>::empty(),
    {
        Analyzer { map: CodeMap::new(), checked_set: Vec::new(), _marker: PhantomData }
    }

    /// Place a node in the graph store under `code`, overwriting any node
    /// already there. This is how a caller hands the solver a ready-made
    /// graph instead of exploring one.
    pub fn insert_node(&mut self, code: Code, node: AnalysisTreeNode)
        requires
            old(self).wf(),
            B::spec_code_wf(code@),
        ensures
            final(self).wf(),
            final(self).store() == old(self).store().insert(code@, node),
            final(self).checked() == old(self).checked(),
    {
        self.map.insert(code, node);
    }

    /// Whether `k` is in the in-progress set.
    #[verifier::loop_isolation(false)]
    fn checked_has(&self, k: &Code) -> (r: bool)
        ensures
            r == self.checked().contains(k@),
    {
        proof {
            lemma_codes_set_contains(self.checked_set@, k@);
        }
        let n = self.checked_set.len();
        let mut i: usize = 0;
        while i < n
            invariant
                n == self.checked_set@.len(),
                i <= n,
                forall|j: int| 0 <= j < i ==> self.checked_set@[j]@ != k@,
            decreases n - i,
        {
            if self.checked_set[i].0 == k.0 {
                proof {
                    assert(self.checked_set@[i as int]@ == k@);
                }
                return true;
            }
            i = i + 1;
        }
        false
    }

    /// Memoized, cycle-aware backward induction for one code.
    ///
    /// An unexplored code degrades to `Unknown`; a cached non-`Unknown`
    /// outcome is returned untouched; a code met again while it is still
    /// being resolved marks a cycle and reports `Drawn`; otherwise the
    /// successors are solved recursively and the decision rule `decide`
    /// applied to their outcomes, as the final ensures clause states against
    /// the store this call leaves behind.
    #[verifier::loop_isolation(false)]
    #[verifier::rlimit(60)]
    pub fn solve(&mut self, board_code: &Code) -> (r: GameResult)
        requires
            old(self).wf(),
        ensures
            final(self).wf(),
            solve_frame(
                old(self).store(),
                old(self).checked(),
                final(self).store(),
                final(self).checked(),
            ),
            solve_result::<B>(
                old(self).store(),
                old(self).checked(),
                final(self).store(),
                final(self).checked(),
                board_code@,
                r,
            ),
            solve_decides::<B>(old(self).checked(), final(self).store(), final(self).checked()),
        decreases (old(self).store().dom().difference(old(self).checked())).len(),
    {
        let ghost m0 = self.store();
        let ghost c0 = self.checked();
        let ghost kv = board_code@;

        let node_result: GameResult;
        match self.map.get(board_code) {
            None => {
                return GameResult::Unknown;
            },
            Some(node) => {
                node_result = node.game_result;
            },
        }
        if node_result != GameResult::Unknown {
            return node_result;
        }
        if self.checked_has(board_code) {
            // A cycle: this code is still being resolved further up the call
            // stack; report the repetition as a draw.
            let succs = clone_codes(&self.map.get(board_code).unwrap().next_boards);
            self.map.insert(
                board_code.clone(),
                (AnalysisTreeNode { game_result: GameResult::Drawn, next_boards: succs }),
            );
            proof {
                assert(self.store().dom() =~= m0.dom());
                assert forall|x: Seq<char>| m0.contains_key(x) implies succ_views(
                    self.store(),
                    x,
                ) == succ_views(m0, x) by {
                    if x == kv {
                        assert(succ_views(self.store(), x) =~= succ_views(m0, x));
                    }
                }
            }
            return GameResult::Drawn;
        }
        let ghost cs_before = self.checked_set@;
        self.checked_set.push(board_code.clone());
        proof {
            lemma_codes_set_push(cs_before, self.checked_set@.last());
            assert(self.checked() == c0.insert(kv));
        }
        let next = clone_codes(&self.map.get(board_code).unwrap().next_boards);
        let mut results: Vec<GameResult> = Vec::new();
        let n = next.len();
        let mut idx: usize = 0;
        while idx < n
            invariant
                self.wf(),
                idx <= n,
                results@.len() == idx,
                self.store().dom() == m0.dom(),
                forall|x: Seq<char>| #[trigger]
                    m0.contains_key(x) ==> succ_views(self.store(), x) == succ_views(m0, x),
                c0.insert(kv).subset_of(self.checked()),
                self.checked().subset_of(c0 + m0.dom()),
                forall|x: Seq<char>| #[trigger]
                    m0.contains_key(x) && m0[x].game_result != GameResult::Unknown
                        ==> self.store()[x].game_result == m0[x].game_result,
                forall|x: Seq<char>| #[trigger]
                    m0.contains_key(x) && !self.checked().contains(x)
                        ==> self.store()[x].game_result == m0[x].game_result,
                forall|x: Seq<char>|
                    self.checked().contains(x) && !c0.contains(x) && x != kv ==> m0.contains_key(x)
                        && #[trigger] self.store()[x].game_result != GameResult::Unknown,
                forall|x: Seq<char>| #[trigger]
                    m0.contains_key(x) && c0.contains(x) && m0[x].game_result
                        == GameResult::Unknown ==> self.store()[x].game_result
                        == GameResult::Unknown || self.store()[x].game_result == GameResult::Drawn,
                self.store()[kv].game_result == GameResult::Unknown
                    || self.store()[kv].game_result == GameResult::Drawn,
                forall|j: int|
                    0 <= j < idx ==> #[trigger] results@[j] == (if m0.contains_key(next@[j]@) {
                        self.store()[next@[j]@].game_result
                    } else {
                        GameResult::Unknown
                    }),
                forall|j: int|
                    0 <= j < idx && m0.contains_key(next@[j]@) ==> #[trigger] results@[j]
                        != GameResult::Unknown,
                forall|x: Seq<char>| #[trigger]
                    self.checked().contains(x) && !c0.contains(x) && x != kv
                        && self.store()[x].game_result != GameResult::Drawn
                        ==> node_decided::<B>(self.store(), x),
            decreases n - idx,
        {
            let ghost m_pre_l = self.store();
            let ghost c_pre_l = self.checked();
            proof {
                self.lemma_store_dom_finite();
                vstd::set_lib::lemma_len_subset(
                    self.store().dom().difference(self.checked()),
                    self.store().dom(),
                );
                self.store().dom().difference(self.checked()).lemma_subset_not_in_lt(
                    m0.dom().difference(c0),
                    kv,
                );
            }
            let child_r = self.solve(&next[idx]);
            proof {
                // States resolved before this child call keep their
                // backward-induction equation: their successors were already
                // resolved, so the child call left every one of them alone.
                assert forall|x: Seq<char>|
                    self.checked().contains(x) && !c0.contains(x) && x != kv
                        && self.store()[x].game_result != GameResult::Drawn implies
                    node_decided::<B>(self.store(), x) by {
                    if c_pre_l.contains(x) {
                        assert(m_pre_l.contains_key(x));
                        assert(m_pre_l[x].game_result != GameResult::Unknown);
                        assert(self.store()[x].game_result == m_pre_l[x].game_result);
                        assert(node_decided::<B>(m_pre_l, x));
                        let sv = succ_views(m_pre_l, x);
                        assert(succ_views(self.store(), x) == sv);
                        assert forall|j: int| 0 <= j < sv.len() implies child_results(
                            self.store(),
                            sv,
                        )[j] == child_results(m_pre_l, sv)[j] by {
                            if m_pre_l.contains_key(sv[j]) {
                                assert(m_pre_l[sv[j]].game_result != GameResult::Unknown);
                            }
                        }
                        assert(child_results(self.store(), sv) =~= child_results(m_pre_l, sv));
                    }
                }
            }
            results.push(child_r);
            idx = idx + 1;
        }
        let current_turn = board_code.get_turn::<B>();
        let win_turn: GameResult;
        let win_opposite: GameResult;
        if current_turn == Turn::Red {
            win_turn = GameResult::RedWins;
            win_opposite = GameResult::YellowWins;
        } else {
            win_turn = GameResult::YellowWins;
            win_opposite = GameResult::RedWins;
        }
        let mut has_win = false;
        let mut has_drawn = false;
        let mut j: usize = 0;
        while j < n
            invariant
                j <= n,
                has_win == exists|t: int| 0 <= t < j && results@[t] == win_turn,
                has_drawn == exists|t: int| 0 <= t < j && results@[t] == GameResult::Drawn,
            decreases n - j,
        {
            let x = results[j];
            if x == win_turn {
                has_win = true;
                proof {
                    assert(results@[j as int] == win_turn);
                }
            } else if x == GameResult::Drawn {
                has_drawn = true;
                proof {
                    assert(results@[j as int] == GameResult::Drawn);
                }
            }
            j = j + 1;
        }
        let result = if has_win {
            win_turn
        } else if has_drawn {
            GameResult::Drawn
        } else {
            win_opposite
        };
        let ghost m_pre = self.store();
        self.map.insert(
            board_code.clone(),
            (AnalysisTreeNode { game_result: result, next_boards: next }),
        );
        proof {
            let m1 = self.store();
            let sv = succ_views(m0, kv);
            assert(m1.dom() =~= m0.dom());
            assert forall|x: Seq<char>| m0.contains_key(x) implies succ_views(m1, x) == succ_views(
                m0,
                x,
            ) by {
                if x == kv {
                    assert(succ_views(m1, kv) =~= succ_views(m0, kv));
                }
            }
            // The decision the loop computed matches `decide` over the
            // outcomes the final store assigns to the successors.
            let crs = child_results(m1, sv);
            assert(sv.len() == next@.len());
            assert forall|t: int| 0 <= t < crs.len() implies crs[t] == (if sv[t] == kv {
                result
            } else {
                results@[t]
            }) by {
                assert(sv[t] == next@[t]@);
                if sv[t] != kv {
                    assert(m1[sv[t]].game_result == m_pre[sv[t]].game_result || !m0.contains_key(
                        sv[t],
                    ));
                }
            }
            assert(result == decide(B::spec_turn(kv), crs)) by {
                let turn = B::spec_turn(kv);
                assert(win_turn == win_of(turn));
                assert(win_opposite == lose_of(turn));
                if has_win {
                    let t = choose|t: int| 0 <= t < n && results@[t] == win_turn;
                    assert(sv[t] != kv);
                    assert(crs[t] == win_of(turn));
                } else if has_drawn {
                    let t = choose|t: int| 0 <= t < n && results@[t] == GameResult::Drawn;
                    assert(crs[t] == GameResult::Drawn);
                    assert(forall|t2: int| 0 <= t2 < crs.len() ==> #[trigger] crs[t2] != win_of(turn));
                } else {
                    assert forall|t2: int| 0 <= t2 < crs.len() implies #[trigger] crs[t2] != win_of(
                        turn,
                    ) && crs[t2] != GameResult::Drawn by {
                        assert(sv[t2] != kv);
                    }
                }
            }
            // The backward-induction equation holds of every state this call
            // resolved to something other than `Drawn`: for the asked code
            // it is the decision just computed, and for the rest the final
            // write only upgraded this code's provisional draw, which their
            // own equations tolerate.
            assert forall|x: Seq<char>|
                self.checked().contains(x) && !c0.contains(x) && m1[x].game_result
                    != GameResult::Drawn implies node_decided::<B>(m1, x) by {
                if x == kv {
                    assert(succ_views(m1, kv) == sv);
                    assert forall|j: int|
                        0 <= j < sv.len() && m1.contains_key(sv[j]) implies m1[sv[j]].game_result
                            != GameResult::Unknown by {
                        if sv[j] != kv {
                            assert(m1[sv[j]].game_result == m_pre[sv[j]].game_result);
                            assert(m_pre[sv[j]].game_result == results@[j]);
                        }
                    }
                } else {
                    assert(m_pre.contains_key(x));
                    assert(m_pre[x].game_result == m1[x].game_result);
                    assert(node_decided::<B>(m_pre, x));
                    let svx = succ_views(m_pre, x);
                    assert(succ_views(m1, x) == svx);
                    assert forall|j: int|
                        0 <= j < svx.len() && m1.contains_key(svx[j]) implies
                        m1[svx[j]].game_result != GameResult::Unknown by {
                        if svx[j] != kv {
                            assert(m1[svx[j]].game_result == m_pre[svx[j]].game_result);
                            assert(m_pre[svx[j]].game_result != GameResult::Unknown);
                        }
                    }
                    let crs_pre = child_results(m_pre, svx);
                    let crs_post = child_results(m1, svx);
                    assert forall|j: int| 0 <= j < crs_pre.len() implies crs_post[j] == crs_pre[j]
                        || (crs_pre[j] == GameResult::Drawn && crs_post[j] == result) by {
                        if svx[j] == kv {
                            assert(m_pre[kv].game_result != GameResult::Unknown);
                            assert(m_pre[kv].game_result == GameResult::Drawn);
                            assert(crs_pre[j] == GameResult::Drawn);
                            assert(crs_post[j] == result);
                        }
                    }
                    lemma_decide_upgrade(B::spec_turn(x), crs_pre, crs_post, result);
                }
            }
        }
        result
    }

    /// Depth-first discovery of one move's target. If the move is illegal
    /// nothing happens; if it reaches a known code the code is only
    /// reported; otherwise the target is stored first — which is what cuts
    /// off shared sub-trees and cycles — and, unless it is terminal, its own
    /// moves are explored recursively before its successor list is written.
    #[verifier::loop_isolation(false)]
    fn _search(&mut self, current_board: &B, piece_index: usize) -> (r: Option<Code>)
        requires
            old(self).wf(),
            piece_index < B::spec_size(),
        ensures
            final(self).wf(),
            final(self).checked() == old(self).checked(),
            current_board.spec_move(piece_index as int) matches Option::None ==> r is None
                && final(self).store() == old(self).store(),
            current_board.spec_move(piece_index as int) matches Option::Some(b) ==> (
            r matches Option::Some(c) && c@ == b.spec_code()) && explore_effect::<B>(
                old(self).store(),
                final(self).store(),
                b.spec_code(),
            ),
        decreases (code_universe::<B>().difference(old(self).store().dom())).len(),
    {
        let next = current_board.move_at(piece_index);
        match next {
            Option::None => Option::None,
            Option::Some(board) => {
                let ghost m0 = self.store();
                let ghost k = board.spec_code();
                let code = board.encode();
                let result = board.get_result();
                if self.map.contains(&code) {
                    return Option::Some(code);
                }
                self.map.insert(
                    code.clone(),
                    (AnalysisTreeNode { game_result: result, next_boards: Vec::new() }),
                );
                if result != GameResult::Unknown {
                    proof {
                        assert(node_for::<B>(board, self.store()[k]));
                        assert forall|x: Seq<char>|
                            self.store().contains_key(x) && !m0.contains_key(x) implies
                            node_complete::<B>(x, self.store()[x]) && node_closed(
                            self.store(),
                            x,
                        ) by {
                            assert(x == k);
                        }
                    }
                    return Option::Some(code);
                }
                let mut codes: Vec<Code> = Vec::new();
                let size = B::get_board_size();
                let mut i: usize = 0;
                while i < size
                    invariant
                        self.wf(),
                        i <= size,
                        self.checked() == old(self).checked(),
                        self.store().contains_key(k),
                        self.store()[k].game_result == GameResult::Unknown,
                        self.store()[k].next_boards@.len() == 0,
                        m0.dom().subset_of(self.store().dom()),
                        !m0.contains_key(k),
                        forall|x: Seq<char>| #[trigger]
                            m0.contains_key(x) ==> self.store()[x] == m0[x],
                        forall|x: Seq<char>| #[trigger]
                            self.store().contains_key(x) && !m0.contains_key(x) && x != k
                                ==> node_complete::<B>(x, self.store()[x]) && node_closed(
                                self.store(),
                                x,
                            ),
                        views_of(codes@) == spec_succs_upto(board, i as int),
                        forall|j: int|
                            0 <= j < codes@.len() ==> self.store().contains_key(
                                #[trigger] codes@[j]@,
                            ),
                    decreases size - i,
                {
                    let ghost m_pre = self.store();
                    proof {
                        lemma_code_universe_finite::<B>();
                        vstd::set_lib::lemma_len_subset(
                            code_universe::<B>().difference(m0.dom()),
                            code_universe::<B>(),
                        );
                        lemma_code_in_universe::<B>(&board);
                        code_universe::<B>().difference(self.store().dom()).lemma_subset_not_in_lt(
                            code_universe::<B>().difference(m0.dom()),
                            k,
                        );
                    }
                    let child = self._search(&board, i);
                    proof {
                        assert forall|x: Seq<char>|
                            self.store().contains_key(x) && !m0.contains_key(x) && x != k implies
                            node_complete::<B>(x, self.store()[x]) && node_closed(
                            self.store(),
                            x,
                        ) by {
                            if m_pre.contains_key(x) {
                                assert(self.store()[x] == m_pre[x]);
                                assert(node_complete::<B>(x, m_pre[x]));
                                assert(node_closed(m_pre, x));
                                assert forall|j: int|
                                    0 <= j < self.store()[x].next_boards@.len() implies
                                    self.store().contains_key(
                                    #[trigger] self.store()[x].next_boards@[j]@,
                                ) by {
                                    assert(m_pre.contains_key(m_pre[x].next_boards@[j]@));
                                }
                            }
                        }
                    }
                    match child {
                        Option::Some(c) => {
                            codes.push(c);
                        },
                        Option::None => {},
                    }
                    proof {
                        assert(views_of(codes@) =~= spec_succs_upto(board, i as int + 1));
                    }
                    i = i + 1;
                }
                let ghost m_end = self.store();
                self.map.insert(
                    code.clone(),
                    (AnalysisTreeNode { game_result: GameResult::Unknown, next_boards: codes }),
                );
                proof {
                    assert(self.store().dom() =~= m_end.dom());
                    assert(views_of(self.store()[k].next_boards@) == spec_succs(board));
                    assert(node_for::<B>(board, self.store()[k]));
                    assert forall|x: Seq<char>|
                        self.store().contains_key(x) && !m0.contains_key(x) implies
                        node_complete::<B>(x, self.store()[x]) && node_closed(
                        self.store(),
                        x,
                    ) by {
                        if x != k {
                            assert(self.store()[x] == m_end[x]);
                            assert(node_closed(m_end, x));
                            assert forall|j: int|
                                0 <= j < self.store()[x].next_boards@.len() implies
                                self.store().contains_key(
                                #[trigger] self.store()[x].next_boards@[j]@,
                            ) by {
                                assert(m_end.contains_key(m_end[x].next_boards@[j]@));
                            }
                        }
                    }
                }
                Option::Some(code)
            },
        }
    }

    /// Depth-first exploration from a root state: the root gets a node with
    /// an unresolved outcome, every state reachable from it gets a fully
    /// explored node, and each node's successor list records the codes of
    /// its legal moves.
    #[verifier::loop_isolation(false)]
    fn search(&mut self, current_board: &B)
        requires
            old(self).wf(),
        ensures
            final(self).wf(),
            final(self).checked() == old(self).checked(),
            explore_root::<B>(old(self).store(), final(self).store(), *current_board),
    {
        let ghost m0 = self.store();
        let ghost k = current_board.spec_code();
        let code = current_board.encode();
        self.map.insert(
            code.clone(),
            (AnalysisTreeNode { game_result: GameResult::Unknown, next_boards: Vec::new() }),
        );
        let ghost m_start = self.store();
        let mut codes: Vec<Code> = Vec::new();
        let size = B::get_board_size();
        let mut i: usize = 0;
        while i < size
            invariant
                self.wf(),
                i <= size,
                self.checked() == old(self).checked(),
                self.store().contains_key(k),
                m_start.dom().subset_of(self.store().dom()),
                m_start.dom() == m0.dom().insert(k),
                forall|x: Seq<char>| #[trigger]
                    m_start.contains_key(x) ==> self.store()[x] == m_start[x],
                forall|x: Seq<char>| #[trigger]
                    m0.contains_key(x) && x != k ==> m_start.contains_key(x) && m_start[x] == m0[x],
                forall|x: Seq<char>| #[trigger]
                    self.store().contains_key(x) && !m_start.contains_key(x)
                        ==> node_complete::<B>(x, self.store()[x]) && node_closed(
                        self.store(),
                        x,
                    ),
                views_of(codes@) == spec_succs_upto(*current_board, i as int),
                forall|j: int|
                    0 <= j < codes@.len() ==> self.store().contains_key(#[trigger] codes@[j]@),
            decreases size - i,
        {
            let ghost m_pre = self.store();
            let child = self._search(current_board, i);
            proof {
                assert forall|x: Seq<char>|
                    self.store().contains_key(x) && !m_start.contains_key(x) implies
                    node_complete::<B>(x, self.store()[x]) && node_closed(self.store(), x) by {
                    if m_pre.contains_key(x) {
                        assert(self.store()[x] == m_pre[x]);
                        assert(node_closed(m_pre, x));
                        assert forall|j: int|
                            0 <= j < self.store()[x].next_boards@.len() implies
                            self.store().contains_key(
                            #[trigger] self.store()[x].next_boards@[j]@,
                        ) by {
                            assert(m_pre.contains_key(m_pre[x].next_boards@[j]@));
                        }
                    }
                }
            }
            match child {
                Option::Some(c) => {
                    codes.push(c);
                },
                Option::None => {},
            }
            proof {
                assert(views_of(codes@) =~= spec_succs_upto(*current_board, i as int + 1));
            }
            i = i + 1;
        }
        let ghost m_end = self.store();
        self.map.insert(
            code,
            (AnalysisTreeNode { game_result: GameResult::Unknown, next_boards: codes }),
        );
        proof {
            assert(self.store().dom() =~= m_end.dom());
            assert(views_of(self.store()[k].next_boards@) == spec_succs(*current_board));
            assert forall|x: Seq<char>|
                self.store().contains_key(x) && !m0.contains_key(x) && x != k implies
                node_complete::<B>(x, self.store()[x]) && node_closed(self.store(), x) by {
                assert(self.store()[x] == m_end[x]);
                assert(node_closed(m_end, x));
                assert forall|j: int|
                    0 <= j < self.store()[x].next_boards@.len() implies self.store().contains_key(
                    #[trigger] self.store()[x].next_boards@[j]@,
                ) by {
                    assert(m_end.contains_key(m_end[x].next_boards@[j]@));
                }
            }
        }
    }

    /// Explore the state graph from `board`, then solve its code, returning
    /// the state's outcome. A root whose code is already fully solved in the
    /// store is answered from the cache, without exploring again; this is
    /// what makes one analyzer reusable across several roots of the same
    /// variant.
    pub fn analyze(&mut self, board: &B) -> (r: GameResult)
        requires
            old(self).wf(),
        ensures
            final(self).wf(),
            r != GameResult::Unknown,
            final(self).store().contains_key(board.spec_code()),
            final(self).store()[board.spec_code()].game_result == r,
            old(self).store().contains_key(board.spec_code()) && old(
                self,
            ).store()[board.spec_code()].game_result != GameResult::Unknown ==> r == old(
                self,
            ).store()[board.spec_code()].game_result && final(self).store() == old(self).store()
                && final(self).checked() == old(self).checked(),
            (!old(self).store().contains_key(board.spec_code()) || old(
                self,
            ).store()[board.spec_code()].game_result == GameResult::Unknown) && !old(
                self,
            ).checked().contains(board.spec_code()) ==> succ_views(
                final(self).store(),
                board.spec_code(),
            ) == spec_succs(*board) && r == decide(
                B::spec_turn(board.spec_code()),
                child_results(final(self).store(), spec_succs(*board)),
            ),
            solve_decides::<B>(old(self).checked(), final(self).store(), final(self).checked()),
            forall|x: Seq<char>| #[trigger]
                final(self).checked().contains(x) && !old(self).checked().contains(x)
                    ==> final(self).store().contains_key(x)
                    && final(self).store()[x].game_result != GameResult::Unknown,
            forall|x: Seq<char>| #[trigger]
                old(self).store().contains_key(x) && old(self).store()[x].game_result
                    != GameResult::Unknown ==> final(self).store().contains_key(x)
                    && final(self).store()[x].game_result == old(self).store()[x].game_result,
    {
        let first_board_code = board.encode();
        let mut cached = GameResult::Unknown;
        match self.map.get(&first_board_code) {
            Option::Some(node) => {
                cached = node.game_result;
            },
            Option::None => {},
        }
        if cached != GameResult::Unknown {
            return cached;
        }
        self.search(board);
        self.solve(&first_board_code)
    }

    /// The store as flat text: one (code, outcome name) pair per node, and
    /// one (code, successor code) pair per recorded edge, in store order.
    #[verifier::loop_isolation(false)]
    pub fn emit_nodes_and_links(&self) -> (r: (Vec<(String, String)>, Vec<(String, String)>))
        ensures
            r.0@.len() == self.store_seq().len(),
            forall|i: int|
                0 <= i < r.0@.len() ==> (#[trigger] r.0@[i]).0@ == self.store_seq()[i].0@
                    && r.0@[i].1@ == result_name(self.store_seq()[i].1.game_result),
            pair_views(r.1@) == links_of(self.store_seq()),
    {
        let mut nodes: Vec<(String, String)> = Vec::new();
        let mut links: Vec<(String, String)> = Vec::new();
        let n = self.map.len();
        let mut i: usize = 0;
        while i < n
            invariant
                i <= n,
                nodes@.len() == i,
                forall|t: int|
                    0 <= t < i ==> (#[trigger] nodes@[t]).0@ == self.store_seq()[t].0@
                        && nodes@[t].1@ == result_name(self.store_seq()[t].1.game_result),
                pair_views(links@) == links_of(self.store_seq().take(i as int)),
            decreases n - i,
        {
            let entry = self.map.entry_at(i);
            nodes.push((entry.0.0.clone(), String::from_str(entry.1.game_result.get_string())));
            let m = entry.1.next_boards.len();
            let ghost links_mark = links@;
            let mut j: usize = 0;
            while j < m
                invariant
                    j <= m,
                    links@.len() == links_mark.len() + j,
                    links@.take(links_mark.len() as int) == links_mark,
                    forall|t: int|
                        0 <= t < j ==> (#[trigger] links@[links_mark.len() + t]).0@ == entry.0@
                            && links@[links_mark.len() + t].1@ == entry.1.next_boards@[t]@,
                decreases m - j,
            {
                links.push((entry.0.0.clone(), entry.1.next_boards[j].0.clone()));
                proof {
                    assert(links@.take(links_mark.len() as int) =~= links_mark);
                }
                j = j + 1;
            }
            proof {
                lemma_links_of_step(self.store_seq(), i as int);
                let target = links_of(self.store_seq().take(i as int)) + pair_links(
                    self.store_seq()[i as int],
                );
                assert(links_of(self.store_seq().take(i as int)) == pair_views(links_mark));
                assert forall|t: int| 0 <= t < pair_views(links@).len() implies pair_views(
                    links@,
                )[t] == target[t] by {
                    if t < links_mark.len() {
                        assert(links@.take(links_mark.len() as int)[t] == links@[t]);
                        assert(links@[t] == links_mark[t]);
                        assert(pair_views(links_mark)[t] == (links_mark[t].0@, links_mark[t].1@));
                    } else {
                        let u = t - links_mark.len();
                        assert(links@[links_mark.len() + u].0@ == self.store_seq()[i as int].0@);
                        assert(links@[links_mark.len() + u].1@
                            == self.store_seq()[i as int].1.next_boards@[u]@);
                        assert(pair_links(self.store_seq()[i as int])[u] == (
                            self.store_seq()[i as int].0@,
                            self.store_seq()[i as int].1.next_boards@[u]@,
                        ));
                    }
                }
                assert(pair_views(links@) =~= target);
            }
            i = i + 1;
        }
        proof {
            assert(self.store_seq().take(n as int) =~= self.store_seq());
        }
        (nodes, links)
    }

    /// The completed graph as (code, outcome, successor codes) triples, one
    /// per stored node, in store order — enough for a caller to serialize
    /// the result graph in any format.
    #[verifier::loop_isolation(false)]
    pub fn dump(&self) -> (r: Vec<(Code, GameResult, Vec<Code>)>)
        ensures
            r@.len() == self.store_seq().len(),
            forall|i: int|
                0 <= i < r@.len() ==> (#[trigger] r@[i]).0@ == self.store_seq()[i].0@ && r@[i].1
                    == self.store_seq()[i].1.game_result && views_of(r@[i].2@) == views_of(
                    self.store_seq()[i].1.next_boards@,
                ),
    {
        let mut r: Vec<(Code, GameResult, Vec<Code>)> = Vec::new();
        let n = self.map.len();
        let mut i: usize = 0;
        while i < n
            invariant
                i <= n,
                r@.len() == i,
                forall|t: int|
                    0 <= t < i ==> (#[trigger] r@[t]).0@ == self.store_seq()[t].0@ && r@[t].1
                        == self.store_seq()[t].1.game_result && views_of(r@[t].2@) == views_of(
                        self.store_seq()[t].1.next_boards@,
                    ),
            decreases n - i,
        {
            let entry = self.map.entry_at(i);
            r.push((entry.0.clone(), entry.1.game_result, clone_codes(&entry.1.next_boards)));
            i = i + 1;
        }
        r
    }
}

/// The name of each outcome in emitted dumps.
pub open spec fn result_name(g: GameResult) -> Seq<char> {
    match g {
        GameResult::Unknown => "unknown"@,
        GameResult::RedWins => "red"@,
        GameResult::YellowWins => "yellow"@,
        GameResult::Drawn => "undeterminable"@,
        GameResult::Invalid => "invalid"@,
    }
}

impl GameResult {
    /// The name of this outcome in emitted dumps; the drawn value keeps its
    /// long-standing name there so emitted data stays stable.
    pub fn get_string(&self) -> (r: &'static str)
        ensures
            r@ == result_name(*self),
    {
        match self {
            GameResult::Unknown => "unknown",
            GameResult::RedWins => "red",
            GameResult::YellowWins => "yellow",
            GameResult::Drawn => "undeterminable",
            GameResult::Invalid => "invalid",
        }
    }
}

/// The link pairs contributed by one store entry: one (code, successor)
/// pair per recorded successor.
pub open spec fn pair_links(e: (Code, AnalysisTreeNode)) -> Seq<(Seq<char>, Seq<char>)> {
    Seq::new(e.1.next_boards@.len(), |j: int| (e.0@, e.1.next_boards@[j]@))
}

/// All link pairs of a store, entry by entry.
pub open spec fn links_of(s: Seq<(Code, AnalysisTreeNode)>) -> Seq<(Seq<char>, Seq<char>)>
    decreases s.len(),
{
    if s.len() == 0 {
        Seq::empty()
    } else {
        links_of(s.drop_last()) + pair_links(s.last())
    }
}

/// The views of a sequence of string pairs.
pub open spec fn pair_views(s: Seq<(String, String)>) -> Seq<(Seq<char>, Seq<char>)> {
    s.map_values(|p: (String, String)| (p.0@, p.1@))
}

proof fn lemma_links_of_step(s: Seq<(Code, AnalysisTreeNode)>, i: int)
    requires
        0 <= i < s.len(),
    ensures
        links_of(s.take(i + 1)) == links_of(s.take(i)) + pair_links(s[i]),
{
    assert(s.take(i + 1).drop_last() =~= s.take(i));
    assert(s.take(i + 1).last() == s[i]);
}

/// Determinism: analyzing the same root twice on one analyzer yields the
/// same outcome both times. The first analysis leaves the root's solved
/// outcome in the graph store, and the second is answered from it; this
/// holds for any state of the store beforehand.
pub fn analyze_twice<B: Board>(analyzer: &mut Analyzer<B>, board: &B) -> (r: (
    GameResult,
    GameResult,
))
    requires
        old(analyzer).wf(),
    ensures
        r.0 == r.1,
{
    let first = analyzer.analyze(board);
    let second = analyzer.analyze(board);
    (first, second)
}

/// Win propagation: if at least one successor outcome is the mover's
/// winning value, the decision is that winning value, whatever the other
/// successors hold.
pub proof fn lemma_win_propagation(t: Turn, rs: Seq<GameResult>, i: int)
    requires
        0 <= i < rs.len(),
        rs[i] == win_of(t),
    ensures
        decide(t, rs) == win_of(t),
{
    assert(exists|j: int| 0 <= j < rs.len() && rs[j] == win_of(t));
}

/// Draw propagation under no forced win: if no successor outcome is the
/// mover's winning value but at least one is `Drawn`, the decision is
/// `Drawn`.
pub proof fn lemma_draw_propagation(t: Turn, rs: Seq<GameResult>, i: int)
    requires
        0 <= i < rs.len(),
        rs[i] == GameResult::Drawn,
        forall|j: int| 0 <= j < rs.len() ==> rs[j] != win_of(t),
    ensures
        decide(t, rs) == GameResult::Drawn,
{
    assert(exists|j: int| 0 <= j < rs.len() && rs[j] == GameResult::Drawn);
}

/// Forced loss: if every successor outcome is the opponent's winning value,
/// the decision is the mover's losing value.
pub proof fn lemma_forced_loss(t: Turn, rs: Seq<GameResult>)
    requires
        forall|j: int| 0 <= j < rs.len() ==> rs[j] == lose_of(t),
    ensures
        decide(t, rs) == lose_of(t),
{
    assert(forall|j: int| 0 <= j < rs.len() ==> rs[j] != win_of(t));
    assert(forall|j: int| 0 <= j < rs.len() ==> rs[j] != GameResult::Drawn);
}

/// Win propagation at a node: whenever `solve` freshly resolves the node
/// coded `k` and at least one of its recorded successors holds the mover's
/// winning value in the store the call leaves behind, the call returned
/// that winning value — whatever the other successors hold.
pub proof fn lemma_node_win_propagation<B: Board>(
    m0: Map<Seq<char>, AnalysisTreeNode>,
    c0: Set<Seq<char>>,
    m1: Map<Seq<char>, AnalysisTreeNode>,
    c1: Set<Seq<char>>,
    k: Seq<char>,
    r: GameResult,
    i: int,
)
    requires
        solve_result::<B>(m0, c0, m1, c1, k, r),
        m0.contains_key(k),
        m0[k].game_result == GameResult::Unknown,
        !c0.contains(k),
        0 <= i < succ_views(m0, k).len(),
        m1.contains_key(succ_views(m0, k)[i]),
        m1[succ_views(m0, k)[i]].game_result == win_of(B::spec_turn(k)),
    ensures
        r == win_of(B::spec_turn(k)),
{
    let t = B::spec_turn(k);
    let crs = child_results(m1, succ_views(m0, k));
    assert(crs[i] == win_of(t));
    lemma_win_propagation(t, crs, i);
}

/// Draw propagation at a node: whenever `solve` freshly resolves the node
/// coded `k`, no successor holds the mover's winning value, and at least
/// one holds `Drawn`, the call returned `Drawn`.
pub proof fn lemma_node_draw_propagation<B: Board>(
    m0: Map<Seq<char>, AnalysisTreeNode>,
    c0: Set<Seq<char>>,
    m1: Map<Seq<char>, AnalysisTreeNode>,
    c1: Set<Seq<char>>,
    k: Seq<char>,
    r: GameResult,
    i: int,
)
    requires
        solve_result::<B>(m0, c0, m1, c1, k, r),
        m0.contains_key(k),
        m0[k].game_result == GameResult::Unknown,
        !c0.contains(k),
        0 <= i < succ_views(m0, k).len(),
        m1.contains_key(succ_views(m0, k)[i]),
        m1[succ_views(m0, k)[i]].game_result == GameResult::Drawn,
        forall|j: int|
            0 <= j < succ_views(m0, k).len() && m1.contains_key(#[trigger] succ_views(m0, k)[j])
                ==> m1[succ_views(m0, k)[j]].game_result != win_of(B::spec_turn(k)),
    ensures
        r == GameResult::Drawn,
{
    let t = B::spec_turn(k);
    let crs = child_results(m1, succ_views(m0, k));
    assert(crs[i] == GameResult::Drawn);
    assert forall|j: int| 0 <= j < crs.len() implies crs[j] != win_of(t) by {
        assert(win_of(t) != GameResult::Unknown);
    }
    lemma_draw_propagation(t, crs, i);
}

/// Forced loss at a node: whenever `solve` freshly resolves the node coded
/// `k` and every recorded successor holds the opponent's winning value, the
/// call returned the mover's losing value.
pub proof fn lemma_node_forced_loss<B: Board>(
    m0: Map<Seq<char>, AnalysisTreeNode>,
    c0: Set<Seq<char>>,
    m1: Map<Seq<char>, AnalysisTreeNode>,
    c1: Set<Seq<char>>,
    k: Seq<char>,
    r: GameResult,
)
    requires
        solve_result::<B>(m0, c0, m1, c1, k, r),
        m0.contains_key(k),
        m0[k].game_result == GameResult::Unknown,
        !c0.contains(k),
        forall|j: int|
            0 <= j < succ_views(m0, k).len() ==> m1.contains_key(#[trigger] succ_views(m0, k)[j])
                && m1[succ_views(m0, k)[j]].game_result == lose_of(B::spec_turn(k)),
    ensures
        r == lose_of(B::spec_turn(k)),
{
    let t = B::spec_turn(k);
    let crs = child_results(m1, succ_views(m0, k));
    assert(forall|j: int| 0 <= j < crs.len() ==> crs[j] == lose_of(t));
    lemma_forced_loss(t, crs);
}

} // verus!
