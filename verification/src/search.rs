use vstd::prelude::*;

use crate::analysis::{clone_codes, spec_succs, spec_succs_upto, views_of};
use crate::code_map::CodeMap;
use crate::commons::{Board, Code, GameResult};
use crate::commons::{code_universe, lemma_code_in_universe, lemma_code_universe_finite};

verus! {

/// Per-state record kept by `Searcher`: the terminal outcome, the codes of
/// the states seen leading here during exploration, and the codes reachable
/// from here in one move.
pub struct BoardRelation {
    pub game_result: GameResult,
    pub previous_boards: Vec<Code>,
    pub next_boards: Vec<Code>,
}

/// A fully explored relation for state `b`, predecessor list aside.
pub open spec fn relation_for<B: Board>(b: B, rel: BoardRelation) -> bool {
    &&& rel.game_result == b.spec_result()
    &&& b.spec_result() == GameResult::Unknown ==> views_of(rel.next_boards@) == spec_succs(b)
    &&& b.spec_result() != GameResult::Unknown ==> rel.next_boards@.len() == 0
}

/// Some state of the variant carries code `k` and is fully explored in
/// `rel`.
pub open spec fn relation_complete<B: Board>(k: Seq<char>, rel: BoardRelation) -> bool {
    exists|b: B| b.spec_code() == k && relation_for(b, rel)
}

/// `p` is the code of a state with a move into the state coded `k`.
pub open spec fn edge_to<B: Board>(p: Seq<char>, k: Seq<char>) -> bool {
    exists|pb: B| pb.spec_code() == p && spec_succs(pb).contains(k)
}

/// `p1` extends `p0` without touching it, and everything appended is the
/// code of a state with an edge to `k`.
pub open spec fn prevs_extended<B: Board>(p0: Seq<Code>, p1: Seq<Code>, k: Seq<char>) -> bool {
    &&& p0.len() <= p1.len()
    &&& forall|j: int| 0 <= j < p0.len() ==> p1[j] == p0[j]
    &&& forall|j: int| p0.len() <= j < p1.len() ==> edge_to::<B>((#[trigger] p1[j])@, k)
}

/// Every successor recorded under `k` is itself a key of `m`.
pub open spec fn relation_closed(m: Map<Seq<char>, BoardRelation>, k: Seq<char>) -> bool {
    forall|j: int|
        0 <= j < m[k].next_boards@.len() ==> m.contains_key(#[trigger] m[k].next_boards@[j]@)
}

/// Game data recorded under existing keys survives an exploration step: the
/// outcome and the successor list stay, and the predecessor list only grows
/// by codes of states with an edge here.
pub open spec fn data_preserved<B: Board>(
    m0: Map<Seq<char>, BoardRelation>,
    m1: Map<Seq<char>, BoardRelation>,
) -> bool {
    forall|x: Seq<char>| #[trigger]
        m0.contains_key(x) ==> m1.contains_key(x) && m1[x].game_result == m0[x].game_result
            && m1[x].next_boards@ == m0[x].next_boards@ && prevs_extended::<B>(
            m0[x].previous_boards@,
            m1[x].previous_boards@,
            x,
        )
}

/// The effect of one exploration step that discovered the state coded `k`:
/// `k` is stored, existing entries keep their data, and every new entry is a
/// fully explored, closed relation whose predecessor list holds only edge
/// codes.
pub open spec fn search_step_effect<B: Board>(
    m0: Map<Seq<char>, BoardRelation>,
    m1: Map<Seq<char>, BoardRelation>,
    k: Seq<char>,
) -> bool {
    &&& m1.contains_key(k)
    &&& m0.dom().subset_of(m1.dom())
    &&& data_preserved::<B>(m0, m1)
    &&& forall|x: Seq<char>| #[trigger]
        m1.contains_key(x) && !m0.contains_key(x) ==> relation_complete::<B>(x, m1[x])
            && relation_closed(m1, x) && prevs_extended::<B>(
            Seq::empty(),
            m1[x].previous_boards@,
            x,
        )
}

/// The effect of exploring from root state `b`: the root's relation is
/// rebuilt with an unresolved outcome, an empty predecessor list then grown
/// only by edge codes, and the full list of its legal successors; all other
/// entries are as `search_step_effect` says.
pub open spec fn search_root_effect<B: Board>(
    m0: Map<Seq<char>, BoardRelation>,
    m1: Map<Seq<char>, BoardRelation>,
    b: B,
) -> bool {
    let k = b.spec_code();
    &&& m1.contains_key(k)
    &&& m1[k].game_result == GameResult::Unknown
    &&& views_of(m1[k].next_boards@) == spec_succs(b)
    &&& relation_closed(m1, k)
    &&& prevs_extended::<B>(Seq::empty(), m1[k].previous_boards@, k)
    &&& m0.dom().subset_of(m1.dom())
    &&& forall|x: Seq<char>| #[trigger]
        m0.contains_key(x) && x != k ==> m1.contains_key(x) && m1[x].game_result
            == m0[x].game_result && m1[x].next_boards@ == m0[x].next_boards@ && prevs_extended::<
            B,
        >(m0[x].previous_boards@, m1[x].previous_boards@, x)
    &&& forall|x: Seq<char>| #[trigger]
        m1.contains_key(x) && !m0.contains_key(x) && x != k ==> relation_complete::<B>(x, m1[x])
            && relation_closed(m1, x) && prevs_extended::<B>(
            Seq::empty(),
            m1[x].previous_boards@,
            x,
        )
}

/// Extending a predecessor list twice extends it once.
proof fn lemma_prevs_extended_trans<B: Board>(p0: Seq<Code>, p1: Seq<Code>, p2: Seq<Code>, k: Seq<char>)
    requires
        prevs_extended::<B>(p0, p1, k),
        prevs_extended::<B>(p1, p2, k),
    ensures
        prevs_extended::<B>(p0, p2, k),
{
    assert forall|j: int| p0.len() <= j < p2.len() implies edge_to::<B>((#[trigger] p2[j])@, k) by {
        if j < p1.len() {
            assert(p2[j] == p1[j]);
        }
    }
}

/// A legal move's target code appears among the successor codes.
proof fn lemma_move_in_succs<B: Board>(b: B, i: int, c: B, n: int)
    requires
        0 <= i < n,
        b.spec_move(i) == Option::Some(c),
    ensures
        spec_succs_upto(b, n).contains(c.spec_code()),
    decreases n,
{
    if n == i + 1 {
        let s = spec_succs_upto(b, n);
        assert(s[s.len() - 1] == c.spec_code());
    } else {
        lemma_move_in_succs(b, i, c, n - 1);
        let s0 = spec_succs_upto(b, n - 1);
        let j = choose|j: int| 0 <= j < s0.len() && s0[j] == c.spec_code();
        assert(spec_succs_upto(b, n)[j] == c.spec_code());
    }
}

/// An exploration engine that, besides each state's successors, records
/// which states were seen leading into it.
pub struct Searcher {
    map: CodeMap<BoardRelation>,
}

impl Searcher {
    /// The relation store: code view to relation.
    pub closed spec fn store(&self) -> Map<Seq<char>, BoardRelation> {
        self.map@
    }

    pub closed spec fn wf(&self) -> bool {
        self.map.wf()
    }

    pub fn new() -> (r: Searcher)
        ensures
            r.wf(),
            r.store() == Map::<Seq<char>, BoardRelation>::empty(),
    {
        Searcher { map: CodeMap::new() }
    }

    /// The stored relation for `code`, if that state has been explored.
    pub fn relation_of(&self, code: &Code) -> (r: Option<&BoardRelation>)
        requires
            self.wf(),
        ensures
            match r {
                Option::Some(rel) => self.store().contains_key(code@) && *rel == self.store()[
                    code@
                ],
                Option::None => !self.store().contains_key(code@),
            },
    {
        self.map.get(code)
    }

    /// Explore the state graph from `board`, recording successors and
    /// predecessors of every reachable state.
    #[verifier::loop_isolation(false)]
    pub fn search<B>(&mut self, board: B) where B: Board
        requires
            old(self).wf(),
        ensures
            final(self).wf(),
            search_root_effect::<B>(old(self).store(), final(self).store(), board),
    {
        let ghost m0 = self.store();
        let ghost k = board.spec_code();
        let code = board.encode();
        self.map.insert(
            code.clone(),
            (BoardRelation {
                game_result: GameResult::Unknown,
                previous_boards: Vec::new(),
                next_boards: Vec::new(),
            }),
        );
        let ghost m_start = self.store();
        let mut codes: Vec<Code> = Vec::new();
        let size = B::get_board_size();
        let mut i: usize = 0;
        while i < size
            invariant
                self.wf(),
                i <= size,
                self.store().contains_key(k),
                self.store()[k].game_result == GameResult::Unknown,
                self.store()[k].next_boards@.len() == 0,
                prevs_extended::<B>(Seq::empty(), self.store()[k].previous_boards@, k),
                m_start.dom().subset_of(self.store().dom()),
                m_start.dom() == m0.dom().insert(k),
                data_preserved::<B>(m_start, self.store()),
                forall|x: Seq<char>| #[trigger]
                    m0.contains_key(x) && x != k ==> m_start.contains_key(x)
                        && m_start[x].game_result == m0[x].game_result && m_start[x].next_boards@
                        == m0[x].next_boards@ && m_start[x].previous_boards@
                        == m0[x].previous_boards@,
                forall|x: Seq<char>| #[trigger]
                    self.store().contains_key(x) && !m_start.contains_key(x)
                        ==> relation_complete::<B>(x, self.store()[x]) && relation_closed(
                        self.store(),
                        x,
                    ) && prevs_extended::<B>(
                        Seq::empty(),
                        self.store()[x].previous_boards@,
                        x,
                    ),
                views_of(codes@) == spec_succs_upto(board, i as int),
                forall|j: int|
                    0 <= j < codes@.len() ==> self.store().contains_key(#[trigger] codes@[j]@),
            decreases size - i,
        {
            let ghost m_pre = self.store();
            let child = self.search_recur(&board, i);
            proof {
                assert forall|x: Seq<char>|
                    self.store().contains_key(x) && !m_start.contains_key(x) implies
                    relation_complete::<B>(x, self.store()[x]) && relation_closed(self.store(), x)
                        && prevs_extended::<B>(
                        Seq::empty(),
                        self.store()[x].previous_boards@,
                        x,
                    ) by {
                    if m_pre.contains_key(x) {
                        assert(self.store()[x].game_result == m_pre[x].game_result);
                        assert(relation_complete::<B>(x, m_pre[x]));
                        assert(self.store()[x].next_boards@ == m_pre[x].next_boards@);
                        assert(relation_closed(m_pre, x));
                        assert forall|j: int|
                            0 <= j < self.store()[x].next_boards@.len() implies
                            self.store().contains_key(
                            #[trigger] self.store()[x].next_boards@[j]@,
                        ) by {
                            assert(m_pre.contains_key(m_pre[x].next_boards@[j]@));
                        }
                        assert(relation_for::<B>(
                            choose|b2: B| b2.spec_code() == x && relation_for(b2, m_pre[x]),
                            self.store()[x],
                        ));
                        lemma_prevs_extended_trans::<B>(
                            Seq::empty(),
                            m_pre[x].previous_boards@,
                            self.store()[x].previous_boards@,
                            x,
                        );
                    }
                }
                assert(data_preserved::<B>(m_start, self.store())) by {
                    assert forall|x: Seq<char>| #[trigger] m_start.contains_key(x) implies
                        self.store().contains_key(x) && self.store()[x].game_result
                            == m_start[x].game_result && self.store()[x].next_boards@
                            == m_start[x].next_boards@ && prevs_extended::<B>(
                            m_start[x].previous_boards@,
                            self.store()[x].previous_boards@,
                            x,
                        ) by {
                        assert(m_pre.contains_key(x));
                        lemma_prevs_extended_trans::<B>(
                            m_start[x].previous_boards@,
                            m_pre[x].previous_boards@,
                            self.store()[x].previous_boards@,
                            x,
                        );
                    }
                }
            }
            match child {
                Option::Some(c) => {
                    codes.push(c);
                },
                Option::None => {},
            }
            proof {
                assert(views_of(codes@) =~= spec_succs_upto(board, i as int + 1));
            }
            i = i + 1;
        }
        let prevs_now = clone_codes(&self.map.get(&code).unwrap().previous_boards);
        let ghost m_end = self.store();
        self.map.insert(
            code,
            (BoardRelation {
                game_result: GameResult::Unknown,
                previous_boards: prevs_now,
                next_boards: codes,
            }),
        );
        proof {
            assert(self.store().dom() =~= m_end.dom());
            assert(views_of(self.store()[k].next_boards@) == spec_succs(board));
            assert forall|x: Seq<char>|
                self.store().contains_key(x) && !m0.contains_key(x) && x != k implies
                relation_complete::<B>(x, self.store()[x]) && relation_closed(self.store(), x)
                    && prevs_extended::<B>(
                    Seq::empty(),
                    self.store()[x].previous_boards@,
                    x,
                ) by {
                assert(self.store()[x] == m_end[x]);
                assert(relation_closed(m_end, x));
                assert forall|j: int|
                    0 <= j < self.store()[x].next_boards@.len() implies self.store().contains_key(
                    #[trigger] self.store()[x].next_boards@[j]@,
                ) by {
                    assert(m_end.contains_key(m_end[x].next_boards@[j]@));
                }
            }
        }
    }

    /// One exploration step; see `search_step_effect`. A target met again is
    /// only recorded as reached from here, not explored again: everything
    /// under it was already handled, or is being handled higher up the same
    /// call stack.
    #[verifier::loop_isolation(false)]
    fn search_recur<B>(&mut self, current_board: &B, piece_index: usize) -> (r: Option<Code>) where
        B: Board
        requires
            old(self).wf(),
            piece_index < B::spec_size(),
        ensures
            final(self).wf(),
            current_board.spec_move(piece_index as int) matches Option::None ==> r is None
                && final(self).store() == old(self).store(),
            current_board.spec_move(piece_index as int) matches Option::Some(b) ==> (
            r matches Option::Some(c) && c@ == b.spec_code()) && search_step_effect::<B>(
                old(self).store(),
                final(self).store(),
                b.spec_code(),
            ),
        decreases (code_universe::<B>().difference(old(self).store().dom())).len(),
    {
        let next = current_board.move_at(piece_index);
        let previous_code = current_board.encode();
        match next {
            Option::None => Option::None,
            Option::Some(board) => {
                let ghost m0 = self.store();
                let ghost k = board.spec_code();
                let code = board.encode();
                proof {
                    lemma_move_in_succs::<B>(
                        *current_board,
                        piece_index as int,
                        board,
                        B::spec_size() as int,
                    );
                    assert(edge_to::<B>(previous_code@, k));
                }
                if self.map.contains(&code) {
                    let gr: GameResult;
                    let mut prevs2: Vec<Code>;
                    let nexts: Vec<Code>;
                    {
                        let rel = self.map.get(&code).unwrap();
                        gr = rel.game_result;
                        prevs2 = clone_codes(&rel.previous_boards);
                        nexts = clone_codes(&rel.next_boards);
                    }
                    prevs2.push(previous_code);
                    self.map.insert(
                        code.clone(),
                        (BoardRelation {
                            game_result: gr,
                            previous_boards: prevs2,
                            next_boards: nexts,
                        }),
                    );
                    proof {
                        assert(self.store().dom() =~= m0.dom());
                        assert(prevs_extended::<B>(
                            m0[k].previous_boards@,
                            self.store()[k].previous_boards@,
                            k,
                        ));
                    }
                    return Option::Some(code);
                }
                let result = board.get_result();
                self.map.insert(
                    code.clone(),
                    (BoardRelation {
                        game_result: result,
                        previous_boards: vec![previous_code],
                        next_boards: Vec::new(),
                    }),
                );
                if result != GameResult::Unknown {
                    proof {
                        assert(relation_for::<B>(board, self.store()[k]));
                        assert forall|x: Seq<char>|
                            self.store().contains_key(x) && !m0.contains_key(x) implies
                            relation_complete::<B>(x, self.store()[x]) && relation_closed(
                            self.store(),
                            x,
                        ) && prevs_extended::<B>(
                            Seq::empty(),
                            self.store()[x].previous_boards@,
                            x,
                        ) by {
                            assert(x == k);
                        }
                    }
                    return Option::Some(code);
                }
                let mut codes: Vec<Code> = Vec::new();
                let size = B::get_board_size();
                let mut i: usize = 0;
                while i < size
                    invariant
                        self.wf(),
                        i <= size,
                        self.store().contains_key(k),
                        self.store()[k].game_result == GameResult::Unknown,
                        self.store()[k].next_boards@.len() == 0,
                        prevs_extended::<B>(Seq::empty(), self.store()[k].previous_boards@, k),
                        m0.dom().subset_of(self.store().dom()),
                        !m0.contains_key(k),
                        data_preserved::<B>(m0, self.store()),
                        forall|x: Seq<char>| #[trigger]
                            self.store().contains_key(x) && !m0.contains_key(x) && x != k
                                ==> relation_complete::<B>(x, self.store()[x]) && relation_closed(
                                self.store(),
                                x,
                            ) && prevs_extended::<B>(
                                Seq::empty(),
                                self.store()[x].previous_boards@,
                                x,
                            ),
                        views_of(codes@) == spec_succs_upto(board, i as int),
                        forall|j: int|
                            0 <= j < codes@.len() ==> self.store().contains_key(
                                #[trigger] codes@[j]@,
                            ),
                    decreases size - i,
                {
                    let ghost m_pre = self.store();
                    proof {
                        lemma_code_universe_finite::<B>();
                        vstd::set_lib::lemma_len_subset(
                            code_universe::<B>().difference(m0.dom()),
                            code_universe::<B>(),
                        );
                        lemma_code_in_universe::<B>(&board);
                        code_universe::<B>().difference(self.store().dom()).lemma_subset_not_in_lt(
                            code_universe::<B>().difference(m0.dom()),
                            k,
                        );
                    }
                    let child = self.search_recur(&board, i);
                    proof {
                        assert forall|x: Seq<char>|
                            self.store().contains_key(x) && !m0.contains_key(x) && x != k implies
                            relation_complete::<B>(x, self.store()[x]) && relation_closed(
                            self.store(),
                            x,
                        ) && prevs_extended::<B>(
                            Seq::empty(),
                            self.store()[x].previous_boards@,
                            x,
                        ) by {
                            if m_pre.contains_key(x) {
                                assert(self.store()[x].game_result == m_pre[x].game_result);
                                assert(self.store()[x].next_boards@ == m_pre[x].next_boards@);
                                assert(relation_complete::<B>(x, m_pre[x]));
                                assert(relation_closed(m_pre, x));
                                assert forall|j: int|
                                    0 <= j < self.store()[x].next_boards@.len() implies
                                    self.store().contains_key(
                                    #[trigger] self.store()[x].next_boards@[j]@,
                                ) by {
                                    assert(m_pre.contains_key(m_pre[x].next_boards@[j]@));
                                }
                                assert(relation_for::<B>(
                                    choose|b2: B|
                                        b2.spec_code() == x && relation_for(b2, m_pre[x]),
                                    self.store()[x],
                                ));
                                lemma_prevs_extended_trans::<B>(
                                    Seq::empty(),
                                    m_pre[x].previous_boards@,
                                    self.store()[x].previous_boards@,
                                    x,
                                );
                            }
                        }
                        assert(data_preserved::<B>(m0, self.store())) by {
                            assert forall|x: Seq<char>| #[trigger] m0.contains_key(x) implies
                                self.store().contains_key(x) && self.store()[x].game_result
                                    == m0[x].game_result && self.store()[x].next_boards@
                                    == m0[x].next_boards@ && prevs_extended::<B>(
                                    m0[x].previous_boards@,
                                    self.store()[x].previous_boards@,
                                    x,
                                ) by {
                                assert(m_pre.contains_key(x));
                                lemma_prevs_extended_trans::<B>(
                                    m0[x].previous_boards@,
                                    m_pre[x].previous_boards@,
                                    self.store()[x].previous_boards@,
                                    x,
                                );
                            }
                        }
                        lemma_prevs_extended_trans::<B>(
                            Seq::empty(),
                            m_pre[k].previous_boards@,
                            self.store()[k].previous_boards@,
                            k,
                        );
                    }
                    match child {
                        Option::Some(c) => {
                            codes.push(c);
                        },
                        Option::None => {},
                    }
                    proof {
                        assert(views_of(codes@) =~= spec_succs_upto(board, i as int + 1));
                    }
                    i = i + 1;
                }
                let prevs_now = clone_codes(&self.map.get(&code).unwrap().previous_boards);
                let ghost m_end = self.store();
                self.map.insert(
                    code.clone(),
                    (BoardRelation {
                        game_result: GameResult::Unknown,
                        previous_boards: prevs_now,
                        next_boards: codes,
                    }),
                );
                proof {
                    assert(self.store().dom() =~= m_end.dom());
                    assert(views_of(self.store()[k].next_boards@) == spec_succs(board));
                    assert(relation_for::<B>(board, self.store()[k]));
                    assert forall|x: Seq<char>|
                        self.store().contains_key(x) && !m0.contains_key(x) implies
                        relation_complete::<B>(x, self.store()[x]) && relation_closed(
                        self.store(),
                        x,
                    ) && prevs_extended::<B>(
                        Seq::empty(),
                        self.store()[x].previous_boards@,
                        x,
                    ) by {
                        if x != k {
                            assert(self.store()[x] == m_end[x]);
                            assert(relation_closed(m_end, x));
                            assert forall|j: int|
                                0 <= j < self.store()[x].next_boards@.len() implies
                                self.store().contains_key(
                                #[trigger] self.store()[x].next_boards@[j]@,
                            ) by {
                                assert(m_end.contains_key(m_end[x].next_boards@[j]@));
                            }
                        }
                    }
                }
                Option::Some(code)
            },
        }
    }
}

} // verus!
