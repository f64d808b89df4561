//! Face-layer moves: the 18-symbol move alphabet, the six base quarter-turn
//! constants derived from the geometry of a clockwise face turn, and the
//! application of moves to cubie states.

use vstd::prelude::*;

use crate::cubie::{compose, lemma_compose_no_dups, lemma_compose_wf, no_dups, solved_view, Corner, CubeView, CubieCube, Edge};

verus! {

/// Layer moves: Up, Down, Right, Left, Front, Back. A bare letter is a
/// clockwise quarter turn, `X2` a half turn, `X3` a counter-clockwise
/// quarter turn.
#[derive(Clone, Copy, PartialEq, Eq, Structural, Debug)]
pub enum Move {
    U,
    U2,
    U3,
    D,
    D2,
    D3,
    R,
    R2,
    R3,
    L,
    L2,
    L3,
    F,
    F2,
    F3,
    B,
    B2,
    B3,
}

impl Move {
    /// The face this move turns: U 0, D 1, R 2, L 3, F 4, B 5.
    pub open spec fn face(self) -> int {
        match self {
            Move::U | Move::U2 | Move::U3 => 0,
            Move::D | Move::D2 | Move::D3 => 1,
            Move::R | Move::R2 | Move::R3 => 2,
            Move::L | Move::L2 | Move::L3 => 3,
            Move::F | Move::F2 | Move::F3 => 4,
            Move::B | Move::B2 | Move::B3 => 5,
        }
    }

    /// Whether `self` turns the first face of an opposite-face pair and
    /// `other` the second (U against D, R against L, F against B). The test
    /// is deliberately one-sided: it is the symmetry-breaking half of the
    /// move-availability filter.
    pub open spec fn spec_is_inverse(self, other: Move) -> bool {
        ||| (self.face() == 0 && other.face() == 1)
        ||| (self.face() == 2 && other.face() == 3)
        ||| (self.face() == 4 && other.face() == 5)
    }

    pub fn is_inverse(&self, other: Move) -> (r: bool)
        ensures
            r == self.spec_is_inverse(other),
    {
        matches!(
            (self, other),
            (Move::U | Move::U2 | Move::U3, Move::D | Move::D2 | Move::D3)
            | (Move::R | Move::R2 | Move::R3, Move::L | Move::L2 | Move::L3)
            | (Move::F | Move::F2 | Move::F3, Move::B | Move::B2 | Move::B3)
        )
    }

    /// Whether the two moves turn the same face.
    pub fn is_same_layer(&self, other: Move) -> (r: bool)
        ensures
            r == (self.face() == other.face()),
    {
        matches!(
            (self, other),
            (Move::U | Move::U2 | Move::U3, Move::U | Move::U2 | Move::U3)
            | (Move::D | Move::D2 | Move::D3, Move::D | Move::D2 | Move::D3)
            | (Move::R | Move::R2 | Move::R3, Move::R | Move::R2 | Move::R3)
            | (Move::L | Move::L2 | Move::L3, Move::L | Move::L2 | Move::L3)
            | (Move::F | Move::F2 | Move::F3, Move::F | Move::F2 | Move::F3)
            | (Move::B | Move::B2 | Move::B3, Move::B | Move::B2 | Move::B3)
        )
    }

    /// The move that undoes this one: quarter turns swap with their
    /// counter-clockwise form, half turns are their own inverse.
    pub open spec fn spec_inverse(self) -> Move {
        match self {
            Move::U => Move::U3,
            Move::U3 => Move::U,
            Move::D => Move::D3,
            Move::D3 => Move::D,
            Move::R => Move::R3,
            Move::R3 => Move::R,
            Move::L => Move::L3,
            Move::L3 => Move::L,
            Move::F => Move::F3,
            Move::F3 => Move::F,
            Move::B => Move::B3,
            Move::B3 => Move::B,
            _ => self,
        }
    }

    pub fn get_inverse(self) -> (r: Move)
        ensures
            r == self.spec_inverse(),
    {
        match self {
            Move::U => Move::U3,
            Move::U3 => Move::U,
            Move::D => Move::D3,
            Move::D3 => Move::D,
            Move::R => Move::R3,
            Move::R3 => Move::R,
            Move::L => Move::L3,
            Move::L3 => Move::L,
            Move::F => Move::F3,
            Move::F3 => Move::F,
            Move::B => Move::B3,
            Move::B3 => Move::B,
            _ => self,
        }
    }

    /// The display name of the move: counter-clockwise turns carry a prime.
    pub open spec fn spec_name(self) -> Seq<char> {
        match self {
            Move::U => "U"@,
            Move::U2 => "U2"@,
            Move::U3 => "U'"@,
            Move::D => "D"@,
            Move::D2 => "D2"@,
            Move::D3 => "D'"@,
            Move::R => "R"@,
            Move::R2 => "R2"@,
            Move::R3 => "R'"@,
            Move::L => "L"@,
            Move::L2 => "L2"@,
            Move::L3 => "L'"@,
            Move::F => "F"@,
            Move::F2 => "F2"@,
            Move::F3 => "F'"@,
            Move::B => "B"@,
            Move::B2 => "B2"@,
            Move::B3 => "B'"@,
        }
    }

    pub fn name(self) -> (r: &'static str)
        ensures
            r@ == self.spec_name(),
    {
        match self {
            Move::U => "U",
            Move::U2 => "U2",
            Move::U3 => "U'",
            Move::D => "D",
            Move::D2 => "D2",
            Move::D3 => "D'",
            Move::R => "R",
            Move::R2 => "R2",
            Move::R3 => "R'",
            Move::L => "L",
            Move::L2 => "L2",
            Move::L3 => "L'",
            Move::F => "F",
            Move::F2 => "F2",
            Move::F3 => "F'",
            Move::B => "B",
            Move::B2 => "B2",
            Move::B3 => "B'",
        }
    }
}

/// The move-availability filter: after `prev`, the move `current` is kept
/// only if it turns a different face and is not the second half of an
/// opposite-face pair written in non-canonical order.
pub open spec fn spec_move_available(prev: Move, current: Move) -> bool {
    current != prev && !current.spec_is_inverse(prev) && current.face() != prev.face()
}

pub fn is_move_available(prev: Move, current: Move) -> (r: bool)
    ensures
        r == spec_move_available(prev, current),
{
    current != prev && !current.is_inverse(prev) && !current.is_same_layer(prev)
}

/// The state a clockwise U turn gives the solved cube.
pub open spec fn u_move_view() -> CubeView {
    CubeView {
        cp: seq![3, 0, 1, 2, 4, 5, 6, 7],
        co: seq![0, 0, 0, 0, 0, 0, 0, 0],
        ep: seq![0, 1, 2, 3, 7, 4, 5, 6, 8, 9, 10, 11],
        eo: seq![0, 0, 0, 0, 0, 0, 0, 0, 0, 0, 0, 0],
    }
}

/// The state a clockwise D turn gives the solved cube.
pub open spec fn d_move_view() -> CubeView {
    CubeView {
        cp: seq![0, 1, 2, 3, 7, 4, 5, 6],
        co: seq![0, 0, 0, 0, 0, 0, 0, 0],
        ep: seq![0, 1, 2, 3, 4, 5, 6, 7, 11, 8, 9, 10],
        eo: seq![0, 0, 0, 0, 0, 0, 0, 0, 0, 0, 0, 0],
    }
}

/// The state a clockwise R turn gives the solved cube.
pub open spec fn r_move_view() -> CubeView {
    CubeView {
        cp: seq![0, 2, 5, 3, 4, 6, 1, 7],
        co: seq![0, 1, 2, 0, 0, 1, 2, 0],
        ep: seq![0, 5, 9, 3, 4, 2, 6, 7, 8, 1, 10, 11],
        eo: seq![0, 0, 0, 0, 0, 0, 0, 0, 0, 0, 0, 0],
    }
}

/// The state a clockwise L turn gives the solved cube.
pub open spec fn l_move_view() -> CubeView {
    CubeView {
        cp: seq![7, 1, 2, 0, 3, 5, 6, 4],
        co: seq![2, 0, 0, 1, 2, 0, 0, 1],
        ep: seq![11, 1, 2, 7, 4, 5, 6, 0, 8, 9, 10, 3],
        eo: seq![0, 0, 0, 0, 0, 0, 0, 0, 0, 0, 0, 0],
    }
}

/// The state a clockwise F turn gives the solved cube.
pub open spec fn f_move_view() -> CubeView {
    CubeView {
        cp: seq![0, 1, 3, 4, 5, 2, 6, 7],
        co: seq![0, 0, 1, 2, 1, 2, 0, 0],
        ep: seq![0, 1, 6, 8, 4, 5, 3, 7, 2, 9, 10, 11],
        eo: seq![0, 0, 1, 1, 0, 0, 1, 0, 1, 0, 0, 0],
    }
}

/// The state a clockwise B turn gives the solved cube.
pub open spec fn b_move_view() -> CubeView {
    CubeView {
        cp: seq![1, 6, 2, 3, 4, 5, 7, 0],
        co: seq![1, 2, 0, 0, 0, 0, 1, 2],
        ep: seq![4, 10, 2, 3, 1, 5, 6, 7, 8, 9, 0, 11],
        eo: seq![1, 1, 0, 0, 1, 0, 0, 0, 0, 0, 1, 0],
    }
}

/// The cubie state of a single clockwise U turn.
pub fn u_move() -> (r: CubieCube)
    ensures
        r@ == u_move_view(),
        r.wf(),
{
    let r = CubieCube {
        cp: [
            Corner::UFL,
            Corner::UBL,
            Corner::UBR,
            Corner::UFR,
            Corner::DFL,
            Corner::DFR,
            Corner::DBR,
            Corner::DBL,
        ],
        co: [0, 0, 0, 0, 0, 0, 0, 0],
        ep: [
            Edge::BL,
            Edge::BR,
            Edge::FR,
            Edge::FL,
            Edge::UL,
            Edge::UB,
            Edge::UR,
            Edge::UF,
            Edge::DF,
            Edge::DR,
            Edge::DB,
            Edge::DL,
        ],
        eo: [0, 0, 0, 0, 0, 0, 0, 0, 0, 0, 0, 0],
    };
    proof {
        assert(r@.cp =~= u_move_view().cp);
        assert(r@.co =~= u_move_view().co);
        assert(r@.ep =~= u_move_view().ep);
        assert(r@.eo =~= u_move_view().eo);
        assert(r@ =~= u_move_view());
    }
    r
}

/// The cubie state of a single clockwise D turn.
pub fn d_move() -> (r: CubieCube)
    ensures
        r@ == d_move_view(),
        r.wf(),
{
    let r = CubieCube {
        cp: [
            Corner::UBL,
            Corner::UBR,
            Corner::UFR,
            Corner::UFL,
            Corner::DBL,
            Corner::DFL,
            Corner::DFR,
            Corner::DBR,
        ],
        co: [0, 0, 0, 0, 0, 0, 0, 0],
        ep: [
            Edge::BL,
            Edge::BR,
            Edge::FR,
            Edge::FL,
            Edge::UB,
            Edge::UR,
            Edge::UF,
            Edge::UL,
            Edge::DL,
            Edge::DF,
            Edge::DR,
            Edge::DB,
        ],
        eo: [0, 0, 0, 0, 0, 0, 0, 0, 0, 0, 0, 0],
    };
    proof {
        assert(r@.cp =~= d_move_view().cp);
        assert(r@.co =~= d_move_view().co);
        assert(r@.ep =~= d_move_view().ep);
        assert(r@.eo =~= d_move_view().eo);
        assert(r@ =~= d_move_view());
    }
    r
}

/// The cubie state of a single clockwise R turn.
pub fn r_move() -> (r: CubieCube)
    ensures
        r@ == r_move_view(),
        r.wf(),
{
    let r = CubieCube {
        cp: [
            Corner::UBL,
            Corner::UFR,
            Corner::DFR,
            Corner::UFL,
            Corner::DFL,
            Corner::DBR,
            Corner::UBR,
            Corner::DBL,
        ],
        co: [0, 1, 2, 0, 0, 1, 2, 0],
        ep: [
            Edge::BL,
            Edge::UR,
            Edge::DR,
            Edge::FL,
            Edge::UB,
            Edge::FR,
            Edge::UF,
            Edge::UL,
            Edge::DF,
            Edge::BR,
            Edge::DB,
            Edge::DL,
        ],
        eo: [0, 0, 0, 0, 0, 0, 0, 0, 0, 0, 0, 0],
    };
    proof {
        assert(r@.cp =~= r_move_view().cp);
        assert(r@.co =~= r_move_view().co);
        assert(r@.ep =~= r_move_view().ep);
        assert(r@.eo =~= r_move_view().eo);
        assert(r@ =~= r_move_view());
    }
    r
}

/// The cubie state of a single clockwise L turn.
pub fn l_move() -> (r: CubieCube)
    ensures
        r@ == l_move_view(),
        r.wf(),
{
    let r = CubieCube {
        cp: [
            Corner::DBL,
            Corner::UBR,
            Corner::UFR,
            Corner::UBL,
            Corner::UFL,
            Corner::DFR,
            Corner::DBR,
            Corner::DFL,
        ],
        co: [2, 0, 0, 1, 2, 0, 0, 1],
        ep: [
            Edge::DL,
            Edge::BR,
            Edge::FR,
            Edge::UL,
            Edge::UB,
            Edge::UR,
            Edge::UF,
            Edge::BL,
            Edge::DF,
            Edge::DR,
            Edge::DB,
            Edge::FL,
        ],
        eo: [0, 0, 0, 0, 0, 0, 0, 0, 0, 0, 0, 0],
    };
    proof {
        assert(r@.cp =~= l_move_view().cp);
        assert(r@.co =~= l_move_view().co);
        assert(r@.ep =~= l_move_view().ep);
        assert(r@.eo =~= l_move_view().eo);
        assert(r@ =~= l_move_view());
    }
    r
}

/// The cubie state of a single clockwise F turn.
pub fn f_move() -> (r: CubieCube)
    ensures
        r@ == f_move_view(),
        r.wf(),
{
    let r = CubieCube {
        cp: [
            Corner::UBL,
            Corner::UBR,
            Corner::UFL,
            Corner::DFL,
            Corner::DFR,
            Corner::UFR,
            Corner::DBR,
            Corner::DBL,
        ],
        co: [0, 0, 1, 2, 1, 2, 0, 0],
        ep: [
            Edge::BL,
            Edge::BR,
            Edge::UF,
            Edge::DF,
            Edge::UB,
            Edge::UR,
            Edge::FL,
            Edge::UL,
            Edge::FR,
            Edge::DR,
            Edge::DB,
            Edge::DL,
        ],
        eo: [0, 0, 1, 1, 0, 0, 1, 0, 1, 0, 0, 0],
    };
    proof {
        assert(r@.cp =~= f_move_view().cp);
        assert(r@.co =~= f_move_view().co);
        assert(r@.ep =~= f_move_view().ep);
        assert(r@.eo =~= f_move_view().eo);
        assert(r@ =~= f_move_view());
    }
    r
}

/// The cubie state of a single clockwise B turn.
pub fn b_move() -> (r: CubieCube)
    ensures
        r@ == b_move_view(),
        r.wf(),
{
    let r = CubieCube {
        cp: [
            Corner::UBR,
            Corner::DBR,
            Corner::UFR,
            Corner::UFL,
            Corner::DFL,
            Corner::DFR,
            Corner::DBL,
            Corner::UBL,
        ],
        co: [1, 2, 0, 0, 0, 0, 1, 2],
        ep: [
            Edge::UB,
            Edge::DB,
            Edge::FR,
            Edge::FL,
            Edge::BR,
            Edge::UR,
            Edge::UF,
            Edge::UL,
            Edge::DF,
            Edge::DR,
            Edge::BL,
            Edge::DL,
        ],
        eo: [1, 1, 0, 0, 1, 0, 0, 0, 0, 0, 1, 0],
    };
    proof {
        assert(r@.cp =~= b_move_view().cp);
        assert(r@.co =~= b_move_view().co);
        assert(r@.ep =~= b_move_view().ep);
        assert(r@.eo =~= b_move_view().eo);
        assert(r@ =~= b_move_view());
    }
    r
}

/// The cubie state of any of the 18 moves: half and counter-clockwise turns
/// are the composition of quarter turns.
pub open spec fn move_view(m: Move) -> CubeView {
    match m {
        Move::U => u_move_view(),
        Move::U2 => compose(u_move_view(), u_move_view()),
        Move::U3 => compose(compose(u_move_view(), u_move_view()), u_move_view()),
        Move::D => d_move_view(),
        Move::D2 => compose(d_move_view(), d_move_view()),
        Move::D3 => compose(compose(d_move_view(), d_move_view()), d_move_view()),
        Move::R => r_move_view(),
        Move::R2 => compose(r_move_view(), r_move_view()),
        Move::R3 => compose(compose(r_move_view(), r_move_view()), r_move_view()),
        Move::L => l_move_view(),
        Move::L2 => compose(l_move_view(), l_move_view()),
        Move::L3 => compose(compose(l_move_view(), l_move_view()), l_move_view()),
        Move::F => f_move_view(),
        Move::F2 => compose(f_move_view(), f_move_view()),
        Move::F3 => compose(compose(f_move_view(), f_move_view()), f_move_view()),
        Move::B => b_move_view(),
        Move::B2 => compose(b_move_view(), b_move_view()),
        Move::B3 => compose(compose(b_move_view(), b_move_view()), b_move_view()),
    }
}

/// Every move's state is well-formed.
pub proof fn lemma_move_view_wf(m: Move)
    ensures
        move_view(m).wf(),
{
    crate::cubie::lemma_compose_wf(u_move_view(), u_move_view());
    crate::cubie::lemma_compose_wf(compose(u_move_view(), u_move_view()), u_move_view());
    crate::cubie::lemma_compose_wf(d_move_view(), d_move_view());
    crate::cubie::lemma_compose_wf(compose(d_move_view(), d_move_view()), d_move_view());
    crate::cubie::lemma_compose_wf(r_move_view(), r_move_view());
    crate::cubie::lemma_compose_wf(compose(r_move_view(), r_move_view()), r_move_view());
    crate::cubie::lemma_compose_wf(l_move_view(), l_move_view());
    crate::cubie::lemma_compose_wf(compose(l_move_view(), l_move_view()), l_move_view());
    crate::cubie::lemma_compose_wf(f_move_view(), f_move_view());
    crate::cubie::lemma_compose_wf(compose(f_move_view(), f_move_view()), f_move_view());
    crate::cubie::lemma_compose_wf(b_move_view(), b_move_view());
    crate::cubie::lemma_compose_wf(compose(b_move_view(), b_move_view()), b_move_view());
}

/// Applying a sequence of moves in order, leftmost first.
pub open spec fn apply_seq(v: CubeView, ms: Seq<Move>) -> CubeView
    decreases ms.len(),
{
    if ms.len() == 0 {
        v
    } else {
        compose(apply_seq(v, ms.drop_last()), move_view(ms.last()))
    }
}

/// A sequence of moves keeps a state well-formed.
pub proof fn lemma_apply_seq_wf(v: CubeView, ms: Seq<Move>)
    requires
        v.wf(),
    ensures
        apply_seq(v, ms).wf(),
    decreases ms.len(),
{
    if ms.len() > 0 {
        lemma_apply_seq_wf(v, ms.drop_last());
        lemma_move_view_wf(ms.last());
        crate::cubie::lemma_compose_wf(apply_seq(v, ms.drop_last()), move_view(ms.last()));
    }
}

impl CubieCube {
    /// The state after one move: `self` composed with the move's state.
    pub fn apply_move(self, move_name: Move) -> (r: CubieCube)
        requires
            self.wf(),
        ensures
            r@ == compose(self@, move_view(move_name)),
            r.wf(),
            crate::cubie::solvable(self@) ==> crate::cubie::solvable(r@),
    {
        proof {
            if crate::cubie::solvable(self@) {
                lemma_move_view_solvable(move_name);
                crate::index::lemma_compose_solvable(self@, move_view(move_name));
            }
        }
        let move_state = match move_name {
            Move::U => u_move(),
            Move::U2 => u_move().mul(u_move()),
            Move::U3 => u_move().mul(u_move()).mul(u_move()),
            Move::D => d_move(),
            Move::D2 => d_move().mul(d_move()),
            Move::D3 => d_move().mul(d_move()).mul(d_move()),
            Move::R => r_move(),
            Move::R2 => r_move().mul(r_move()),
            Move::R3 => r_move().mul(r_move()).mul(r_move()),
            Move::L => l_move(),
            Move::L2 => l_move().mul(l_move()),
            Move::L3 => l_move().mul(l_move()).mul(l_move()),
            Move::F => f_move(),
            Move::F2 => f_move().mul(f_move()),
            Move::F3 => f_move().mul(f_move()).mul(f_move()),
            Move::B => b_move(),
            Move::B2 => b_move().mul(b_move()),
            Move::B3 => b_move().mul(b_move()).mul(b_move()),
        };
        proof {
            assert(move_state@ == move_view(move_name));
        }
        self.mul(move_state)
    }

    /// The state after a whole sequence of moves, applied in order.
    pub fn apply_moves(&self, moves: &Vec<Move>) -> (r: CubieCube)
        requires
            self.wf(),
        ensures
            r@ == apply_seq(self@, moves@),
            r.wf(),
            crate::cubie::solvable(self@) ==> crate::cubie::solvable(r@),
    {
        proof {
            if crate::cubie::solvable(self@) {
                lemma_apply_seq_solvable(self@, moves@);
            }
        }
        let mut state = *self;
        let n = moves.len();
        for i in 0..n
            invariant
                n == moves@.len(),
                self.wf(),
                state.wf(),
                state@ == apply_seq(self@, moves@.take(i as int)),
        {
            state = state.apply_move(moves[i]);
            proof {
                let t = moves@.take(i + 1);
                assert(t.drop_last() =~= moves@.take(i as int));
                assert(t.last() == moves@[i as int]);
            }
        }
        proof {
            assert(moves@.take(n as int) =~= moves@);
        }
        state
    }

    /// The state that the given move sequence gives the solved cube.
    pub fn from_moves(moves: &Vec<Move>) -> (r: CubieCube)
        ensures
            r@ == apply_seq(solved_view(), moves@),
            r.wf(),
            crate::cubie::solvable(r@),
    {
        proof {
            lemma_solved_solvable();
            lemma_apply_seq_solvable(solved_view(), moves@);
        }
        CubieCube::solved().apply_moves(moves)
    }
}

/// Every move's state is a well-formed pair of permutations.
pub proof fn lemma_move_view_perm(m: Move)
    ensures
        move_view(m).wf(),
        no_dups(move_view(m).cp),
        no_dups(move_view(m).ep),
{
    lemma_move_view_wf(m);
    lemma_base_move_perms();
    let f = m.face();
    let base = if f == 0 {
        u_move_view()
    } else if f == 1 {
        d_move_view()
    } else if f == 2 {
        r_move_view()
    } else if f == 3 {
        l_move_view()
    } else if f == 4 {
        f_move_view()
    } else {
        b_move_view()
    };
    lemma_compose_no_dups(base, base);
    lemma_compose_wf(base, base);
    lemma_compose_no_dups(compose(base, base), base);
}

/// The six quarter-turn states are permutations.
pub proof fn lemma_base_move_perms()
    ensures
        no_dups(u_move_view().cp),
        no_dups(u_move_view().ep),
        no_dups(d_move_view().cp),
        no_dups(d_move_view().ep),
        no_dups(r_move_view().cp),
        no_dups(r_move_view().ep),
        no_dups(l_move_view().cp),
        no_dups(l_move_view().ep),
        no_dups(f_move_view().cp),
        no_dups(f_move_view().ep),
        no_dups(b_move_view().cp),
        no_dups(b_move_view().ep),
{
}

/// Applying a concatenation applies the two parts in order.
pub proof fn lemma_apply_seq_concat(v: CubeView, a: Seq<Move>, b: Seq<Move>)
    ensures
        apply_seq(v, a + b) == apply_seq(apply_seq(v, a), b),
    decreases b.len(),
{
    if b.len() == 0 {
        assert(a + b =~= a);
    } else {
        lemma_apply_seq_concat(v, a, b.drop_last());
        assert((a + b).drop_last() =~= a + b.drop_last());
        assert((a + b).last() == b.last());
        assert((a + b).len() == a.len() + b.len());
    }
}

/// Each move composed with its inverse is the identity.
#[verifier::rlimit(60)]
pub proof fn lemma_move_cancels(m: Move)
    ensures
        compose(move_view(m), move_view(m.spec_inverse())) == solved_view(),
{
    let u = u_move_view();
    let d = d_move_view();
    let r = r_move_view();
    let l = l_move_view();
    let f = f_move_view();
    let b = b_move_view();
    match m {
        Move::U | Move::U2 | Move::U3 => {
            assert(compose(u, compose(compose(u, u), u)) =~= solved_view());
            assert(compose(compose(u, u), compose(u, u)) =~= solved_view());
            assert(compose(compose(compose(u, u), u), u) =~= solved_view());
        },
        Move::D | Move::D2 | Move::D3 => {
            assert(compose(d, compose(compose(d, d), d)) =~= solved_view());
            assert(compose(compose(d, d), compose(d, d)) =~= solved_view());
            assert(compose(compose(compose(d, d), d), d) =~= solved_view());
        },
        Move::R | Move::R2 | Move::R3 => {
            assert(compose(r, compose(compose(r, r), r)) =~= solved_view());
            assert(compose(compose(r, r), compose(r, r)) =~= solved_view());
            assert(compose(compose(compose(r, r), r), r) =~= solved_view());
        },
        Move::L | Move::L2 | Move::L3 => {
            assert(compose(l, compose(compose(l, l), l)) =~= solved_view());
            assert(compose(compose(l, l), compose(l, l)) =~= solved_view());
            assert(compose(compose(compose(l, l), l), l) =~= solved_view());
        },
        Move::F | Move::F2 | Move::F3 => {
            assert(compose(f, compose(compose(f, f), f)) =~= solved_view());
            assert(compose(compose(f, f), compose(f, f)) =~= solved_view());
            assert(compose(compose(compose(f, f), f), f) =~= solved_view());
        },
        Move::B | Move::B2 | Move::B3 => {
            assert(compose(b, compose(compose(b, b), b)) =~= solved_view());
            assert(compose(compose(b, b), compose(b, b)) =~= solved_view());
            assert(compose(compose(compose(b, b), b), b) =~= solved_view());
        },
    }
}

/// Applying a move and then its inverse leaves a state unchanged.
pub proof fn lemma_apply_move_cancels(v: CubeView, m: Move)
    requires
        v.wf(),
    ensures
        compose(compose(v, move_view(m)), move_view(m.spec_inverse())) == v,
{
    lemma_move_view_wf(m);
    lemma_move_view_wf(m.spec_inverse());
    crate::cubie::lemma_compose_assoc(v, move_view(m), move_view(m.spec_inverse()));
    lemma_move_cancels(m);
    crate::cubie::lemma_compose_identity(v);
}

/// A move sequence played backwards, each move inverted.
pub open spec fn reversed_inverses(ms: Seq<Move>) -> Seq<Move> {
    Seq::new(ms.len(), |k: int| ms[ms.len() - 1 - k].spec_inverse())
}

/// Undoing a move sequence: playing it backwards with inverted moves
/// returns any well-formed state to where it started.
pub proof fn lemma_apply_seq_undo(v: CubeView, ms: Seq<Move>)
    requires
        v.wf(),
    ensures
        apply_seq(apply_seq(v, ms), reversed_inverses(ms)) == v,
    decreases ms.len(),
{
    if ms.len() == 0 {
        assert(reversed_inverses(ms) =~= Seq::<Move>::empty());
    } else {
        let front = ms.drop_last();
        let m = ms.last();
        let a = apply_seq(v, front);
        lemma_apply_seq_wf(v, front);
        assert(apply_seq(v, ms) == compose(a, move_view(m)));
        let single = seq![m.spec_inverse()];
        assert(reversed_inverses(ms) =~= single + reversed_inverses(front));
        lemma_apply_seq_concat(apply_seq(v, ms), single, reversed_inverses(front));
        assert(apply_seq(apply_seq(v, ms), single) == compose(
            compose(a, move_view(m)),
            move_view(m.spec_inverse()),
        )) by {
            assert(single.len() == 1);
            assert(single.last() == m.spec_inverse());
            assert(single.drop_last() =~= Seq::<Move>::empty());
            assert(apply_seq(apply_seq(v, ms), single.drop_last()) == apply_seq(v, ms));
        }
        lemma_apply_move_cancels(a, m);
        lemma_apply_seq_undo(v, front);
        assert(apply_seq(apply_seq(v, ms), reversed_inverses(ms)) == apply_seq(
            a,
            reversed_inverses(front),
        ));
        assert(apply_seq(a, reversed_inverses(front)) == apply_seq(
            apply_seq(v, front),
            reversed_inverses(front),
        ));
    }
}

proof fn lemma_u_solvable()
    ensures
        crate::cubie::solvable(u_move_view()),
{
    reveal_with_fuel(crate::cubie::seq_sum, 14);
    reveal_with_fuel(crate::index::inv_from, 14);
    reveal_with_fuel(crate::index::cnt_below, 14);
    let v = u_move_view();
    assert(crate::cubie::seq_sum(v.co) == 0);
    assert(crate::cubie::seq_sum(v.eo) == 0);
    assert(crate::index::inv_from(v.cp, 0) == 3);
    assert(crate::index::inv_from(v.ep, 0) == 3);
    crate::index::lemma_swap_count_inv_parity(v.cp, 0);
    crate::index::lemma_swap_count_inv_parity(v.ep, 0);
    crate::index::lemma_parity_match(
        crate::cubie::swap_count(v.cp, 0),
        crate::cubie::swap_count(v.ep, 0),
        3,
        3,
    );
}


proof fn lemma_d_solvable()
    ensures
        crate::cubie::solvable(d_move_view()),
{
    reveal_with_fuel(crate::cubie::seq_sum, 14);
    reveal_with_fuel(crate::index::inv_from, 14);
    reveal_with_fuel(crate::index::cnt_below, 14);
    let v = d_move_view();
    assert(crate::cubie::seq_sum(v.co) == 0);
    assert(crate::cubie::seq_sum(v.eo) == 0);
    assert(crate::index::inv_from(v.cp, 0) == 3);
    assert(crate::index::inv_from(v.ep, 0) == 3);
    crate::index::lemma_swap_count_inv_parity(v.cp, 0);
    crate::index::lemma_swap_count_inv_parity(v.ep, 0);
    crate::index::lemma_parity_match(
        crate::cubie::swap_count(v.cp, 0),
        crate::cubie::swap_count(v.ep, 0),
        3,
        3,
    );
}


proof fn lemma_r_solvable()
    ensures
        crate::cubie::solvable(r_move_view()),
{
    reveal_with_fuel(crate::cubie::seq_sum, 14);
    reveal_with_fuel(crate::index::inv_from, 14);
    reveal_with_fuel(crate::index::cnt_below, 14);
    let v = r_move_view();
    assert(crate::cubie::seq_sum(v.co) == 6);
    assert(crate::cubie::seq_sum(v.eo) == 0);
    assert(crate::index::inv_from(v.cp, 0) == 7);
    assert(crate::index::inv_from(v.ep, 0) == 19);
    crate::index::lemma_swap_count_inv_parity(v.cp, 0);
    crate::index::lemma_swap_count_inv_parity(v.ep, 0);
    crate::index::lemma_parity_match(
        crate::cubie::swap_count(v.cp, 0),
        crate::cubie::swap_count(v.ep, 0),
        7,
        19,
    );
}


proof fn lemma_l_solvable()
    ensures
        crate::cubie::solvable(l_move_view()),
{
    reveal_with_fuel(crate::cubie::seq_sum, 14);
    reveal_with_fuel(crate::index::inv_from, 14);
    reveal_with_fuel(crate::index::cnt_below, 14);
    let v = l_move_view();
    assert(crate::cubie::seq_sum(v.co) == 6);
    assert(crate::cubie::seq_sum(v.eo) == 0);
    assert(crate::index::inv_from(v.cp, 0) == 11);
    assert(crate::index::inv_from(v.ep, 0) == 27);
    crate::index::lemma_swap_count_inv_parity(v.cp, 0);
    crate::index::lemma_swap_count_inv_parity(v.ep, 0);
    crate::index::lemma_parity_match(
        crate::cubie::swap_count(v.cp, 0),
        crate::cubie::swap_count(v.ep, 0),
        11,
        27,
    );
}


proof fn lemma_f_solvable()
    ensures
        crate::cubie::solvable(f_move_view()),
{
    reveal_with_fuel(crate::cubie::seq_sum, 14);
    reveal_with_fuel(crate::index::inv_from, 14);
    reveal_with_fuel(crate::index::cnt_below, 14);
    let v = f_move_view();
    assert(crate::cubie::seq_sum(v.co) == 6);
    assert(crate::cubie::seq_sum(v.eo) == 4);
    assert(crate::index::inv_from(v.cp, 0) == 3);
    assert(crate::index::inv_from(v.ep, 0) == 15);
    crate::index::lemma_swap_count_inv_parity(v.cp, 0);
    crate::index::lemma_swap_count_inv_parity(v.ep, 0);
    crate::index::lemma_parity_match(
        crate::cubie::swap_count(v.cp, 0),
        crate::cubie::swap_count(v.ep, 0),
        3,
        15,
    );
}


proof fn lemma_b_solvable()
    ensures
        crate::cubie::solvable(b_move_view()),
{
    reveal_with_fuel(crate::cubie::seq_sum, 14);
    reveal_with_fuel(crate::index::inv_from, 14);
    reveal_with_fuel(crate::index::cnt_below, 14);
    let v = b_move_view();
    assert(crate::cubie::seq_sum(v.co) == 6);
    assert(crate::cubie::seq_sum(v.eo) == 4);
    assert(crate::index::inv_from(v.cp, 0) == 11);
    assert(crate::index::inv_from(v.ep, 0) == 23);
    crate::index::lemma_swap_count_inv_parity(v.cp, 0);
    crate::index::lemma_swap_count_inv_parity(v.ep, 0);
    crate::index::lemma_parity_match(
        crate::cubie::swap_count(v.cp, 0),
        crate::cubie::swap_count(v.ep, 0),
        11,
        23,
    );
}

/// The solved state is solvable: identity permutations, zero orientations.
pub proof fn lemma_solved_solvable()
    ensures
        crate::cubie::solvable(solved_view()),
{
    reveal_with_fuel(crate::cubie::seq_sum, 14);
    let v = solved_view();
    assert(v.co =~= seq![0, 0, 0, 0, 0, 0, 0, 0]);
    assert(v.eo =~= seq![0, 0, 0, 0, 0, 0, 0, 0, 0, 0, 0, 0]);
    assert(crate::cubie::seq_sum(v.co) == 0);
    assert(crate::cubie::seq_sum(v.eo) == 0);
    lemma_swap_count_identity(v.cp, 0);
    lemma_swap_count_identity(v.ep, 0);
}

proof fn lemma_swap_count_identity(p: Seq<int>, i: int)
    requires
        0 <= i,
        forall|t: int| i <= t < p.len() ==> #[trigger] p[t] == t,
    ensures
        crate::cubie::swap_count(p, i) == 0,
    decreases p.len() - i,
{
    if i < p.len() {
        lemma_swap_count_identity(p, i + 1);
    }
}

/// Every move's state is solvable.
pub proof fn lemma_move_view_solvable(m: Move)
    ensures
        crate::cubie::solvable(move_view(m)),
{
    lemma_u_solvable();
    lemma_d_solvable();
    lemma_r_solvable();
    lemma_l_solvable();
    lemma_f_solvable();
    lemma_b_solvable();
    match m {
        Move::U | Move::D | Move::R | Move::L | Move::F | Move::B => {
        },
        Move::U2 => {
            crate::index::lemma_compose_solvable(u_move_view(), u_move_view());
        },
        Move::U3 => {
            crate::index::lemma_compose_solvable(u_move_view(), u_move_view());
            crate::index::lemma_compose_solvable(
                compose(u_move_view(), u_move_view()),
                u_move_view(),
            );
        },
        Move::D2 => {
            crate::index::lemma_compose_solvable(d_move_view(), d_move_view());
        },
        Move::D3 => {
            crate::index::lemma_compose_solvable(d_move_view(), d_move_view());
            crate::index::lemma_compose_solvable(
                compose(d_move_view(), d_move_view()),
                d_move_view(),
            );
        },
        Move::R2 => {
            crate::index::lemma_compose_solvable(r_move_view(), r_move_view());
        },
        Move::R3 => {
            crate::index::lemma_compose_solvable(r_move_view(), r_move_view());
            crate::index::lemma_compose_solvable(
                compose(r_move_view(), r_move_view()),
                r_move_view(),
            );
        },
        Move::L2 => {
            crate::index::lemma_compose_solvable(l_move_view(), l_move_view());
        },
        Move::L3 => {
            crate::index::lemma_compose_solvable(l_move_view(), l_move_view());
            crate::index::lemma_compose_solvable(
                compose(l_move_view(), l_move_view()),
                l_move_view(),
            );
        },
        Move::F2 => {
            crate::index::lemma_compose_solvable(f_move_view(), f_move_view());
        },
        Move::F3 => {
            crate::index::lemma_compose_solvable(f_move_view(), f_move_view());
            crate::index::lemma_compose_solvable(
                compose(f_move_view(), f_move_view()),
                f_move_view(),
            );
        },
        Move::B2 => {
            crate::index::lemma_compose_solvable(b_move_view(), b_move_view());
        },
        Move::B3 => {
            crate::index::lemma_compose_solvable(b_move_view(), b_move_view());
            crate::index::lemma_compose_solvable(
                compose(b_move_view(), b_move_view()),
                b_move_view(),
            );
        },
    }
}

/// A solvable state stays solvable under any sequence of moves.
pub proof fn lemma_apply_seq_solvable(v: CubeView, ms: Seq<Move>)
    requires
        crate::cubie::solvable(v),
    ensures
        crate::cubie::solvable(apply_seq(v, ms)),
    decreases ms.len(),
{
    if ms.len() > 0 {
        lemma_apply_seq_solvable(v, ms.drop_last());
        lemma_move_view_solvable(ms.last());
        crate::index::lemma_compose_solvable(apply_seq(v, ms.drop_last()), move_view(ms.last()));
    }
}

} // verus!
