//! Coordinate move tables: for each coordinate, a two-dimensional array
//! giving the coordinate reached from index `i` by move `j`. Built by
//! decoding each index to a cubie state, applying each permitted move, and
//! re-encoding the result.

use vstd::prelude::*;

use crate::cubie::{compose, ints, solved_view, CubeView, CubieCube};
use crate::index::{
    co_to_index, combo_decoded, combo_rank, cp_to_index, e_combo_to_index, e_ep_decoded,
    e_ep_to_index, edge_ints, eo_to_index, index_to_co, index_to_cp, index_to_e_combo,
    index_to_e_ep, index_to_eo, index_to_ud_ep, lehmer_rank, occ_ints, ori_decoded, ori_rank,
    ud_ep_decoded, ud_ep_to_index,
};
use crate::moves::{lemma_move_view_perm, move_view, Move};

verus! {

broadcast use vstd::array::group_array_axioms;

/// The fixed order in which phase 1 tries the 18 moves.
pub open spec fn nth_move(j: int) -> Move {
    if j == 0 {
        Move::U
    } else if j == 1 {
        Move::U2
    } else if j == 2 {
        Move::U3
    } else if j == 3 {
        Move::D
    } else if j == 4 {
        Move::D2
    } else if j == 5 {
        Move::D3
    } else if j == 6 {
        Move::R
    } else if j == 7 {
        Move::R2
    } else if j == 8 {
        Move::R3
    } else if j == 9 {
        Move::L
    } else if j == 10 {
        Move::L2
    } else if j == 11 {
        Move::L3
    } else if j == 12 {
        Move::F
    } else if j == 13 {
        Move::F2
    } else if j == 14 {
        Move::F3
    } else if j == 15 {
        Move::B
    } else if j == 16 {
        Move::B2
    } else {
        Move::B3
    }
}

/// The fixed order in which phase 2 tries its 10 moves: the moves that
/// preserve membership in the subgroup G1.
pub open spec fn nth_phase2_move(j: int) -> Move {
    if j == 0 {
        Move::U
    } else if j == 1 {
        Move::U2
    } else if j == 2 {
        Move::U3
    } else if j == 3 {
        Move::D
    } else if j == 4 {
        Move::D2
    } else if j == 5 {
        Move::D3
    } else if j == 6 {
        Move::R2
    } else if j == 7 {
        Move::L2
    } else if j == 8 {
        Move::F2
    } else {
        Move::B2
    }
}

/// The phase-1 move with the given index.
pub fn move_from_index(j: usize) -> (m: Move)
    requires
        j < 18,
    ensures
        m == nth_move(j as int),
{
    match j {
        0 => Move::U,
        1 => Move::U2,
        2 => Move::U3,
        3 => Move::D,
        4 => Move::D2,
        5 => Move::D3,
        6 => Move::R,
        7 => Move::R2,
        8 => Move::R3,
        9 => Move::L,
        10 => Move::L2,
        11 => Move::L3,
        12 => Move::F,
        13 => Move::F2,
        14 => Move::F3,
        15 => Move::B,
        16 => Move::B2,
        _ => Move::B3,
    }
}

/// Whether a move belongs to the 10-move phase-2 set: U and D turns, and
/// the half turns of the other four faces.
pub open spec fn is_phase2_move(m: Move) -> bool {
    ||| m.face() <= 1
    ||| m == Move::R2
    ||| m == Move::L2
    ||| m == Move::F2
    ||| m == Move::B2
}

/// The phase-2 move with the given index.
pub fn phase2_move_from_index(j: usize) -> (m: Move)
    requires
        j < 10,
    ensures
        m == nth_phase2_move(j as int),
        is_phase2_move(m),
{
    match j {
        0 => Move::U,
        1 => Move::U2,
        2 => Move::U3,
        3 => Move::D,
        4 => Move::D2,
        5 => Move::D3,
        6 => Move::R2,
        7 => Move::L2,
        8 => Move::F2,
        _ => Move::B2,
    }
}

/// The state a corner-orientation index names: the decoded twists on an
/// otherwise solved cube.
pub open spec fn co_state(i: int) -> CubeView {
    CubeView {
        cp: solved_view().cp,
        co: ori_decoded(3, 7, i),
        ep: solved_view().ep,
        eo: solved_view().eo,
    }
}

/// The state an edge-orientation index names.
pub open spec fn eo_state(i: int) -> CubeView {
    CubeView {
        cp: solved_view().cp,
        co: solved_view().co,
        ep: solved_view().ep,
        eo: ori_decoded(2, 11, i),
    }
}

/// The state an E-combination index names.
pub open spec fn e_combo_state(i: int) -> CubeView {
    CubeView {
        cp: solved_view().cp,
        co: solved_view().co,
        ep: combo_decoded(i),
        eo: solved_view().eo,
    }
}

/// The state a corner-permutation index names.
pub open spec fn cp_state(i: int) -> CubeView {
    CubeView {
        cp: crate::index::cp_decoded(i),
        co: solved_view().co,
        ep: solved_view().ep,
        eo: solved_view().eo,
    }
}

/// The state a UD-edge index names.
pub open spec fn ud_ep_state(i: int) -> CubeView {
    CubeView {
        cp: solved_view().cp,
        co: solved_view().co,
        ep: ud_ep_decoded(i),
        eo: solved_view().eo,
    }
}

/// The state an E-slice permutation index names.
pub open spec fn e_ep_state(i: int) -> CubeView {
    CubeView {
        cp: solved_view().cp,
        co: solved_view().co,
        ep: e_ep_decoded(i),
        eo: solved_view().eo,
    }
}

/// Row `i`, column `j` of the CO move table: the CO coordinate after
/// applying move `j` to the state index `i` names.
pub open spec fn co_move_entry(i: int, j: int) -> int {
    ori_rank(compose(co_state(i), move_view(nth_move(j))).co.take(7), 3)
}

/// Row `i`, column `j` of the EO move table.
pub open spec fn eo_move_entry(i: int, j: int) -> int {
    ori_rank(compose(eo_state(i), move_view(nth_move(j))).eo.take(11), 2)
}

/// Row `i`, column `j` of the E-combination move table.
pub open spec fn e_combo_move_entry(i: int, j: int) -> int {
    combo_rank(occ_ints(compose(e_combo_state(i), move_view(nth_move(j))).ep), 12, 4)
}

/// Row `i`, column `j` of the CP move table (phase-2 moves).
pub open spec fn cp_move_entry(i: int, j: int) -> int {
    lehmer_rank(compose(cp_state(i), move_view(nth_phase2_move(j))).cp)
}

/// Row `i`, column `j` of the UD-edge move table (phase-2 moves).
pub open spec fn ud_ep_move_entry(i: int, j: int) -> int {
    lehmer_rank(compose(ud_ep_state(i), move_view(nth_phase2_move(j))).ep.subrange(4, 12))
}

/// Row `i`, column `j` of the E-slice permutation move table (phase-2
/// moves).
pub open spec fn e_ep_move_entry(i: int, j: int) -> int {
    lehmer_rank(compose(e_ep_state(i), move_view(nth_phase2_move(j))).ep.subrange(0, 4))
}

/// Shape and content of the CO move table.
pub open spec fn co_table_wf(t: Seq<Vec<u16>>) -> bool {
    &&& t.len() == 2187
    &&& (forall|i: int| 0 <= i < 2187 ==> (#[trigger] t[i])@.len() == 18)
    &&& (forall|i: int, j: int|
        0 <= i < 2187 && 0 <= j < 18 ==> (#[trigger] t[i]@[j]) < 2187 && t[i]@[j] as int
            == co_move_entry(i, j))
}

/// Shape and content of the EO move table.
pub open spec fn eo_table_wf(t: Seq<Vec<u16>>) -> bool {
    &&& t.len() == 2048
    &&& (forall|i: int| 0 <= i < 2048 ==> (#[trigger] t[i])@.len() == 18)
    &&& (forall|i: int, j: int|
        0 <= i < 2048 && 0 <= j < 18 ==> (#[trigger] t[i]@[j]) < 2048 && t[i]@[j] as int
            == eo_move_entry(i, j))
}

/// Shape and content of the E-combination move table.
pub open spec fn e_combo_table_wf(t: Seq<Vec<u16>>) -> bool {
    &&& t.len() == 495
    &&& (forall|i: int| 0 <= i < 495 ==> (#[trigger] t[i])@.len() == 18)
    &&& (forall|i: int, j: int|
        0 <= i < 495 && 0 <= j < 18 ==> (#[trigger] t[i]@[j]) < 495 && t[i]@[j] as int
            == e_combo_move_entry(i, j))
}

/// Shape and content of the CP move table.
pub open spec fn cp_table_wf(t: Seq<Vec<u16>>) -> bool {
    &&& t.len() == 40320
    &&& (forall|i: int| 0 <= i < 40320 ==> (#[trigger] t[i])@.len() == 10)
    &&& (forall|i: int, j: int|
        0 <= i < 40320 && 0 <= j < 10 ==> (#[trigger] t[i]@[j]) < 40320 && t[i]@[j] as int
            == cp_move_entry(i, j))
}

/// Shape and content of the UD-edge move table.
pub open spec fn ud_ep_table_wf(t: Seq<Vec<u16>>) -> bool {
    &&& t.len() == 40320
    &&& (forall|i: int| 0 <= i < 40320 ==> (#[trigger] t[i])@.len() == 10)
    &&& (forall|i: int, j: int|
        0 <= i < 40320 && 0 <= j < 10 ==> (#[trigger] t[i]@[j]) < 40320 && t[i]@[j] as int
            == ud_ep_move_entry(i, j))
}

/// Shape and content of the E-slice permutation move table.
pub open spec fn e_ep_table_wf(t: Seq<Vec<u16>>) -> bool {
    &&& t.len() == 24
    &&& (forall|i: int| 0 <= i < 24 ==> (#[trigger] t[i])@.len() == 10)
    &&& (forall|i: int, j: int|
        0 <= i < 24 && 0 <= j < 10 ==> (#[trigger] t[i]@[j]) < 24 && t[i]@[j] as int
            == e_ep_move_entry(i, j))
}

/// Build the corner-orientation move table.
pub fn get_co_table() -> (t: Vec<Vec<u16>>)
    ensures
        co_table_wf(t@),
{
    let mut t: Vec<Vec<u16>> = Vec::new();
    for i in 0..2187usize
        invariant
            t@.len() == i,
            forall|a: int| 0 <= a < i ==> (#[trigger] t@[a])@.len() == 18,
            forall|a: int, b: int|
                0 <= a < i && 0 <= b < 18 ==> (#[trigger] t@[a]@[b]) < 2187 && t@[a]@[b] as int
                    == co_move_entry(a, b),
    {
        let base = CubieCube::solved();
        let co = index_to_co(i as u16);
        let state = CubieCube { cp: base.cp, co, ep: base.ep, eo: base.eo };
        proof {
            assert(state@.cp =~= co_state(i as int).cp);
            assert(state@.co =~= ints(co@));
            assert(state@.ep =~= co_state(i as int).ep);
            assert(state@.eo =~= co_state(i as int).eo);
            assert(state@ =~= co_state(i as int));
            assert(state.wf());
        }
        let mut row: Vec<u16> = Vec::new();
        for j in 0..18usize
            invariant
                row@.len() == j,
                i < 2187,
                state@ == co_state(i as int),
                state.wf(),
                forall|b: int|
                    0 <= b < j ==> (#[trigger] row@[b]) < 2187 && row@[b] as int == co_move_entry(
                        i as int,
                        b,
                    ),
        {
            let m = move_from_index(j);
            let ns = state.apply_move(m);
            proof {
                assert forall|k: int| 0 <= k < 7 implies ns.co@[k] < 3 by {
                    assert(ns@.co[k] == ns.co@[k] as int);
                    assert(ns@.co[k] < 3);
                }
            }
            let v = co_to_index(&ns.co);
            proof {
                assert(ints(ns.co@) =~= ns@.co);
                assert(v as int == co_move_entry(i as int, j as int));
            }
            row.push(v);
        }
        t.push(row);
    }
    t
}

/// Build the edge-orientation move table.
pub fn get_eo_table() -> (t: Vec<Vec<u16>>)
    ensures
        eo_table_wf(t@),
{
    let mut t: Vec<Vec<u16>> = Vec::new();
    for i in 0..2048usize
        invariant
            t@.len() == i,
            forall|a: int| 0 <= a < i ==> (#[trigger] t@[a])@.len() == 18,
            forall|a: int, b: int|
                0 <= a < i && 0 <= b < 18 ==> (#[trigger] t@[a]@[b]) < 2048 && t@[a]@[b] as int
                    == eo_move_entry(a, b),
    {
        let base = CubieCube::solved();
        let eo = index_to_eo(i as u16);
        let state = CubieCube { cp: base.cp, co: base.co, ep: base.ep, eo };
        proof {
            assert(state@.cp =~= eo_state(i as int).cp);
            assert(state@.co =~= eo_state(i as int).co);
            assert(state@.ep =~= eo_state(i as int).ep);
            assert(state@.eo =~= ints(eo@));
            assert(state@ =~= eo_state(i as int));
            assert(state.wf());
        }
        let mut row: Vec<u16> = Vec::new();
        for j in 0..18usize
            invariant
                row@.len() == j,
                i < 2048,
                state@ == eo_state(i as int),
                state.wf(),
                forall|b: int|
                    0 <= b < j ==> (#[trigger] row@[b]) < 2048 && row@[b] as int == eo_move_entry(
                        i as int,
                        b,
                    ),
        {
            let m = move_from_index(j);
            let ns = state.apply_move(m);
            proof {
                assert forall|k: int| 0 <= k < 11 implies ns.eo@[k] < 2 by {
                    assert(ns@.eo[k] == ns.eo@[k] as int);
                    assert(ns@.eo[k] < 2);
                }
            }
            let v = eo_to_index(&ns.eo);
            proof {
                assert(ints(ns.eo@) =~= ns@.eo);
                assert(v as int == eo_move_entry(i as int, j as int));
            }
            row.push(v);
        }
        t.push(row);
    }
    t
}

/// Build the E-combination move table.
pub fn get_e_combo_table() -> (t: Vec<Vec<u16>>)
    ensures
        e_combo_table_wf(t@),
{
    let mut t: Vec<Vec<u16>> = Vec::new();
    for i in 0..495usize
        invariant
            t@.len() == i,
            forall|a: int| 0 <= a < i ==> (#[trigger] t@[a])@.len() == 18,
            forall|a: int, b: int|
                0 <= a < i && 0 <= b < 18 ==> (#[trigger] t@[a]@[b]) < 495 && t@[a]@[b] as int
                    == e_combo_move_entry(a, b),
    {
        let base = CubieCube::solved();
        let ep = index_to_e_combo(i as u16);
        let state = CubieCube { cp: base.cp, co: base.co, ep, eo: base.eo };
        proof {
            assert(state@.cp =~= e_combo_state(i as int).cp);
            assert(state@.co =~= e_combo_state(i as int).co);
            assert(state@.ep =~= edge_ints(ep@));
            assert(state@.eo =~= e_combo_state(i as int).eo);
            assert(state@ =~= e_combo_state(i as int));
            assert(state.wf());
            assert(occ_ints(state@.ep) =~= crate::index::e_occ(ep@));
        }
        let mut row: Vec<u16> = Vec::new();
        for j in 0..18usize
            invariant
                row@.len() == j,
                i < 495,
                state@ == e_combo_state(i as int),
                state.wf(),
                crate::index::count_true(occ_ints(state@.ep), 12) == 4,
                forall|b: int|
                    0 <= b < j ==> (#[trigger] row@[b]) < 495 && row@[b] as int
                        == e_combo_move_entry(i as int, b),
        {
            let m = move_from_index(j);
            let ns = state.apply_move(m);
            proof {
                let a = state@;
                let bb = move_view(nth_move(j as int));
                lemma_move_view_perm(nth_move(j as int));
                let occa = occ_ints(a.ep);
                let comp = Seq::new(12, |k: int| occa[bb.ep[k]]);
                assert(occ_ints(ns@.ep) =~= comp);
                crate::index::lemma_count_true_perm(occa, bb.ep, 12);
                assert(crate::index::count_true(occ_ints(ns@.ep), 12) == 4);
                assert(crate::index::e_occ(ns.ep@) =~= occ_ints(ns@.ep));
            }
            let v = e_combo_to_index(&ns.ep);
            proof {
                assert(v as int == e_combo_move_entry(i as int, j as int));
            }
            row.push(v);
        }
        t.push(row);
    }
    t
}

/// Build the corner-permutation move table.
pub fn get_cp_table() -> (t: Vec<Vec<u16>>)
    ensures
        cp_table_wf(t@),
{
    let mut t: Vec<Vec<u16>> = Vec::new();
    for i in 0..40320usize
        invariant
            t@.len() == i,
            forall|a: int| 0 <= a < i ==> (#[trigger] t@[a])@.len() == 10,
            forall|a: int, b: int|
                0 <= a < i && 0 <= b < 10 ==> (#[trigger] t@[a]@[b]) < 40320 && t@[a]@[b] as int
                    == cp_move_entry(a, b),
    {
        let base = CubieCube::solved();
        let cp = index_to_cp(i as u16);
        let state = CubieCube { cp, co: base.co, ep: base.ep, eo: base.eo };
        proof {
            assert(state@.cp =~= crate::index::corner_ints(cp@));
            assert(state@.co =~= cp_state(i as int).co);
            assert(state@.ep =~= cp_state(i as int).ep);
            assert(state@.eo =~= cp_state(i as int).eo);
            assert(state@ =~= cp_state(i as int));
            assert(state.wf());
        }
        let mut row: Vec<u16> = Vec::new();
        for j in 0..10usize
            invariant
                row@.len() == j,
                i < 40320,
                state@ == cp_state(i as int),
                state.wf(),
                forall|b: int|
                    0 <= b < j ==> (#[trigger] row@[b]) < 40320 && row@[b] as int == cp_move_entry(
                        i as int,
                        b,
                    ),
        {
            let m = phase2_move_from_index(j);
            let ns = state.apply_move(m);
            let v = cp_to_index(&ns.cp);
            proof {
                assert(crate::index::corner_ints(ns.cp@) =~= ns@.cp);
                assert(v as int == cp_move_entry(i as int, j as int));
            }
            row.push(v);
        }
        t.push(row);
    }
    t
}

/// Build the UD-edge move table.
pub fn get_ud_ep_table() -> (t: Vec<Vec<u16>>)
    ensures
        ud_ep_table_wf(t@),
{
    let mut t: Vec<Vec<u16>> = Vec::new();
    for i in 0..40320usize
        invariant
            t@.len() == i,
            forall|a: int| 0 <= a < i ==> (#[trigger] t@[a])@.len() == 10,
            forall|a: int, b: int|
                0 <= a < i && 0 <= b < 10 ==> (#[trigger] t@[a]@[b]) < 40320 && t@[a]@[b] as int
                    == ud_ep_move_entry(a, b),
    {
        let base = CubieCube::solved();
        let ep = index_to_ud_ep(i as u16);
        let state = CubieCube { cp: base.cp, co: base.co, ep, eo: base.eo };
        proof {
            assert(state@.cp =~= ud_ep_state(i as int).cp);
            assert(state@.co =~= ud_ep_state(i as int).co);
            assert(state@.ep =~= edge_ints(ep@));
            assert(state@.eo =~= ud_ep_state(i as int).eo);
            assert(state@ =~= ud_ep_state(i as int));
            assert(state.wf());
        }
        let mut row: Vec<u16> = Vec::new();
        for j in 0..10usize
            invariant
                row@.len() == j,
                i < 40320,
                state@ == ud_ep_state(i as int),
                state.wf(),
                forall|b: int|
                    0 <= b < j ==> (#[trigger] row@[b]) < 40320 && row@[b] as int
                        == ud_ep_move_entry(i as int, b),
        {
            let m = phase2_move_from_index(j);
            let ns = state.apply_move(m);
            let v = ud_ep_to_index(&ns.ep);
            proof {
                assert(edge_ints(ns.ep@) =~= ns@.ep);
                assert(edge_ints(ns.ep@).subrange(4, 12) =~= ns@.ep.subrange(4, 12));
                assert(v as int == ud_ep_move_entry(i as int, j as int));
            }
            row.push(v);
        }
        t.push(row);
    }
    t
}

/// Build the E-slice permutation move table.
pub fn get_e_ep_table() -> (t: Vec<Vec<u16>>)
    ensures
        e_ep_table_wf(t@),
{
    let mut t: Vec<Vec<u16>> = Vec::new();
    for i in 0..24usize
        invariant
            t@.len() == i,
            forall|a: int| 0 <= a < i ==> (#[trigger] t@[a])@.len() == 10,
            forall|a: int, b: int|
                0 <= a < i && 0 <= b < 10 ==> (#[trigger] t@[a]@[b]) < 24 && t@[a]@[b] as int
                    == e_ep_move_entry(a, b),
    {
        let base = CubieCube::solved();
        let ep = index_to_e_ep(i as u16);
        let state = CubieCube { cp: base.cp, co: base.co, ep, eo: base.eo };
        proof {
            assert(state@.cp =~= e_ep_state(i as int).cp);
            assert(state@.co =~= e_ep_state(i as int).co);
            assert(state@.ep =~= edge_ints(ep@));
            assert(state@.eo =~= e_ep_state(i as int).eo);
            assert(state@ =~= e_ep_state(i as int));
            assert(state.wf());
        }
        let mut row: Vec<u16> = Vec::new();
        for j in 0..10usize
            invariant
                row@.len() == j,
                i < 24,
                state@ == e_ep_state(i as int),
                state.wf(),
                forall|b: int|
                    0 <= b < j ==> (#[trigger] row@[b]) < 24 && row@[b] as int == e_ep_move_entry(
                        i as int,
                        b,
                    ),
        {
            let m = phase2_move_from_index(j);
            let ns = state.apply_move(m);
            let v = e_ep_to_index(&ns.ep);
            proof {
                assert(edge_ints(ns.ep@) =~= ns@.ep);
                assert(edge_ints(ns.ep@).subrange(0, 4) =~= ns@.ep.subrange(0, 4));
                assert(v as int == e_ep_move_entry(i as int, j as int));
            }
            row.push(v);
        }
        t.push(row);
    }
    t
}

/// The collection of move tables the two-phase solver navigates on.
pub struct MoveTable {
    pub co: Vec<Vec<u16>>,
    pub eo: Vec<Vec<u16>>,
    pub e_combo: Vec<Vec<u16>>,
    pub cp: Vec<Vec<u16>>,
    pub ep: Vec<Vec<u16>>,
    pub e_ep: Vec<Vec<u16>>,
}

impl MoveTable {
    /// Shapes and entry ranges alone: what a collection of tables loaded
    /// from bytes can be checked to satisfy, and all the search needs for
    /// safe navigation.
    pub open spec fn wf_dims(self) -> bool {
        &&& crate::pruning::moves_dims(self.co@, 2187, 18)
        &&& crate::pruning::moves_dims(self.eo@, 2048, 18)
        &&& crate::pruning::moves_dims(self.e_combo@, 495, 18)
        &&& crate::pruning::moves_dims(self.cp@, 40320, 10)
        &&& crate::pruning::moves_dims(self.ep@, 40320, 10)
        &&& crate::pruning::moves_dims(self.e_ep@, 24, 10)
    }

    /// Exact contents imply the shape conditions.
    pub proof fn lemma_wf_implies_dims(self)
        requires
            self.wf(),
        ensures
            self.wf_dims(),
    {
    }

    /// All six tables have their shape and exact contents.
    pub open spec fn wf(self) -> bool {
        &&& co_table_wf(self.co@)
        &&& eo_table_wf(self.eo@)
        &&& e_combo_table_wf(self.e_combo@)
        &&& cp_table_wf(self.cp@)
        &&& ud_ep_table_wf(self.ep@)
        &&& e_ep_table_wf(self.e_ep@)
    }

    /// Build all six move tables.
    pub fn new() -> (r: MoveTable)
        ensures
            r.wf(),
            r.wf_dims(),
    {
        let r = MoveTable {
            co: get_co_table(),
            eo: get_eo_table(),
            e_combo: get_e_combo_table(),
            cp: get_cp_table(),
            ep: get_ud_ep_table(),
            e_ep: get_e_ep_table(),
        };
        proof {
            r.lemma_wf_implies_dims();
        }
        r
    }
}

impl Default for MoveTable {
    fn default() -> (r: MoveTable)
        ensures
            r.wf(),
    {
        MoveTable::new()
    }
}

/// The 18 phase-1 moves in their fixed order.
pub fn all_moves_vec() -> (r: Vec<Move>)
    ensures
        r@.len() == 18,
        forall|j: int| 0 <= j < 18 ==> r@[j] == nth_move(j),
{
    let mut r: Vec<Move> = Vec::new();
    for j in 0..18
        invariant
            r@.len() == j,
            forall|b: int| 0 <= b < j ==> r@[b] == nth_move(b),
    {
        r.push(move_from_index(j));
    }
    r
}

/// The 10 phase-2 moves in their fixed order.
pub fn phase2_moves_vec() -> (r: Vec<Move>)
    ensures
        r@.len() == 10,
        forall|j: int| 0 <= j < 10 ==> r@[j] == nth_phase2_move(j),
{
    let mut r: Vec<Move> = Vec::new();
    for j in 0..10
        invariant
            r@.len() == j,
            forall|b: int| 0 <= b < j ==> r@[b] == nth_phase2_move(b),
    {
        r.push(phase2_move_from_index(j));
    }
    r
}

} // verus!
