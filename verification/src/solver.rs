//! The two-phase search: iterative-deepening depth-first search that drives
//! an arbitrary solvable state into the subgroup G1 and then to the solved
//! state, walking coordinates through the move tables and cutting branches
//! with the pruning tables. Every candidate solution is checked on the
//! cubie level before it is recorded, so whatever the solver returns
//! provably solves the input state.

use vstd::prelude::*;

use crate::cubie::{solvable, solved_view, CubieCube};
use crate::index::{
    co_to_index, cp_to_index, e_combo_to_index, e_ep_to_index, eo_to_index,
    lemma_perm_has_four_e_edges, occ_ints, ud_ep_to_index,
};
use crate::moves::{apply_seq, is_move_available, lemma_apply_seq_concat, Move};
use crate::pruning::PruningTable;
use crate::table::{is_phase2_move, move_from_index, phase2_move_from_index, MoveTable};

verus! {

#[verifier::external_type_specification]
#[verifier::external_body]
pub struct ExInstant(std::time::Instant);

/// Relies on std::time::Instant::now: an opaque monotonic timestamp.
#[verifier::external_body]
fn instant_now() -> (r: std::time::Instant) {
    std::time::Instant::now()
}

/// Relies on std::time::Instant::elapsed: the time since the timestamp.
/// The value depends on the clock, so nothing is promised of it.
#[verifier::external_body]
fn instant_elapsed(start: &std::time::Instant) -> (r: core::time::Duration) {
    start.elapsed()
}

/// Relies on core::time::Duration::as_millis: the duration in whole
/// milliseconds.
#[verifier::external_body]
fn duration_as_millis(d: &core::time::Duration) -> (r: u128) {
    d.as_millis()
}

/// Milliseconds elapsed since `start`, saturated to 64 bits.
fn elapsed_millis(start: &std::time::Instant) -> (r: u64) {
    let d = instant_elapsed(start);
    let ms = duration_as_millis(&d);
    if ms > u64::MAX as u128 {
        u64::MAX
    } else {
        ms as u64
    }
}

/// The three phase-1 coordinates of a state.
struct Phase1State {
    co_index: usize,
    eo_index: usize,
    e_combo_index: usize,
}

impl Phase1State {
    spec fn wf(self) -> bool {
        &&& self.co_index < 2187
        &&& self.eo_index < 2048
        &&& self.e_combo_index < 495
    }

    fn is_solved(&self) -> (r: bool)
        ensures
            r == (self.co_index == 0 && self.eo_index == 0 && self.e_combo_index == 0),
    {
        self.co_index == 0 && self.eo_index == 0 && self.e_combo_index == 0
    }

    fn next(&self, table: &MoveTable, move_index: usize) -> (r: Phase1State)
        requires
            self.wf(),
            table.wf_dims(),
            move_index < 18,
        ensures
            r.wf(),
    {
        let co_index = table.co[self.co_index][move_index] as usize;
        let eo_index = table.eo[self.eo_index][move_index] as usize;
        let e_combo_index = table.e_combo[self.e_combo_index][move_index] as usize;
        proof {
            assert(co_index as int == crate::pruning::tv(
                table.co@,
                self.co_index as int,
                move_index as int,
            ));
            assert(eo_index as int == crate::pruning::tv(
                table.eo@,
                self.eo_index as int,
                move_index as int,
            ));
            assert(e_combo_index as int == crate::pruning::tv(
                table.e_combo@,
                self.e_combo_index as int,
                move_index as int,
            ));
        }
        Phase1State { co_index, eo_index, e_combo_index }
    }

    fn prune(&self, table: &PruningTable, depth: u8) -> (r: bool)
        requires
            self.wf(),
            table.wf(),
    {
        let co_e_dist = table.co_e[self.co_index][self.e_combo_index];
        let eo_e_dist = table.eo_e[self.eo_index][self.e_combo_index];
        let max = if co_e_dist > eo_e_dist {
            co_e_dist
        } else {
            eo_e_dist
        };
        max > depth
    }

    /// The phase-1 coordinates of a cubie state.
    fn from_cubie(value: &CubieCube) -> (r: Phase1State)
        requires
            value.wf(),
            crate::index::count_true(occ_ints(value@.ep), 12) == 4,
        ensures
            r.wf(),
            r.co_index as int == crate::index::ori_rank(value@.co.take(7), 3),
            r.eo_index as int == crate::index::ori_rank(value@.eo.take(11), 2),
            r.e_combo_index as int == crate::index::combo_rank(occ_ints(value@.ep), 12, 4),
    {
        proof {
            assert forall|k: int| 0 <= k < 7 implies value.co@[k] < 3 by {
                assert(value@.co[k] == value.co@[k] as int);
                assert(value@.co[k] < 3);
            }
            assert forall|k: int| 0 <= k < 11 implies value.eo@[k] < 2 by {
                assert(value@.eo[k] == value.eo@[k] as int);
                assert(value@.eo[k] < 2);
            }
            assert(crate::index::e_occ(value.ep@) =~= occ_ints(value@.ep));
            assert(crate::cubie::ints(value.co@) =~= value@.co);
            assert(crate::cubie::ints(value.eo@) =~= value@.eo);
        }
        let co_index = co_to_index(&value.co) as usize;
        let eo_index = eo_to_index(&value.eo) as usize;
        let e_combo_index = e_combo_to_index(&value.ep) as usize;
        Phase1State { co_index, eo_index, e_combo_index }
    }
}

/// The three phase-2 coordinates of a state.
struct Phase2State {
    cp_index: usize,
    ep_index: usize,
    e_ep_index: usize,
}

impl Phase2State {
    spec fn wf(self) -> bool {
        &&& self.cp_index < 40320
        &&& self.ep_index < 40320
        &&& self.e_ep_index < 24
    }

    fn is_solved(&self) -> (r: bool)
        ensures
            r == (self.cp_index == 0 && self.ep_index == 0 && self.e_ep_index == 0),
    {
        self.cp_index == 0 && self.ep_index == 0 && self.e_ep_index == 0
    }

    fn next(&self, table: &MoveTable, move_index: usize) -> (r: Phase2State)
        requires
            self.wf(),
            table.wf_dims(),
            move_index < 10,
        ensures
            r.wf(),
    {
        let cp_index = table.cp[self.cp_index][move_index] as usize;
        let ep_index = table.ep[self.ep_index][move_index] as usize;
        let e_ep_index = table.e_ep[self.e_ep_index][move_index] as usize;
        proof {
            assert(cp_index as int == crate::pruning::tv(
                table.cp@,
                self.cp_index as int,
                move_index as int,
            ));
            assert(ep_index as int == crate::pruning::tv(
                table.ep@,
                self.ep_index as int,
                move_index as int,
            ));
            assert(e_ep_index as int == crate::pruning::tv(
                table.e_ep@,
                self.e_ep_index as int,
                move_index as int,
            ));
        }
        Phase2State { cp_index, ep_index, e_ep_index }
    }

    fn prune(&self, table: &PruningTable, depth: u8) -> (r: bool)
        requires
            self.wf(),
            table.wf(),
    {
        let cp_e_dist = table.cp_e[self.cp_index][self.e_ep_index];
        let ep_e_dist = table.ep_e[self.ep_index][self.e_ep_index];
        let max = if cp_e_dist > ep_e_dist {
            cp_e_dist
        } else {
            ep_e_dist
        };
        max > depth
    }

    /// The phase-2 coordinates of a cubie state.
    fn from_cubie(value: &CubieCube) -> (r: Phase2State)
        requires
            value.wf(),
        ensures
            r.wf(),
            r.cp_index as int == crate::index::lehmer_rank(value@.cp),
            r.ep_index as int == crate::index::lehmer_rank(value@.ep.subrange(4, 12)),
            r.e_ep_index as int == crate::index::lehmer_rank(value@.ep.subrange(0, 4)),
    {
        proof {
            assert(crate::index::corner_ints(value.cp@) =~= value@.cp);
            assert(crate::index::edge_ints(value.ep@) =~= value@.ep);
            assert(crate::index::edge_ints(value.ep@).subrange(4, 12) =~= value@.ep.subrange(
                4,
                12,
            ));
            assert(crate::index::edge_ints(value.ep@).subrange(0, 4) =~= value@.ep.subrange(0, 4));
        }
        let cp_index = cp_to_index(&value.cp) as usize;
        let ep_index = ud_ep_to_index(&value.ep) as usize;
        let e_ep_index = e_ep_to_index(&value.ep) as usize;
        Phase2State { cp_index, ep_index, e_ep_index }
    }
}

/// A two-phase solution: the moves that bring the state into G1, then the
/// moves that finish it inside G1.
#[derive(Debug)]
pub struct Solution {
    pub phase1: Vec<Move>,
    pub phase2: Vec<Move>,
}

/// Every move of the sequence lies in the phase-2 move set.
pub open spec fn all_phase2(ms: Seq<Move>) -> bool {
    forall|k: int| 0 <= k < ms.len() ==> is_phase2_move(#[trigger] ms[k])
}

/// The given move sequence carries the state to the solved cube.
pub open spec fn solves(v: crate::cubie::CubeView, moves: Seq<Move>) -> bool {
    apply_seq(v, moves) == solved_view()
}

/// Copy a move list.
fn clone_moves(v: &Vec<Move>) -> (r: Vec<Move>)
    ensures
        r@ == v@,
{
    let mut r: Vec<Move> = Vec::new();
    let n = v.len();
    for i in 0..n
        invariant
            n == v@.len(),
            r@.len() == i,
            forall|k: int| 0 <= k < i ==> r@[k] == v@[k],
    {
        r.push(v[i]);
    }
    proof {
        assert(r@ =~= v@);
    }
    r
}

/// The join of the moves' names with single spaces.
pub open spec fn joined_names(ms: Seq<Move>) -> Seq<char>
    decreases ms.len(),
{
    if ms.len() == 0 {
        Seq::empty()
    } else if ms.len() == 1 {
        ms[0].spec_name()
    } else {
        joined_names(ms.drop_last()) + " "@ + ms.last().spec_name()
    }
}

/// Render a move list as space-separated names.
fn moves_to_string(ms: &Vec<Move>) -> (r: String)
    ensures
        r@ == joined_names(ms@),
{
    let mut s = String::new();
    let n = ms.len();
    for i in 0..n
        invariant
            n == ms@.len(),
            s@ == joined_names(ms@.take(i as int)),
    {
        if i > 0 {
            s.append(" ");
        }
        s.append(ms[i].name());
        proof {
            let t = ms@.take(i + 1);
            assert(t.drop_last() =~= ms@.take(i as int));
            assert(t.last() == ms@[i as int]);
            if i == 0 {
                assert(s@ =~= joined_names(t));
            } else {
                assert(s@ =~= joined_names(t));
            }
        }
    }
    proof {
        assert(ms@.take(n as int) =~= ms@);
    }
    s
}

impl Solution {
    /// The total number of moves.
    pub fn len(&self) -> (r: usize)
        requires
            self.phase1@.len() + self.phase2@.len() <= usize::MAX,
        ensures
            r == self.phase1@.len() + self.phase2@.len(),
    {
        self.phase1.len() + self.phase2.len()
    }

    /// Whether the solution is the empty move sequence.
    pub fn is_empty(&self) -> (r: bool)
        ensures
            r == (self.phase1@.len() == 0 && self.phase2@.len() == 0),
    {
        self.phase1.is_empty() && self.phase2.is_empty()
    }

    /// The phase-1 moves, space separated.
    pub fn phase1_to_string(&self) -> (r: String)
        ensures
            r@ == joined_names(self.phase1@),
    {
        moves_to_string(&self.phase1)
    }

    /// The phase-2 moves, space separated.
    pub fn phase2_to_string(&self) -> (r: String)
        ensures
            r@ == joined_names(self.phase2@),
    {
        moves_to_string(&self.phase2)
    }

    /// The whole solution, space separated.
    pub fn to_string(&self) -> (r: String)
        ensures
            r@ == joined_names(self.phase1@ + self.phase2@),
    {
        let mut all = clone_moves(&self.phase1);
        let mut tail = clone_moves(&self.phase2);
        let n = tail.len();
        for i in 0..n
            invariant
                n == tail@.len(),
                tail@ == self.phase2@,
                all@ == self.phase1@ + self.phase2@.take(i as int),
        {
            all.push(tail[i]);
            proof {
                assert(all@ =~= self.phase1@ + self.phase2@.take(i + 1));
            }
        }
        proof {
            assert(self.phase1@ + self.phase2@.take(n as int) =~= self.phase1@ + self.phase2@);
        }
        moves_to_string(&all)
    }

    /// Both phases as one move list.
    pub fn get_all_moves(&self) -> (r: Vec<Move>)
        ensures
            r@ == self.phase1@ + self.phase2@,
    {
        let mut all = clone_moves(&self.phase1);
        let n = self.phase2.len();
        for i in 0..n
            invariant
                n == self.phase2@.len(),
                all@ == self.phase1@ + self.phase2@.take(i as int),
        {
            all.push(self.phase2[i]);
            proof {
                assert(all@ =~= self.phase1@ + self.phase2@.take(i + 1));
            }
        }
        proof {
            assert(self.phase1@ + self.phase2@.take(n as int) =~= self.phase1@ + self.phase2@);
        }
        all
    }
}

/// The two-phase solver. It borrows the move and pruning tables, is
/// configured with a maximum total length and an optional timeout in
/// milliseconds, and owns the search stacks and the best solution found.
pub struct Solver<'a> {
    move_table: &'a MoveTable,
    pruning_table: &'a PruningTable,
    max_length: u8,
    timeout_ms: Option<u64>,
    initial_state: CubieCube,
    solution_phase1: Vec<Move>,
    solution_phase2: Vec<Move>,
    best_solution: Option<Solution>,
}

impl<'a> Solver<'a> {
    /// The configured maximum total solution length.
    pub closed spec fn spec_max_length(self) -> u8 {
        self.max_length
    }

    /// The configured timeout in milliseconds, if any.
    pub closed spec fn spec_timeout_ms(self) -> Option<u64> {
        self.timeout_ms
    }

    /// Whether a best solution is currently recorded.
    pub closed spec fn has_best(self) -> bool {
        self.best_solution is Some
    }

    /// The solver's tables are sound and whatever best solution is stored
    /// really solves the initial state within the configured bound.
    pub closed spec fn inv(self) -> bool {
        &&& self.move_table.wf_dims()
        &&& self.pruning_table.wf()
        &&& self.initial_state.wf()
        &&& (self.best_solution matches Some(sol) ==> solves(
            self.initial_state@,
            sol.phase1@ + sol.phase2@,
        ) && sol.phase1@.len() + sol.phase2@.len() <= self.max_length && all_phase2(sol.phase2@))
    }

    /// A fresh solver over the given tables.
    pub fn new(
        move_table: &'a MoveTable,
        pruning_table: &'a PruningTable,
        max_length: u8,
        timeout_ms: Option<u64>,
    ) -> (r: Solver<'a>)
        requires
            move_table.wf_dims(),
            pruning_table.wf(),
        ensures
            r.inv(),
            r.spec_max_length() == max_length,
            r.spec_timeout_ms() == timeout_ms,
            !r.has_best(),
    {
        Solver {
            move_table,
            pruning_table,
            max_length,
            timeout_ms,
            initial_state: CubieCube::solved(),
            solution_phase1: Vec::new(),
            solution_phase2: Vec::new(),
            best_solution: None,
        }
    }

    /// Forget the previous search, keeping the tables and configuration.
    pub fn clear(&mut self)
        requires
            old(self).inv(),
        ensures
            final(self).inv(),
            !final(self).has_best(),
            final(self).spec_max_length() == old(self).spec_max_length(),
            final(self).spec_timeout_ms() == old(self).spec_timeout_ms(),
    {
        self.solution_phase1 = Vec::new();
        self.solution_phase2 = Vec::new();
        self.best_solution = None;
    }

    /// Solve the given state with the two-phase algorithm. Whatever comes
    /// back provably solves the state: applying the returned moves to
    /// `state` yields the solved cube, in at most `max_length` moves.
    /// `None` means no solution was found within the configured bounds; on
    /// the already solved state a solution is owed.
    pub fn solve(&mut self, state: CubieCube) -> (r: Option<Solution>)
        requires
            old(self).inv(),
            solvable(state@),
        ensures
            final(self).inv(),
            final(self).spec_max_length() == old(self).spec_max_length(),
            final(self).spec_timeout_ms() == old(self).spec_timeout_ms(),
            r matches Some(sol) ==> solves(state@, sol.phase1@ + sol.phase2@) && sol.phase1@.len()
                + sol.phase2@.len() <= old(self).spec_max_length() && all_phase2(sol.phase2@),
            (old(self).spec_timeout_ms() is None && old(self).spec_max_length() >= 1 && state@
                == solved_view()) ==> r is Some,
    {
        self.initial_state = state;
        self.solution_phase1 = Vec::new();
        self.solution_phase2 = Vec::new();
        self.best_solution = None;
        proof {
            lemma_perm_has_four_e_edges(state@.ep);
        }
        let ghost spc = old(self).timeout_ms is None && old(self).max_length >= 1 && state@
            == solved_view();

        let start = instant_now();
        let mut depth: u8 = 0;
        while depth <= self.max_length
            invariant
                self.inv(),
                self.initial_state == state,
                self.max_length == old(self).max_length,
                self.timeout_ms == old(self).timeout_ms,
                self.move_table == old(self).move_table,
                self.pruning_table == old(self).pruning_table,
                crate::index::count_true(occ_ints(state@.ep), 12) == 4,
                solvable(state@),
                spc == (old(self).timeout_ms is None && old(self).max_length >= 1 && state@
                    == solved_view()),
                spc ==> depth == 0 && self.solution_phase1@.len() == 0
                    && self.solution_phase2@.len() == 0,
                all_phase2(self.solution_phase2@),
            ensures
                !spc,
            decreases self.max_length - depth + 1,
        {
            let p1 = Phase1State::from_cubie(&state);
            proof {
                if spc {
                    crate::index::lemma_ori_rank_zero(solved_view().co.take(7), 3);
                    crate::index::lemma_ori_rank_zero(solved_view().eo.take(11), 2);
                    assert forall|k: int|
                        0 <= k < 12 implies #[trigger] occ_ints(solved_view().ep)[k] == (k < 4) by {
                        assert(occ_ints(solved_view().ep)[k] == (solved_view().ep[k] <= 3));
                    }
                    crate::index::lemma_combo_rank_solved(occ_ints(solved_view().ep));
                    assert(p1.co_index == 0 && p1.eo_index == 0 && p1.e_combo_index == 0);
                }
            }
            let found = self.solve_phase1(p1, depth, &start);

            match self.timeout_ms {
                Some(timeout) => {
                    if elapsed_millis(&start) > timeout {
                        return self.take_best();
                    }
                },
                None => {
                    if found {
                        return self.take_best();
                    }
                },
            }
            proof {
                assert(!spc);
            }
            if depth == self.max_length {
                break;
            }
            depth = depth + 1;
        }
        proof {
            assert(!spc);
        }
        self.take_best()
    }

    /// Hand out the recorded best solution, if any.
    fn take_best(&mut self) -> (r: Option<Solution>)
        requires
            old(self).inv(),
        ensures
            final(self).inv(),
            final(self).max_length == old(self).max_length,
            final(self).timeout_ms == old(self).timeout_ms,
            final(self).initial_state == old(self).initial_state,
            final(self).move_table == old(self).move_table,
            final(self).pruning_table == old(self).pruning_table,
            r is Some <==> old(self).has_best(),
            r matches Some(sol) ==> solves(
                old(self).initial_state@,
                sol.phase1@ + sol.phase2@,
            ) && sol.phase1@.len() + sol.phase2@.len() <= old(self).max_length && all_phase2(
                sol.phase2@,
            ),
    {
        let r = self.best_solution.take();
        proof {
            if r is Some {
                assert(old(self).best_solution matches Some(sol) && sol == r->0);
            }
        }
        r
    }

    /// Phase-1 depth-first search at the given remaining depth.
    fn solve_phase1(&mut self, state: Phase1State, depth: u8, start: &std::time::Instant) -> (found:
        bool)
        requires
            old(self).inv(),
            state.wf(),
            all_phase2(old(self).solution_phase2@),
        ensures
            final(self).inv(),
            final(self).max_length == old(self).max_length,
            final(self).timeout_ms == old(self).timeout_ms,
            final(self).initial_state == old(self).initial_state,
            final(self).move_table == old(self).move_table,
            final(self).pruning_table == old(self).pruning_table,
            all_phase2(final(self).solution_phase2@),
            old(self).has_best() ==> final(self).has_best(),
            old(self).timeout_ms is None ==> (found ==> final(self).has_best()),
            (old(self).timeout_ms is None && old(self).max_length >= 1 && depth == 0
                && state.co_index == 0 && state.eo_index == 0 && state.e_combo_index == 0 && old(
                self,
            ).solution_phase1@.len() == 0 && old(self).solution_phase2@.len() == 0 && old(
                self,
            ).initial_state@ == solved_view()) ==> found,
        decreases depth,
    {
        let ghost spc = old(self).timeout_ms is None && old(self).max_length >= 1 && depth == 0
            && state.co_index == 0 && state.eo_index == 0 && state.e_combo_index == 0 && old(
            self,
        ).solution_phase1@.len() == 0 && old(self).solution_phase2@.len() == 0 && old(
            self,
        ).initial_state@ == solved_view();
        if let Some(timeout) = self.timeout_ms {
            if elapsed_millis(start) > timeout {
                return true;
            }
        }

        if depth == 0 && state.is_solved() {
            let mut cube_state = self.initial_state;
            let n1 = self.solution_phase1.len();
            for idx in 0..n1
                invariant
                    self.inv(),
                    n1 == self.solution_phase1@.len(),
                    cube_state.wf(),
                    cube_state@ == apply_seq(
                        self.initial_state@,
                        self.solution_phase1@.take(idx as int),
                    ),
            {
                cube_state = cube_state.apply_move(self.solution_phase1[idx]);
                proof {
                    let t = self.solution_phase1@.take(idx + 1);
                    assert(t.drop_last() =~= self.solution_phase1@.take(idx as int));
                    assert(t.last() == self.solution_phase1@[idx as int]);
                }
            }
            proof {
                assert(self.solution_phase1@.take(n1 as int) =~= self.solution_phase1@);
            }

            let max_depth = if self.solution_phase1.len() == 0 {
                self.max_length
            } else {
                if (self.max_length as usize) > self.solution_phase1.len() {
                    self.max_length - (self.solution_phase1.len() as u8)
                } else {
                    // the phase-1 moves already use the whole budget, so no
                    // phase-2 extension can stay within it
                    return false;
                }
            };

            let mut phase2_depth: u8 = 0;
            let ghost p1_snapshot = self.solution_phase1@;
            proof {
                if spc {
                    assert(cube_state@ == solved_view());
                    assert(max_depth >= 1);
                }
            }
            while phase2_depth < max_depth
                invariant
                    self.inv(),
                    self.max_length == old(self).max_length,
                    self.timeout_ms == old(self).timeout_ms,
                    self.initial_state == old(self).initial_state,
                    self.move_table == old(self).move_table,
                    self.pruning_table == old(self).pruning_table,
                    old(self).has_best() ==> self.has_best(),
                    all_phase2(self.solution_phase2@),
                    cube_state.wf(),
                    cube_state@ == apply_seq(self.initial_state@, self.solution_phase1@),
                    self.solution_phase1@ == p1_snapshot,
                    spc == (old(self).timeout_ms is None && old(self).max_length >= 1 && depth
                        == 0 && state.co_index == 0 && state.eo_index == 0 && state.e_combo_index
                        == 0 && old(self).solution_phase1@.len() == 0 && old(
                        self,
                    ).solution_phase2@.len() == 0 && old(self).initial_state@ == solved_view()),
                    spc ==> phase2_depth == 0 && max_depth >= 1 && cube_state@ == solved_view()
                        && self.solution_phase1@.len() == 0 && self.solution_phase2@.len() == 0,
                decreases max_depth - phase2_depth,
            {
                let p2 = Phase2State::from_cubie(&cube_state);
                proof {
                    if spc {
                        crate::index::lemma_lehmer_rank_sorted(solved_view().cp);
                        assert(solved_view().ep.subrange(4, 12) =~= Seq::new(
                            8,
                            |k: int| k + 4,
                        ));
                        crate::index::lemma_lehmer_rank_sorted(solved_view().ep.subrange(4, 12));
                        crate::index::lemma_lehmer_rank_sorted(solved_view().ep.subrange(0, 4));
                        assert forall|k: int|
                            0 <= k < 12 implies #[trigger] occ_ints(solved_view().ep)[k] == (k
                            < 4) by {
                            assert(occ_ints(solved_view().ep)[k] == (solved_view().ep[k] <= 3));
                        }
                        crate::index::lemma_combo_rank_solved(occ_ints(solved_view().ep));
                        assert(p2.cp_index == 0 && p2.ep_index == 0 && p2.e_ep_index == 0);
                    }
                }
                if self.solve_phase2(p2, phase2_depth, &cube_state, start) {
                    return true;
                }
                proof {
                    assert(!spc);
                }
                phase2_depth = phase2_depth + 1;
            }
            proof {
                assert(!spc);
            }
            return false;
        }

        proof {
            assert(!spc);
        }
        if state.prune(self.pruning_table, depth) || depth == 0 {
            return false;
        }

        for i in 0..18usize
            invariant
                self.inv(),
                self.max_length == old(self).max_length,
                self.timeout_ms == old(self).timeout_ms,
                self.initial_state == old(self).initial_state,
                self.move_table == old(self).move_table,
                self.pruning_table == old(self).pruning_table,
                old(self).has_best() ==> self.has_best(),
                all_phase2(self.solution_phase2@),
                state.wf(),
                depth >= 1,
        {
            let m = move_from_index(i);
            let available = if self.solution_phase1.len() > 0 {
                let prev = self.solution_phase1[self.solution_phase1.len() - 1];
                is_move_available(prev, m)
            } else {
                true
            };
            if available {
                self.solution_phase1.push(m);
                let new_state = state.next(self.move_table, i);
                let found = self.solve_phase1(new_state, depth - 1, start);
                if found {
                    return true;
                }
                let _ = self.solution_phase1.pop();
            }
        }
        false
    }

    /// Phase-2 depth-first search. `cube_state` is the cubie state after
    /// the phase-1 moves; a candidate is recorded only after it has been
    /// replayed on the cubie level and checked to solve the initial state.
    fn solve_phase2(
        &mut self,
        state: Phase2State,
        depth: u8,
        cube_state: &CubieCube,
        start: &std::time::Instant,
    ) -> (found: bool)
        requires
            old(self).inv(),
            state.wf(),
            cube_state.wf(),
            all_phase2(old(self).solution_phase2@),
        ensures
            final(self).inv(),
            final(self).max_length == old(self).max_length,
            final(self).timeout_ms == old(self).timeout_ms,
            final(self).initial_state == old(self).initial_state,
            final(self).move_table == old(self).move_table,
            final(self).pruning_table == old(self).pruning_table,
            final(self).solution_phase1@ == old(self).solution_phase1@,
            all_phase2(final(self).solution_phase2@),
            old(self).has_best() ==> final(self).has_best(),
            old(self).timeout_ms is None ==> (found ==> final(self).has_best()),
            (old(self).timeout_ms is None && depth == 0 && state.cp_index == 0 && state.ep_index
                == 0 && state.e_ep_index == 0 && old(self).solution_phase1@.len() == 0 && old(
                self,
            ).solution_phase2@.len() == 0 && old(self).initial_state@ == solved_view()) ==> found,
        decreases depth,
    {
        if let Some(timeout) = self.timeout_ms {
            if elapsed_millis(start) > timeout {
                return true;
            }
        }

        if depth == 0 && state.is_solved() {
            let mut check = self.initial_state;
            let n1 = self.solution_phase1.len();
            for idx in 0..n1
                invariant
                    self.inv(),
                    n1 == self.solution_phase1@.len(),
                    check.wf(),
                    check@ == apply_seq(
                        self.initial_state@,
                        self.solution_phase1@.take(idx as int),
                    ),
            {
                check = check.apply_move(self.solution_phase1[idx]);
                proof {
                    let t = self.solution_phase1@.take(idx + 1);
                    assert(t.drop_last() =~= self.solution_phase1@.take(idx as int));
                    assert(t.last() == self.solution_phase1@[idx as int]);
                }
            }
            let n2 = self.solution_phase2.len();
            for idx in 0..n2
                invariant
                    self.inv(),
                    n1 == self.solution_phase1@.len(),
                    n2 == self.solution_phase2@.len(),
                    check.wf(),
                    check@ == apply_seq(
                        apply_seq(self.initial_state@, self.solution_phase1@.take(n1 as int)),
                        self.solution_phase2@.take(idx as int),
                    ),
            {
                check = check.apply_move(self.solution_phase2[idx]);
                proof {
                    let t = self.solution_phase2@.take(idx + 1);
                    assert(t.drop_last() =~= self.solution_phase2@.take(idx as int));
                    assert(t.last() == self.solution_phase2@[idx as int]);
                }
            }
            proof {
                assert(self.solution_phase1@.take(n1 as int) =~= self.solution_phase1@);
                assert(self.solution_phase2@.take(n2 as int) =~= self.solution_phase2@);
            }

            let l1 = self.solution_phase1.len();
            let l2 = self.solution_phase2.len();
            if check.is_solved() && l1 <= self.max_length as usize && l2 <= (self.max_length
                as usize) - l1 {
                proof {
                    lemma_apply_seq_concat(
                        self.initial_state@,
                        self.solution_phase1@,
                        self.solution_phase2@,
                    );
                }
                let candidate = Solution {
                    phase1: clone_moves(&self.solution_phase1),
                    phase2: clone_moves(&self.solution_phase2),
                };
                let replace = match &self.best_solution {
                    Some(best) => best.phase1.len() + best.phase2.len() > l1 + l2,
                    None => true,
                };
                if replace {
                    self.best_solution = Some(candidate);
                }
                return true;
            }
            // the replayed candidate does not solve the state on the cubie
            // level, so it counts as nothing found
            return false;
        }

        if state.prune(self.pruning_table, depth) || depth == 0 {
            return false;
        }

        for i in 0..10usize
            invariant
                self.inv(),
                self.max_length == old(self).max_length,
                self.timeout_ms == old(self).timeout_ms,
                self.initial_state == old(self).initial_state,
                self.move_table == old(self).move_table,
                self.pruning_table == old(self).pruning_table,
                self.solution_phase1@ == old(self).solution_phase1@,
                old(self).has_best() ==> self.has_best(),
                all_phase2(self.solution_phase2@),
                state.wf(),
                cube_state.wf(),
                depth >= 1,
        {
            let m = phase2_move_from_index(i);
            let available = if self.solution_phase2.len() > 0 {
                let prev = self.solution_phase2[self.solution_phase2.len() - 1];
                is_move_available(prev, m)
            } else if self.solution_phase1.len() > 0 {
                let prev = self.solution_phase1[self.solution_phase1.len() - 1];
                is_move_available(prev, m)
            } else {
                true
            };
            if available {
                let ghost before_push = self.solution_phase2@;
                self.solution_phase2.push(m);
                proof {
                    assert forall|k: int|
                        0 <= k < self.solution_phase2@.len() implies is_phase2_move(
                        #[trigger] self.solution_phase2@[k],
                    ) by {
                        if k < before_push.len() {
                            assert(is_phase2_move(before_push[k]));
                        }
                    }
                }
                let new_state = state.next(self.move_table, i);
                let found = self.solve_phase2(new_state, depth - 1, cube_state, start);
                if found {
                    return true;
                }
                let ghost before_pop = self.solution_phase2@;
                let _ = self.solution_phase2.pop();
                proof {
                    assert forall|k: int|
                        0 <= k < self.solution_phase2@.len() implies is_phase2_move(
                        #[trigger] self.solution_phase2@[k],
                    ) by {
                        assert(self.solution_phase2@[k] == before_pop[k]);
                    }
                }
            }
        }
        false
    }
}

} // verus!
