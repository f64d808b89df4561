//! Random state generators: sample each coordinate uniformly, decode, and
//! repair permutation parity with one swap when the sampled permutations
//! disagree. Specialized generators keep part of the cube solved.

use vstd::prelude::*;

use rand::Rng;

use crate::cubie::{ints, no_dups, seq_sum, solvable, solved_view, Corner, CubieCube, Edge};
use crate::index::{
    lemma_swap_flips_swap_count,
    index_to_co, index_to_co_f2l, index_to_cp, index_to_cp_f2l, index_to_eo, index_to_eo_cross,
    index_to_eo_f2l, index_to_ep, index_to_ep_cross, index_to_ep_f2l,
};

verus! {

broadcast use vstd::array::group_array_axioms;

#[verifier::external_type_specification]
#[verifier::external_body]
pub struct ExThreadRng(rand::rngs::ThreadRng);

/// Relies on rand::thread_rng: a fresh generator for this thread.
#[verifier::external_body]
fn fresh_rng() -> (r: rand::rngs::ThreadRng) {
    rand::thread_rng()
}

/// Relies on rand::Rng::gen_range: a uniform value below the bound. Of a
/// random value only the range is promised.
#[verifier::external_body]
fn gen_below(rng: &mut rand::rngs::ThreadRng, bound: u32) -> (r: u32)
    requires
        bound > 0,
    ensures
        r < bound,
{
    rng.gen_range(0..bound)
}

/// The state a generator hands out: well-formed, duplicate-free
/// permutations, and orientation sums that vanish.
pub open spec fn generated_wf(c: CubieCube) -> bool {
    &&& c.wf()
    &&& no_dups(c@.cp)
    &&& no_dups(c@.ep)
    &&& seq_sum(c@.co) % 3 == 0
    &&& seq_sum(c@.eo) % 2 == 0
}

/// Swap two distinct corner positions in `lo .. hi`, chosen at random.
fn swap_corners(state: &mut CubieCube, rng: &mut rand::rngs::ThreadRng, lo: usize, hi: usize)
    requires
        lo + 2 <= hi <= 8,
        generated_wf(*old(state)),
    ensures
        generated_wf(*final(state)),
        final(state)@.co == old(state)@.co,
        final(state)@.ep == old(state)@.ep,
        final(state)@.eo == old(state)@.eo,
        forall|k: int|
            0 <= k < 8 && !(lo <= k < hi) ==> (#[trigger] final(state)@.cp[k]) == old(
                state,
            )@.cp[k],
        exists|x: int, y: int|
            #![trigger old(state)@.cp.update(x, old(state)@.cp[y])]
            lo <= x && x < y && y < hi && final(state)@.cp == old(state)@.cp.update(
                x,
                old(state)@.cp[y],
            ).update(y, old(state)@.cp[x]),
{
    let span = (hi - lo) as u32;
    let a = lo + gen_below(rng, span) as usize;
    let shift = gen_below(rng, span - 1) as usize;
    let b0 = lo + shift;
    let b = if b0 >= a {
        b0 + 1
    } else {
        b0
    };
    let ghost prev = *state;
    let ca = state.cp[a];
    let cb = state.cp[b];
    state.cp[a] = cb;
    state.cp[b] = ca;
    proof {
        assert(state@.cp =~= prev@.cp.update(a as int, prev@.cp[b as int]).update(
            b as int,
            prev@.cp[a as int],
        ));
        assert(state@.co =~= prev@.co);
        assert(state@.ep =~= prev@.ep);
        assert(state@.eo =~= prev@.eo);
        assert forall|x: int, y: int| 0 <= x < y < 8 implies state@.cp[x] != state@.cp[y] by {
            assert(no_dups(prev@.cp));
        }
        let x: int = if a <= b { a as int } else { b as int };
        let y: int = if a <= b { b as int } else { a as int };
        assert(state@.cp =~= prev@.cp.update(x, prev@.cp[y]).update(y, prev@.cp[x]));
    }
}

/// Swap two distinct edge positions in `lo .. hi`, chosen at random.
fn swap_edges(state: &mut CubieCube, rng: &mut rand::rngs::ThreadRng, lo: usize, hi: usize)
    requires
        lo + 2 <= hi <= 12,
        generated_wf(*old(state)),
    ensures
        generated_wf(*final(state)),
        final(state)@.cp == old(state)@.cp,
        final(state)@.co == old(state)@.co,
        final(state)@.eo == old(state)@.eo,
        forall|k: int|
            0 <= k < 12 && !(lo <= k < hi) ==> (#[trigger] final(state)@.ep[k]) == old(
                state,
            )@.ep[k],
        exists|x: int, y: int|
            #![trigger old(state)@.ep.update(x, old(state)@.ep[y])]
            lo <= x && x < y && y < hi && final(state)@.ep == old(state)@.ep.update(
                x,
                old(state)@.ep[y],
            ).update(y, old(state)@.ep[x]),
{
    let span = (hi - lo) as u32;
    let a = lo + gen_below(rng, span) as usize;
    let shift = gen_below(rng, span - 1) as usize;
    let b0 = lo + shift;
    let b = if b0 >= a {
        b0 + 1
    } else {
        b0
    };
    let ghost prev = *state;
    let ea = state.ep[a];
    let eb = state.ep[b];
    state.ep[a] = eb;
    state.ep[b] = ea;
    proof {
        assert(state@.ep =~= prev@.ep.update(a as int, prev@.ep[b as int]).update(
            b as int,
            prev@.ep[a as int],
        ));
        assert(state@.co =~= prev@.co);
        assert(state@.cp =~= prev@.cp);
        assert(state@.eo =~= prev@.eo);
        assert forall|x: int, y: int| 0 <= x < y < 12 implies state@.ep[x] != state@.ep[y] by {
            assert(no_dups(prev@.ep));
        }
        let x: int = if a <= b { a as int } else { b as int };
        let y: int = if a <= b { b as int } else { a as int };
        assert(state@.ep =~= prev@.ep.update(x, prev@.ep[y]).update(y, prev@.ep[x]));
    }
}

/// Repair parity by one random swap among the randomized corner or edge
/// positions, chosen by a coin. A state that fails solvability only by its
/// permutation parity is repaired by one transposition, which flips exactly
/// one of the two parities.
fn fix_parity(
    state: CubieCube,
    rng: &mut rand::rngs::ThreadRng,
    c_lo: usize,
    c_hi: usize,
    e_lo: usize,
    e_hi: usize,
) -> (r: CubieCube)
    requires
        c_lo + 2 <= c_hi <= 8,
        e_lo + 2 <= e_hi <= 12,
        generated_wf(state),
        !solvable(state@),
    ensures
        solvable(r@),
        r@.co == state@.co,
        r@.eo == state@.eo,
        forall|k: int|
            0 <= k < 8 && !(c_lo <= k < c_hi) ==> (#[trigger] r@.cp[k]) == state@.cp[k],
        forall|k: int|
            0 <= k < 12 && !(e_lo <= k < e_hi) ==> (#[trigger] r@.ep[k]) == state@.ep[k],
{
    let mut repaired = state;
    if gen_below(rng, 2) == 1 {
        swap_edges(&mut repaired, rng, e_lo, e_hi);
        proof {
            lemma_edge_swap_repairs(state, repaired, e_lo as int, e_hi as int);
        }
    } else {
        swap_corners(&mut repaired, rng, c_lo, c_hi);
        proof {
            lemma_corner_swap_repairs(state, repaired, c_lo as int, c_hi as int);
        }
    }
    repaired
}

/// Repair parity by one random swap of two edges.
fn fix_parity_edges(
    state: CubieCube,
    rng: &mut rand::rngs::ThreadRng,
    lo: usize,
    hi: usize,
) -> (r: CubieCube)
    requires
        lo + 2 <= hi <= 12,
        generated_wf(state),
        !solvable(state@),
    ensures
        solvable(r@),
        r@.cp == state@.cp,
        r@.co == state@.co,
        r@.eo == state@.eo,
        forall|k: int|
            0 <= k < 12 && !(lo <= k < hi) ==> (#[trigger] r@.ep[k]) == state@.ep[k],
{
    let mut repaired = state;
    swap_edges(&mut repaired, rng, lo, hi);
    proof {
        lemma_edge_swap_repairs(state, repaired, lo as int, hi as int);
    }
    repaired
}

/// Repair parity by one random swap of two corners.
fn fix_parity_corners(
    state: CubieCube,
    rng: &mut rand::rngs::ThreadRng,
    lo: usize,
    hi: usize,
) -> (r: CubieCube)
    requires
        lo + 2 <= hi <= 8,
        generated_wf(state),
        !solvable(state@),
    ensures
        solvable(r@),
        r@.ep == state@.ep,
        r@.co == state@.co,
        r@.eo == state@.eo,
        forall|k: int|
            0 <= k < 8 && !(lo <= k < hi) ==> (#[trigger] r@.cp[k]) == state@.cp[k],
{
    let mut repaired = state;
    swap_corners(&mut repaired, rng, lo, hi);
    proof {
        lemma_corner_swap_repairs(state, repaired, lo as int, hi as int);
    }
    repaired
}

/// Two parities of opposite standing agree after one of them flips.
proof fn lemma_parity_flip(keep: int, before: int, after: int)
    requires
        keep % 2 != before % 2,
        (after + before) % 2 == 1,
    ensures
        keep % 2 == after % 2,
{
    vstd::arithmetic::div_mod::lemma_mod_bound(keep, 2);
    vstd::arithmetic::div_mod::lemma_mod_bound(before, 2);
    vstd::arithmetic::div_mod::lemma_mod_bound(after, 2);
    vstd::arithmetic::div_mod::lemma_add_mod_noop(after, before, 2);
    if after % 2 == before % 2 {
        assert((after % 2 + before % 2) % 2 == 0) by {
            if before % 2 == 0 {
                assert((after % 2 + before % 2) == 0);
            } else {
                assert((after % 2 + before % 2) == 2);
            }
        }
    }
}

/// One edge transposition on an unsolvable but otherwise well-formed state
/// restores solvability.
proof fn lemma_edge_swap_repairs(state: CubieCube, repaired: CubieCube, lo: int, hi: int)
    requires
        generated_wf(state),
        !solvable(state@),
        generated_wf(repaired),
        repaired@.cp == state@.cp,
        repaired@.co == state@.co,
        repaired@.eo == state@.eo,
        exists|x: int, y: int|
            #![trigger state@.ep.update(x, state@.ep[y])]
            lo <= x && x < y && y < hi && repaired@.ep == state@.ep.update(
                x,
                state@.ep[y],
            ).update(y, state@.ep[x]),
        0 <= lo,
        hi <= 12,
    ensures
        solvable(repaired@),
{
    let sc_cp = crate::cubie::swap_count(state@.cp, 0);
    let sc_old = crate::cubie::swap_count(state@.ep, 0);
    let sc_new = crate::cubie::swap_count(repaired@.ep, 0);
    assert(sc_cp % 2 != sc_old % 2);
    let (x, y): (int, int) = choose|x: int, y: int|
        #![trigger state@.ep.update(x, state@.ep[y])]
        lo <= x && x < y && y < hi && repaired@.ep == state@.ep.update(x, state@.ep[y]).update(
            y,
            state@.ep[x],
        );
    lemma_swap_flips_swap_count(state@.ep, x, y);
    assert((sc_new + sc_old) % 2 == 1);
    lemma_parity_flip(sc_cp, sc_old, sc_new);
}

/// One corner transposition on an unsolvable but otherwise well-formed
/// state restores solvability.
proof fn lemma_corner_swap_repairs(state: CubieCube, repaired: CubieCube, lo: int, hi: int)
    requires
        generated_wf(state),
        !solvable(state@),
        generated_wf(repaired),
        repaired@.ep == state@.ep,
        repaired@.co == state@.co,
        repaired@.eo == state@.eo,
        exists|x: int, y: int|
            #![trigger state@.cp.update(x, state@.cp[y])]
            lo <= x && x < y && y < hi && repaired@.cp == state@.cp.update(
                x,
                state@.cp[y],
            ).update(y, state@.cp[x]),
        0 <= lo,
        hi <= 8,
    ensures
        solvable(repaired@),
{
    let sc_ep = crate::cubie::swap_count(state@.ep, 0);
    let sc_old = crate::cubie::swap_count(state@.cp, 0);
    let sc_new = crate::cubie::swap_count(repaired@.cp, 0);
    assert(sc_ep % 2 != sc_old % 2);
    let (x, y): (int, int) = choose|x: int, y: int|
        #![trigger state@.cp.update(x, state@.cp[y])]
        lo <= x && x < y && y < hi && repaired@.cp == state@.cp.update(x, state@.cp[y]).update(
            y,
            state@.cp[x],
        );
    lemma_swap_flips_swap_count(state@.cp, x, y);
    assert((sc_new + sc_old) % 2 == 1);
    lemma_parity_flip(sc_ep, sc_old, sc_new);
}

/// A uniformly random state over all four coordinates, with one parity
/// repair where the sampled permutations disagree.
pub fn generate_random_state() -> (r: CubieCube)
    ensures
        solvable(r@),
{
    let mut rng = fresh_rng();
    let cp = index_to_cp(gen_below(&mut rng, 40320) as u16);
    let co = index_to_co(gen_below(&mut rng, 2187) as u16);
    let ep = index_to_ep(gen_below(&mut rng, 479001600));
    let eo = index_to_eo(gen_below(&mut rng, 2048) as u16);
    let mut state = CubieCube { cp, co, ep, eo };
    proof {
        assert(state@.cp =~= crate::index::corner_ints(cp@));
        assert(state@.co =~= ints(co@));
        assert(state@.ep =~= crate::index::edge_ints(ep@));
        assert(state@.eo =~= ints(eo@));
        assert(generated_wf(state));
    }
    if !state.is_solvable() {
        state = fix_parity(state, &mut rng, 0, 8, 0, 12);
    }
    state
}

/// A random state whose corners are solved.
pub fn generate_state_corners_solved() -> (r: CubieCube)
    ensures
        solvable(r@),
        r@.cp == solved_view().cp,
        r@.co == solved_view().co,
{
    let mut rng = fresh_rng();
    let base = CubieCube::solved();
    let ep = index_to_ep(gen_below(&mut rng, 479001600));
    let eo = index_to_eo(gen_below(&mut rng, 2048) as u16);
    let mut state = CubieCube { cp: base.cp, co: base.co, ep, eo };
    proof {
        assert(state@.cp =~= solved_view().cp);
        assert(state@.co =~= solved_view().co);
        assert(state@.ep =~= crate::index::edge_ints(ep@));
        assert(state@.eo =~= ints(eo@));
        lemma_solved_parts();
        assert(generated_wf(state));
    }
    if !state.is_solvable() {
        state = fix_parity_edges(state, &mut rng, 0, 12);
    }
    state
}

/// A random state whose edges are solved.
pub fn generate_state_edges_solved() -> (r: CubieCube)
    ensures
        solvable(r@),
        r@.ep == solved_view().ep,
        r@.eo == solved_view().eo,
{
    let mut rng = fresh_rng();
    let base = CubieCube::solved();
    let cp = index_to_cp(gen_below(&mut rng, 40320) as u16);
    let co = index_to_co(gen_below(&mut rng, 2187) as u16);
    let mut state = CubieCube { cp, co, ep: base.ep, eo: base.eo };
    proof {
        assert(state@.cp =~= crate::index::corner_ints(cp@));
        assert(state@.co =~= ints(co@));
        assert(state@.ep =~= solved_view().ep);
        assert(state@.eo =~= solved_view().eo);
        lemma_solved_parts();
        assert(generated_wf(state));
    }
    if !state.is_solvable() {
        state = fix_parity_corners(state, &mut rng, 0, 8);
    }
    state
}

/// A random state with the first two layers and the last-layer cross
/// solved: only the U-layer corners move.
pub fn generate_state_oll_cross_solved() -> (r: CubieCube)
    ensures
        solvable(r@),
        forall|k: int| 4 <= k < 8 ==> (#[trigger] r@.cp[k]) == k && r@.co[k] == 0,
        forall|k: int| 0 <= k < 4 || 8 <= k < 12 ==> (#[trigger] r@.ep[k]) == k,
        r@.eo == solved_view().eo,
{
    let mut rng = fresh_rng();
    let base = CubieCube::solved();
    let cp = index_to_cp_f2l(gen_below(&mut rng, 4) as u16);
    let co = index_to_co_f2l(gen_below(&mut rng, 27) as u16);
    let ep = index_to_ep_f2l(gen_below(&mut rng, 24) as u16);
    let mut state = CubieCube { cp, co, ep, eo: base.eo };
    proof {
        lemma_cp_f2l_generated(cp@);
        lemma_ep_f2l_generated(ep@);
        assert(state@.cp =~= crate::index::corner_ints(cp@));
        assert(state@.co =~= ints(co@));
        assert(state@.ep =~= crate::index::edge_ints(ep@));
        assert(state@.eo =~= solved_view().eo);
        lemma_co_f2l_sum(co@);
        lemma_solved_parts();
        assert(generated_wf(state));
    }
    if !state.is_solvable() {
        state = fix_parity(state, &mut rng, 0, 4, 4, 8);
    }
    state
}

/// A random state with the first two layers solved and the last layer
/// oriented: only last-layer permutations move.
pub fn generate_state_oll_solved() -> (r: CubieCube)
    ensures
        solvable(r@),
        forall|k: int| 4 <= k < 8 ==> (#[trigger] r@.cp[k]) == k,
        forall|k: int| 0 <= k < 4 || 8 <= k < 12 ==> (#[trigger] r@.ep[k]) == k,
        r@.co == solved_view().co,
        r@.eo == solved_view().eo,
{
    let mut rng = fresh_rng();
    let base = CubieCube::solved();
    let cp = index_to_cp_f2l(gen_below(&mut rng, 4) as u16);
    let ep = index_to_ep_f2l(gen_below(&mut rng, 24) as u16);
    let mut state = CubieCube { cp, co: base.co, ep, eo: base.eo };
    proof {
        lemma_cp_f2l_generated(cp@);
        lemma_ep_f2l_generated(ep@);
        assert(state@.cp =~= crate::index::corner_ints(cp@));
        assert(state@.co =~= solved_view().co);
        assert(state@.ep =~= crate::index::edge_ints(ep@));
        assert(state@.eo =~= solved_view().eo);
        lemma_solved_parts();
        assert(generated_wf(state));
    }
    if !state.is_solvable() {
        state = fix_parity(state, &mut rng, 0, 4, 4, 8);
    }
    state
}

/// A random state with the first two layers solved.
pub fn generate_state_f2l_solved() -> (r: CubieCube)
    ensures
        solvable(r@),
        forall|k: int| 4 <= k < 8 ==> (#[trigger] r@.cp[k]) == k && r@.co[k] == 0,
        forall|k: int| 0 <= k < 4 || 8 <= k < 12 ==> (#[trigger] r@.ep[k]) == k && r@.eo[k] == 0,
{
    let mut rng = fresh_rng();
    let cp = index_to_cp_f2l(gen_below(&mut rng, 4) as u16);
    let co = index_to_co_f2l(gen_below(&mut rng, 27) as u16);
    let ep = index_to_ep_f2l(gen_below(&mut rng, 24) as u16);
    let eo = index_to_eo_f2l(gen_below(&mut rng, 8) as u16);
    let mut state = CubieCube { cp, co, ep, eo };
    proof {
        lemma_cp_f2l_generated(cp@);
        lemma_ep_f2l_generated(ep@);
        assert(state@.cp =~= crate::index::corner_ints(cp@));
        assert(state@.co =~= ints(co@));
        assert(state@.ep =~= crate::index::edge_ints(ep@));
        assert(state@.eo =~= ints(eo@));
        lemma_co_f2l_sum(co@);
        lemma_eo_f2l_sum(eo@);
        assert(generated_wf(state));
    }
    if !state.is_solvable() {
        state = fix_parity(state, &mut rng, 0, 4, 4, 8);
    }
    state
}

/// A random state with the D-layer cross solved.
pub fn generate_state_cross_solved() -> (r: CubieCube)
    ensures
        solvable(r@),
        forall|k: int| 8 <= k < 12 ==> (#[trigger] r@.ep[k]) == k && r@.eo[k] == 0,
{
    let mut rng = fresh_rng();
    let cp = index_to_cp(gen_below(&mut rng, 40320) as u16);
    let co = index_to_co(gen_below(&mut rng, 2187) as u16);
    let ep = index_to_ep_cross(gen_below(&mut rng, 40320) as u16);
    let eo = index_to_eo_cross(gen_below(&mut rng, 128) as u16);
    let mut state = CubieCube { cp, co, ep, eo };
    proof {
        lemma_ep_cross_generated(ep@);
        assert(state@.cp =~= crate::index::corner_ints(cp@));
        assert(state@.co =~= ints(co@));
        assert(state@.ep =~= crate::index::edge_ints(ep@));
        assert(state@.eo =~= ints(eo@));
        lemma_eo_cross_sum(eo@);
        assert(generated_wf(state));
    }
    if !state.is_solvable() {
        state = fix_parity(state, &mut rng, 0, 8, 0, 8);
    }
    state
}


/// The solved components satisfy every generator obligation.
proof fn lemma_solved_parts()
    ensures
        no_dups(solved_view().cp),
        no_dups(solved_view().ep),
        seq_sum(solved_view().co) % 3 == 0,
        seq_sum(solved_view().eo) % 2 == 0,
{
    lemma_seq_sum_trailing_zeros(solved_view().co, 0);
    assert(solved_view().co.take(0).len() == 0);
    lemma_seq_sum_trailing_zeros(solved_view().eo, 0);
    assert(solved_view().eo.take(0).len() == 0);
}

/// A sequence whose tail is zero sums like its prefix.
proof fn lemma_seq_sum_trailing_zeros(s: Seq<int>, k: int)
    requires
        0 <= k <= s.len(),
        forall|t: int| k <= t < s.len() ==> #[trigger] s[t] == 0,
    ensures
        seq_sum(s) == seq_sum(s.take(k)),
    decreases s.len(),
{
    if s.len() > k {
        let d = s.drop_last();
        lemma_seq_sum_trailing_zeros(d, k);
        assert(d.take(k) =~= s.take(k));
    } else {
        assert(s.take(k) =~= s);
    }
}

/// A sequence whose head is zero sums like its suffix.
proof fn lemma_seq_sum_leading_zeros(s: Seq<int>, k: int)
    requires
        0 <= k <= s.len(),
        forall|t: int| 0 <= t < k ==> #[trigger] s[t] == 0,
    ensures
        seq_sum(s) == seq_sum(s.skip(k)),
    decreases s.len(),
{
    if s.len() > k {
        let d = s.drop_last();
        lemma_seq_sum_leading_zeros(d, k);
        assert(s.skip(k).drop_last() =~= d.skip(k));
        assert(s.skip(k).last() == s.last());
        assert(s.skip(k).len() > 0);
    } else {
        assert(seq_sum(s.skip(k)) == 0) by {
            assert(s.skip(k).len() == 0);
        }
        assert(forall|t: int| 0 <= t < s.len() ==> #[trigger] s[t] == 0);
        lemma_seq_sum_trailing_zeros(s, 0);
        assert(s.take(0).len() == 0);
    }
}

proof fn lemma_cp_f2l_generated(s: Seq<Corner>)
    requires
        s.len() == 8,
        crate::index::corner_ints(s) == crate::index::cp_f2l_decoded(0) || exists|idx: int|
            0 <= idx < 24 && crate::index::corner_ints(s) == #[trigger] crate::index::cp_f2l_decoded(
                idx,
            ),
    ensures
        no_dups(crate::index::corner_ints(s)),
{
    let v = crate::index::corner_ints(s);
    let idx: int = if v == crate::index::cp_f2l_decoded(0) {
        0
    } else {
        choose|idx: int|
            0 <= idx < 24 && v == #[trigger] crate::index::cp_f2l_decoded(idx)
    };
    crate::index::lemma_perm_decoded_props(4, idx);
    assert forall|a: int, b: int| 0 <= a < b < 8 implies v[a] != v[b] by {
        if a < 4 && b < 4 {
            assert(crate::index::perm_decoded(4, idx)[a] != crate::index::perm_decoded(4, idx)[b]);
        } else if a < 4 {
            assert(v[a] < 4 && v[b] == b);
        }
    }
}

proof fn lemma_ep_f2l_generated(s: Seq<Edge>)
    requires
        s.len() == 12,
        exists|idx: int|
            0 <= idx < 24 && crate::index::edge_ints(s) == #[trigger] crate::index::ep_f2l_decoded(
                idx,
            ),
    ensures
        no_dups(crate::index::edge_ints(s)),
{
    let v = crate::index::edge_ints(s);
    let idx: int = choose|idx: int|
        0 <= idx < 24 && v == #[trigger] crate::index::ep_f2l_decoded(idx);
    crate::index::lemma_perm_decoded_props(4, idx);
    assert forall|a: int, b: int| 0 <= a < b < 12 implies v[a] != v[b] by {
        if 4 <= a < 8 && 4 <= b < 8 {
            assert(crate::index::perm_decoded(4, idx)[a - 4] != crate::index::perm_decoded(
                4,
                idx,
            )[b - 4]);
        }
    }
}

proof fn lemma_ep_cross_generated(s: Seq<Edge>)
    requires
        s.len() == 12,
        exists|idx: int|
            0 <= idx < 40320 && crate::index::edge_ints(s)
                == #[trigger] crate::index::ep_cross_decoded(idx),
    ensures
        no_dups(crate::index::edge_ints(s)),
{
    let v = crate::index::edge_ints(s);
    let idx: int = choose|idx: int|
        0 <= idx < 40320 && v == #[trigger] crate::index::ep_cross_decoded(idx);
    crate::index::lemma_perm_decoded_props(8, idx);
    assert forall|a: int, b: int| 0 <= a < b < 12 implies v[a] != v[b] by {
        if a < 8 && b < 8 {
            assert(crate::index::perm_decoded(8, idx)[a] != crate::index::perm_decoded(8, idx)[b]);
        } else if a < 8 {
            assert(v[a] < 8 && v[b] == b);
        }
    }
}

proof fn lemma_co_f2l_sum(s: Seq<u8>)
    requires
        exists|idx: int|
            0 <= idx < 27 && ints(s) == #[trigger] crate::index::co_f2l_decoded(idx),
        s.len() == 8,
    ensures
        seq_sum(ints(s)) % 3 == 0,
{
    let v = ints(s);
    let idx: int = choose|idx: int|
        0 <= idx < 27 && v == #[trigger] crate::index::co_f2l_decoded(idx);
    assert(forall|t: int| 4 <= t < 8 ==> #[trigger] v[t] == 0);
    lemma_seq_sum_trailing_zeros(v, 4);
    assert(v.take(4) =~= crate::index::ori_decoded(3, 3, idx));
    crate::index::lemma_ori_decoded_sum(3, 3, idx);
}

proof fn lemma_eo_f2l_sum(s: Seq<u8>)
    requires
        exists|idx: int|
            0 <= idx < 8 && ints(s) == #[trigger] crate::index::eo_f2l_decoded(idx),
        s.len() == 12,
    ensures
        seq_sum(ints(s)) % 2 == 0,
{
    let v = ints(s);
    let idx: int = choose|idx: int|
        0 <= idx < 8 && v == #[trigger] crate::index::eo_f2l_decoded(idx);
    assert(forall|t: int| 8 <= t < 12 ==> #[trigger] v[t] == 0);
    lemma_seq_sum_trailing_zeros(v, 8);
    assert(forall|t: int| 0 <= t < 4 ==> #[trigger] v.take(8)[t] == 0);
    lemma_seq_sum_leading_zeros(v.take(8), 4);
    assert(v.take(8).skip(4) =~= crate::index::ori_decoded(2, 3, idx));
    crate::index::lemma_ori_decoded_sum(2, 3, idx);
}

proof fn lemma_eo_cross_sum(s: Seq<u8>)
    requires
        exists|idx: int|
            0 <= idx < 128 && ints(s) == #[trigger] crate::index::eo_cross_decoded(idx),
        s.len() == 12,
    ensures
        seq_sum(ints(s)) % 2 == 0,
{
    let v = ints(s);
    let idx: int = choose|idx: int|
        0 <= idx < 128 && v == #[trigger] crate::index::eo_cross_decoded(idx);
    assert(forall|t: int| 8 <= t < 12 ==> #[trigger] v[t] == 0);
    lemma_seq_sum_trailing_zeros(v, 8);
    assert(v.take(8) =~= crate::index::ori_decoded(2, 7, idx));
    crate::index::lemma_ori_decoded_sum(2, 7, idx);
}

} // verus!
