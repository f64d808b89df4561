use kewb::cubie::CubieCube;
use kewb::moves::Move::{B, B2, B3, D, D2, D3, F, F2, F3, L, L2, L3, R, R2, R3, U, U2, U3};
use kewb::pruning::PruningTable;
use kewb::solver::{Solution, Solver};
use kewb::table::MoveTable;

#[test]
fn test_solve() {
    let scramble = vec![
        D3, R2, L3, U2, F, R, F3, D2, R2, F2, B2, U2, R2, F2, U, R2, U3, R2, D2,
    ];
    let state = CubieCube::from_moves(&scramble);
    let move_table = MoveTable::new();
    let pruning_table = PruningTable::new(&move_table);
    let mut solver = Solver::new(&move_table, &pruning_table, 23, None);
    let solution = solver.solve(state);
    let solved_state = state.apply_moves(&solution.unwrap().get_all_moves());

    assert_eq!(solved_state, CubieCube::solved());
}

#[test]
fn solver_end_to_end() {
    let move_table = MoveTable::new();
    let pruning_table = PruningTable::new(&move_table);

    // an already solved cube: (R U R' U') * 6 comes back to the identity,
    // and the solution is empty
    let sexy = vec![
        R, U, R3, U3, R, U, R3, U3, R, U, R3, U3, R, U, R3, U3, R, U, R3, U3, R, U, R3, U3,
    ];
    let state = CubieCube::from_moves(&sexy);
    let mut solver = Solver::new(&move_table, &pruning_table, 23, None);
    let solution = solver.solve(state).unwrap();
    assert!(solution.is_empty());

    // a single quarter turn: the first solution the fixed move order finds
    // enters G1 with R and finishes inside it; it still solves the state
    let state = CubieCube::from_moves(&vec![R]);
    let mut solver = Solver::new(&move_table, &pruning_table, 23, None);
    let solution = solver.solve(state).unwrap();
    assert!(solution.len() <= 23);
    let solved = state.apply_moves(&solution.get_all_moves());
    assert_eq!(solved, CubieCube::solved());

    // a state already inside G1 needs no phase-1 moves
    let g1_scramble = vec![U, D, R2, L2, F2, B2, U2, D2];
    let state = CubieCube::from_moves(&g1_scramble);
    let mut solver = Solver::new(&move_table, &pruning_table, 23, None);
    let solution = solver.solve(state).unwrap();
    assert_eq!(solution.phase1_to_string(), "");
    let solved = state.apply_moves(&solution.get_all_moves());
    assert_eq!(solved, CubieCube::solved());
    assert!(solution.len() <= 23);

    // a facelet string is decoded, solved, and the solution applies
    let faces = "DRBLUURLDRBLRRBFLFFUBFFDRUDURRBDFBBULDUDLUDLBUFFDBFLRL";
    let face_cube = kewb::facelet::FaceCube::try_from_str(faces).unwrap();
    let state = CubieCube::try_from_facelet(&face_cube).unwrap();
    let mut solver = Solver::new(&move_table, &pruning_table, 23, None);
    let solution = solver.solve(state).unwrap();
    assert!(solution.len() <= 23);
    let solved = state.apply_moves(&solution.get_all_moves());
    assert_eq!(solved, CubieCube::solved());

    // a random solvable state from the generator solves too
    let state = kewb::generators::generate_random_state();
    assert!(state.is_solvable());
    let mut solver = Solver::new(&move_table, &pruning_table, 23, None);
    let solution = solver.solve(state).unwrap();
    let solved = state.apply_moves(&solution.get_all_moves());
    assert_eq!(solved, CubieCube::solved());

    // a scramble derived from a state undoes it: applying the scramble to
    // the solved cube reaches the state again
    let mut solver = Solver::new(&move_table, &pruning_table, 23, None);
    let state = CubieCube::from_moves(&vec![F, R, U2, L3, D]);
    let scramble = kewb::scramble::scramble_from_state(state, &mut solver).unwrap();
    let redone = CubieCube::from_moves(&scramble);
    assert_eq!(redone, state);
}

#[test]
fn solution_strings() {
    let sol = Solution { phase1: vec![R, U2, F3], phase2: vec![D, L2] };
    assert_eq!(sol.phase1_to_string(), "R U2 F'");
    assert_eq!(sol.phase2_to_string(), "D L2");
    assert_eq!(sol.to_string(), "R U2 F' D L2");
    assert_eq!(sol.len(), 5);
    assert!(!sol.is_empty());
    assert_eq!(sol.get_all_moves(), vec![R, U2, F3, D, L2]);
}
