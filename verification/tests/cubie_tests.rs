use kewb::cubie::Corner::{DBL, DBR, DFL, DFR, UBL, UBR, UFL, UFR};
use kewb::cubie::Edge::{BL, BR, DB, DF, DL, DR, FL, FR, UB, UF, UL, UR};
use kewb::cubie::CubieCube;
use kewb::moves::Move::{B, B2, B3, D, D2, D3, F, F2, F3, L, L2, L3, R, R2, R3, U, U2, U3};
use kewb::moves::{b_move, d_move, f_move, l_move, r_move, u_move};

#[test]
fn cubie_test_mult() {
    let state = CubieCube::solved().apply_move(R);
    assert_eq!(state, r_move());

    let r2_state = CubieCube::solved().apply_move(R).apply_move(R);
    assert_eq!(r2_state, r_move().mul(r_move()));

    let r3_state = r2_state.apply_move(R);
    assert_eq!(r3_state, r2_state.mul(r_move()));

    let fr_state = CubieCube {
        cp: [UBL, UFL, UFR, DFL, DFR, DBR, UBR, DBL],
        co: [0, 2, 1, 2, 1, 1, 2, 0],
        ep: [BL, UR, DR, DF, UB, UF, FL, UL, FR, BR, DB, DL],
        eo: [0, 0, 0, 1, 0, 1, 1, 0, 1, 0, 0, 0],
    };

    assert_eq!(f_move().mul(r_move()), fr_state);
}

#[test]
fn cubie_test_move_sequence() {
    // (R U R' U') * 6
    let moves = vec![
        R, U, R3, U3, R, U, R3, U3, R, U, R3, U3, R, U, R3, U3, R, U, R3, U3, R, U, R3, U3,
    ];
    let state = CubieCube::solved().apply_moves(&moves);

    assert_eq!(state, CubieCube::solved());
}

#[test]
fn cubie_test_scramble() {
    // U F' D' F2 D B2 D' R2 U' F2 R2 D2 R2 U' L B L R F' D B'
    let scramble = vec![
        U, F3, D3, F2, D, B2, D3, R2, U3, F2, R2, D2, R2, U3, L, B, L, R, F3, D, B3,
    ];
    let state = CubieCube::solved().apply_moves(&scramble);

    let expected = CubieCube {
        cp: [DFL, UBL, DFR, UBR, UFL, DBR, DBL, UFR],
        co: [1, 2, 2, 0, 0, 0, 2, 2],
        ep: [UF, UR, DL, DB, BL, DF, UB, FL, UL, BR, FR, DR],
        eo: [0, 1, 1, 1, 1, 1, 1, 0, 0, 1, 0, 1],
    };

    assert_eq!(state, expected);
}

#[test]
fn cubie_test_perm_count() {
    let state = CubieCube::solved();

    assert_eq!(state.count_corner_perm(), 0);
    assert_eq!(state.count_edge_perm(), 0);

    let state = CubieCube::from_moves(&vec![R, U, R3, U3]);

    assert_eq!(state.count_corner_perm(), 2);
    assert_eq!(state.count_edge_perm(), 2);

    let state = CubieCube::from_moves(&vec![
        R, U3, R3, U3, R, U, R, D, R3, U3, R, D3, R3, U2, R3, U3,
    ]);

    assert_eq!(state.count_corner_perm(), 1);
    assert_eq!(state.count_edge_perm(), 1);
}

#[test]
fn test_twist_count() {
    let state = CubieCube::solved();

    assert_eq!(state.count_corner_twist(), 0);
    assert_eq!(state.count_edge_twist(), 0);

    let state = CubieCube::from_moves(&vec![R, U, R3, U3, R3, F, R, F3]);

    assert_eq!(state.count_corner_twist(), 3);
    assert_eq!(state.count_edge_twist(), 2);
}

#[test]
fn state_test_mult() {
    let state = CubieCube::solved().apply_move(R);
    assert_eq!(state, r_move());

    let r2_state = CubieCube::solved().apply_move(R).apply_move(R);
    assert_eq!(r2_state, r_move().mul(r_move()));

    let r3_state = r2_state.apply_move(R);
    assert_eq!(r3_state, r2_state.mul(r_move()));

    let fr_state = CubieCube {
        cp: [UBL, UFL, UFR, DFL, DFR, DBR, UBR, DBL],
        co: [0, 2, 1, 2, 1, 1, 2, 0],
        ep: [BL, UR, DR, DF, UB, UF, FL, UL, FR, BR, DB, DL],
        eo: [0, 0, 0, 1, 0, 1, 1, 0, 1, 0, 0, 0],
    };

    assert_eq!(f_move().mul(r_move()), fr_state);
}

#[test]
fn state_test_move_sequence() {
    // (R U R' U') * 6
    let moves = vec![
        R, U, R3, U3, R, U, R3, U3, R, U, R3, U3, R, U, R3, U3, R, U, R3, U3, R, U, R3, U3,
    ];
    let state = CubieCube::solved().apply_moves(&moves);

    assert_eq!(state, CubieCube::solved());
}

#[test]
fn state_test_scramble() {
    // U F' D' F2 D B2 D' R2 U' F2 R2 D2 R2 U' L B L R F' D B'
    let scramble = vec![
        U, F3, D3, F2, D, B2, D3, R2, U3, F2, R2, D2, R2, U3, L, B, L, R, F3, D, B3,
    ];
    let state = CubieCube::solved().apply_moves(&scramble);

    let expected = CubieCube {
        cp: [DFL, UBL, DFR, UBR, UFL, DBR, DBL, UFR],
        co: [1, 2, 2, 0, 0, 0, 2, 2],
        ep: [UF, UR, DL, DB, BL, DF, UB, FL, UL, BR, FR, DR],
        eo: [0, 1, 1, 1, 1, 1, 1, 0, 0, 1, 0, 1],
    };

    assert_eq!(state, expected);
}

#[test]
fn state_test_perm_count() {
    let state = CubieCube::solved();

    assert_eq!(state.count_corner_perm(), 0);
    assert_eq!(state.count_edge_perm(), 0);

    let state = CubieCube::from_moves(&vec![R, U, R3, U3]);

    assert_eq!(state.count_corner_perm(), 2);
    assert_eq!(state.count_edge_perm(), 2);

    let state = CubieCube::from_moves(&vec![
        R, U3, R3, U3, R, U, R, D, R3, U3, R, D3, R3, U2, R3, U3,
    ]);

    assert_eq!(state.count_corner_perm(), 1);
    assert_eq!(state.count_edge_perm(), 1);
}

#[test]
fn composition_identity() {
    let scramble = vec![D3, R2, L3, U2, F, R, F3, D2, R2];
    let state = CubieCube::from_moves(&scramble);
    assert_eq!(state.mul(CubieCube::solved()), state);
    assert_eq!(CubieCube::solved().mul(state), state);
    let assoc_left = b_move().mul(d_move()).mul(l_move());
    let assoc_right = b_move().mul(d_move().mul(l_move()));
    assert_eq!(assoc_left, assoc_right);
    assert_eq!(u_move().mul(u_move()).mul(u_move()).mul(u_move()), CubieCube::solved());
}

#[test]
fn solvability_checks() {
    let state = CubieCube::from_moves(&vec![R, U, F2, L3, B]);
    assert!(state.is_solvable());

    // two corners traded without an edge trade: unequal parity
    let mut twisted = CubieCube::solved();
    twisted.cp.swap(0, 1);
    assert!(!twisted.is_solvable());

    // one corner twisted in place: twist sum not a multiple of three
    let mut misoriented = CubieCube::solved();
    misoriented.co[0] = 1;
    assert!(!misoriented.is_solvable());

    // a repeated edge
    let mut duplicated = CubieCube::solved();
    duplicated.ep[0] = BR;
    assert!(!duplicated.is_solvable());
}

#[test]
fn moves_preserve_solvability() {
    let moves = vec![R, U2, F3, L, B, D2, R3];
    let state = CubieCube::from_moves(&moves);
    assert!(state.is_solvable());
}
