use kewb::cubie::Corner::{DBL, DBR, DFL, DFR, UBL, UBR, UFL, UFR};
use kewb::cubie::Edge::{BL, BR, DB, DF, DL, DR, FL, FR, UB, UF, UL, UR};
use kewb::cubie::CubieCube;
use kewb::error::Error;
use kewb::facelet::FaceCube;
use kewb::moves::Move::{B, B2, B3, D, D2, D3, F, F2, F3, L, L2, L3, R, R2, R3, U, U2, U3};

#[test]
fn facelet_test_facelet_to_cubie() {
    // One scramble that produces these faces:
    // F L' B R' U R U B' L2 R' F2 U2 L' F2 D F U R' D R U' L' R2 D2
    let faces = "DRBLUURLDRBLRRBFLFFUBFFDRUDURRBDFBBULDUDLUDLBUFFDBFLRL";
    let face_cube = FaceCube::try_from_str(faces).unwrap();
    let actual_state = CubieCube::try_from_facelet(&face_cube).unwrap();

    assert_eq!(
        actual_state,
        CubieCube {
            cp: [DFL, UBL, DBR, UFR, UBR, DFR, UFL, DBL],
            co: [0, 1, 0, 2, 0, 1, 0, 2],
            ep: [DF, DB, DR, UF, FR, UB, UL, DL, UR, FL, BR, BL],
            eo: [1, 0, 0, 1, 1, 0, 1, 1, 1, 0, 0, 0]
        }
    );
    // One list of moves that solves this state:
    // L2 B' D R F B' L U B R' U' B2 D L2 D2 R2 B2 D' B2 D F2 U
}

#[test]
fn test_cubie_to_facelet() {
    let face_cube = FaceCube::from_cubie(&CubieCube::solved()).unwrap();

    assert_eq!(face_cube, FaceCube::solved());

    let face_string = "DRBLUURLDRBLRRBFLFFUBFFDRUDURRBDFBBULDUDLUDLBUFFDBFLRL";
    let expected = FaceCube::try_from_str(face_string).unwrap();
    let cubie = CubieCube {
        cp: [DFL, UBL, DBR, UFR, UBR, DFR, UFL, DBL],
        co: [0, 1, 0, 2, 0, 1, 0, 2],
        ep: [DF, DB, DR, UF, FR, UB, UL, DL, UR, FL, BR, BL],
        eo: [1, 0, 0, 1, 1, 0, 1, 1, 1, 0, 0, 0],
    };
    let face_cube = FaceCube::from_cubie(&cubie).unwrap();

    assert_eq!(face_cube, expected);
}

#[test]
fn facelet_round_trip() {
    // cubie -> facelet -> cubie comes back to the same state
    let scramble = vec![D3, R2, L3, U2, F, R, F3, D2, R2, F2, B2];
    let state = CubieCube::from_moves(&scramble);
    let face = FaceCube::from_cubie(&state).unwrap();
    let back = CubieCube::try_from_facelet(&face).unwrap();
    assert_eq!(back, state);
}

#[test]
fn facelet_errors() {
    // 53 characters: one too few
    let short = "DRBLUURLDRBLRRBFLFFUBFFDRUDURRBDFBBULDUDLUDLBUFFDBFLR";
    assert_eq!(FaceCube::try_from_str(short).unwrap_err(), Error::InvalidFaceletString);

    // a character outside the face letters
    let bad = "XRBLUURLDRBLRRBFLFFUBFFDRUDURRBDFBBULDUDLUDLBUFFDBFLRL";
    assert_eq!(FaceCube::try_from_str(bad).unwrap_err(), Error::InvalidColor);

    // legal colors arranged into an impossible cube: one edge flipped in
    // place on an otherwise solved cube
    let solved = "UUUUUUUUURRRRRRRRRFFFFFFFFFDDDDDDDDDLLLLLLLLLBBBBBBBBB";
    let mut cs: Vec<char> = solved.chars().collect();
    cs.swap(7, 19);
    let flipped: String = cs.into_iter().collect();
    let fc = FaceCube::try_from_str(&flipped).unwrap();
    assert_eq!(CubieCube::try_from_facelet(&fc).unwrap_err(), Error::InvalidFaceletValue);
}
