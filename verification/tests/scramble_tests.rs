use kewb::error::Error;
use kewb::moves::Move::{B, B2, B3, D, D2, D3, F, F2, F3, L, L2, L3, R, R2, R3, U, U2, U3};
use kewb::moves::{is_move_available, Move};
use kewb::scramble::{scramble_from_str, validate_scramble};
use kewb::cubie::{Corner, Edge};

#[test]
fn parse_scramble_string() {
    let parsed = scramble_from_str("D' R2 L' U2 F R F' D2 R2 F2 B2 U2 R2 F2 U R2 U' R2 D2")
        .unwrap();
    let expected = vec![
        D3, R2, L3, U2, F, R, F3, D2, R2, F2, B2, U2, R2, F2, U, R2, U3, R2, D2,
    ];
    assert_eq!(parsed, expected);

    assert_eq!(scramble_from_str("").unwrap(), Vec::<Move>::new());
    assert_eq!(scramble_from_str("  U   F'  ").unwrap(), vec![U, F3]);
}

#[test]
fn reject_bad_scrambles() {
    assert_eq!(scramble_from_str("X").unwrap_err(), Error::InvalidScramble);
    assert_eq!(scramble_from_str("R3").unwrap_err(), Error::InvalidScramble);
    assert_eq!(scramble_from_str("U2'").unwrap_err(), Error::InvalidScramble);
    assert_eq!(scramble_from_str("u").unwrap_err(), Error::InvalidScramble);
    assert_eq!(validate_scramble("R U R' U'").unwrap(), "R U R' U'");
    assert_eq!(validate_scramble("R W").unwrap_err(), Error::InvalidScramble);
}

#[test]
fn move_helpers() {
    assert_eq!(U.get_inverse(), U3);
    assert_eq!(U3.get_inverse(), U);
    assert_eq!(F2.get_inverse(), F2);
    assert!(U.is_same_layer(U2));
    assert!(!U.is_same_layer(D));
    assert!(U.is_inverse(D2));
    assert!(!D2.is_inverse(U));

    // same face and canonical opposite-face pairs are filtered
    assert!(!is_move_available(U, U2));
    assert!(!is_move_available(D, U));
    assert!(is_move_available(U, D));
    assert!(is_move_available(R, U));

    assert_eq!(U3.name(), "U'");
    assert_eq!(B2.name(), "B2");
}

#[test]
fn error_messages() {
    assert_eq!(Error::InvalidColor.message(), "Invalid color value");
    assert_eq!(Error::InvalidScramble.message(), "Invalid scramble string");
    assert_eq!(Error::InvalidFaceletString.message(), "Invalid facelet string");
    assert_eq!(Error::InvalidFaceletValue.message(), "Invalid facelet representation");
}

#[test]
fn generators_produce_valid_states() {
    for _ in 0..20 {
        assert!(kewb::generators::generate_random_state().is_solvable());
        assert!(kewb::generators::generate_state_corners_solved().is_solvable());
        assert!(kewb::generators::generate_state_edges_solved().is_solvable());
        assert!(kewb::generators::generate_state_f2l_solved().is_solvable());
        assert!(kewb::generators::generate_state_oll_solved().is_solvable());
        assert!(kewb::generators::generate_state_oll_cross_solved().is_solvable());
        assert!(kewb::generators::generate_state_cross_solved().is_solvable());
    }
}

#[test]
fn corner_and_edge_conversions() {
    assert!(matches!(Corner::try_from(0), Ok(Corner::UBL)));
    assert!(matches!(Corner::try_from(7), Ok(Corner::DBL)));
    assert!(matches!(Corner::try_from(8), Err(Error::InvalidCorner)));
    assert!(matches!(Edge::try_from(11), Ok(Edge::DL)));
    assert!(matches!(Edge::try_from(12), Err(Error::InvalidEdge)));
    assert_eq!(Corner::UFR.index(), 2);
    assert_eq!(Edge::DB.index(), 10);
}
