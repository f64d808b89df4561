use kewb::cubie::CubieCube;
use kewb::cubie::Edge::{BL, BR, DB, DF, DL, DR, FL, FR, UB, UF, UL, UR};
use kewb::index::{
    co_to_index, cp_to_index, e_combo_to_index, e_ep_to_index, eo_to_index, ep_to_index,
    index_to_co, index_to_cp, index_to_e_combo, index_to_e_ep, index_to_eo, index_to_ep,
    index_to_ud_ep, ud_ep_to_index,
};

#[test]
fn index_test_co_to_index() {
    let solved = CubieCube::solved();
    assert_eq!(co_to_index(&solved.co), 0);
    assert_eq!(index_to_co(0), solved.co);

    let co = [2, 0, 0, 1, 1, 0, 0, 2];
    assert_eq!(co_to_index(&co), 1494);
    assert_eq!(index_to_co(1494), co);
}

#[test]
fn index_test_eo() {
    let solved = CubieCube::solved();
    assert_eq!(eo_to_index(&solved.eo), 0);
    assert_eq!(index_to_eo(0), solved.eo);

    let eo = [1, 1, 1, 1, 1, 1, 1, 1, 1, 1, 1, 1];
    assert_eq!(eo_to_index(&eo), 2047);
    assert_eq!(index_to_eo(2047), eo);
}

#[test]
fn index_test_e_combo() {
    let solved = CubieCube::solved();
    assert_eq!(e_combo_to_index(&solved.ep), 0);
    let fake_combo = [BL, BR, FR, FL, UB, UB, UB, UB, UB, UB, UB, UB];
    assert_eq!(index_to_e_combo(0), fake_combo);

    let fake_combo = [UB, UB, UB, UB, UB, UB, UB, UB, BL, BR, FR, FL];
    assert_eq!(e_combo_to_index(&fake_combo), 494);
    assert_eq!(index_to_e_combo(494), fake_combo);
}

#[test]
fn index_test_cp() {
    let solved = CubieCube::solved();
    assert_eq!(cp_to_index(&solved.cp), 0);
    assert_eq!(index_to_cp(0), solved.cp);

    let mut corners = solved.cp;
    corners.reverse();
    assert_eq!(cp_to_index(&corners), 40319);
    assert_eq!(index_to_cp(40319), corners);
}

#[test]
fn test_ud_ep() {
    let solved = CubieCube::solved();
    assert_eq!(ud_ep_to_index(&solved.ep), 0);
    let ud_ep = index_to_ud_ep(0);
    assert_eq!(&ud_ep[4..12], &solved.ep[4..12]);

    let edges = [BL, BR, FR, FL, DL, DB, DR, DF, UL, UF, UR, UB];
    assert_eq!(ud_ep_to_index(&edges), 40319);
    let ud_ep = index_to_ud_ep(40319);
    assert_eq!(&ud_ep[4..12], &edges[4..12]);
}

#[test]
fn index_test_e_ep() {
    let solved = CubieCube::solved();
    assert_eq!(e_ep_to_index(&solved.ep), 0);
    let e_ep = index_to_e_ep(0);
    assert_eq!(&e_ep[..4], &solved.ep[..4]);

    let edges = [FL, FR, BR, BL, UB, UR, UF, UL, DF, DR, DB, DL];
    assert_eq!(e_ep_to_index(&edges), 23);
    let e_ep = index_to_e_ep(23);
    assert_eq!(&e_ep[..4], &edges[..4]);
}

#[test]
fn index_test_ep() {
    let solved = CubieCube::solved();
    assert_eq!(ep_to_index(&solved.ep), 0);
    assert_eq!(index_to_ep(0), solved.ep);

    let mut edges = solved.ep;
    edges.reverse();
    assert_eq!(ep_to_index(&edges), 479001599);
    assert_eq!(index_to_ep(479001599), edges);
}

#[test]
fn codec_round_trips() {
    // decode then encode is the identity on every sampled index
    for idx in [0u16, 1, 7, 1000, 2186] {
        assert_eq!(co_to_index(&index_to_co(idx)), idx);
    }
    for idx in [0u16, 1, 1024, 2047] {
        assert_eq!(eo_to_index(&index_to_eo(idx)), idx);
    }
    for idx in [0u16, 1, 250, 494] {
        assert_eq!(e_combo_to_index(&index_to_e_combo(idx)), idx);
    }
    for idx in [0u16, 1, 5039, 40319] {
        assert_eq!(cp_to_index(&index_to_cp(idx)), idx);
    }
    for idx in [0u32, 1, 5039, 479001599] {
        assert_eq!(ep_to_index(&index_to_ep(idx)), idx);
    }
    for idx in [0u16, 1, 23] {
        assert_eq!(e_ep_to_index(&index_to_e_ep(idx)), idx);
    }
    for idx in [0u16, 77, 40319] {
        assert_eq!(ud_ep_to_index(&index_to_ud_ep(idx)), idx);
    }
    // encode then decode recovers the arrangement
    let co = [1, 2, 0, 2, 1, 0, 0, 0];
    assert_eq!(index_to_co(co_to_index(&co)), co);
    let eo = [1, 0, 1, 0, 1, 0, 1, 0, 1, 0, 1, 0];
    assert_eq!(index_to_eo(eo_to_index(&eo)), eo);
}
