use kewb::moves::Move;
use kewb::pruning::{get_prune_table, DataTable, PruningTable};
use kewb::table::{all_moves_vec, get_e_ep_table, phase2_moves_vec, MoveTable};
use kewb::tablefile::{decode_table, encode_table};

#[test]
fn move_table_entries() {
    let mt = MoveTable::new();
    // turning U from the solved position changes no orientation
    assert_eq!(mt.co[0][0], 0);
    assert_eq!(mt.eo[0][0], 0);
    // the move lists enumerate 18 and 10 distinct moves
    let all: Vec<Move> = all_moves_vec();
    assert_eq!(all.len(), 18);
    for i in 0..18 {
        for j in (i + 1)..18 {
            assert_ne!(all[i], all[j]);
        }
    }
    let p2 = phase2_moves_vec();
    assert_eq!(p2.len(), 10);
    for m in &p2 {
        assert!(all.contains(m));
    }
    // a quarter turn four times returns to the start in every coordinate
    let mut co = 0usize;
    for _ in 0..4 {
        co = mt.co[co][6] as usize; // R
    }
    assert_eq!(co, 0);
    // a half turn twice equals the quarter turn four times
    let mut cp = 0usize;
    for _ in 0..2 {
        cp = mt.cp[cp][6] as usize; // R2 in the phase-2 list
    }
    assert_eq!(cp, 0);
}

#[test]
fn pruning_small_pair() {
    // the smallest pair: the E-slice permutation against itself. Both
    // coordinates step through the same table, so exactly the diagonal is
    // reachable from the origin; everything else keeps the sentinel.
    let t = get_e_ep_table();
    let moves = phase2_moves_vec();
    let p = get_prune_table(&t, &t, &moves);
    assert_eq!(p.len(), 24);
    assert_eq!(p[0][0], 0);
    for i in 0..24 {
        for j in 0..24 {
            if i == j {
                assert!(p[i][j] < 255);
            } else {
                assert_eq!(p[i][j], 255);
            }
        }
    }
    // only the origin is at distance zero, and every filled cell's
    // successors lie at most one step further
    for i in 0..24 {
        if i != 0 {
            assert!(p[i][i] > 0);
        }
        for m in 0..10 {
            let k = t[i][m] as usize;
            assert!(p[k][k] <= p[i][i] + 1);
        }
    }
}

#[test]
fn table_blob_round_trip() {
    let table = DataTable::new();
    let blob = encode_table(&table);
    assert!(!blob.is_empty());
    let decoded = decode_table(&blob).unwrap();
    assert_eq!(decoded.move_table.co, table.move_table.co);
    assert_eq!(decoded.move_table.eo, table.move_table.eo);
    assert_eq!(decoded.move_table.e_combo, table.move_table.e_combo);
    assert_eq!(decoded.move_table.cp, table.move_table.cp);
    assert_eq!(decoded.move_table.ep, table.move_table.ep);
    assert_eq!(decoded.move_table.e_ep, table.move_table.e_ep);
    assert_eq!(decoded.pruning_table.co_e, table.pruning_table.co_e);
    assert_eq!(decoded.pruning_table.eo_e, table.pruning_table.eo_e);
    assert_eq!(decoded.pruning_table.cp_e, table.pruning_table.cp_e);
    assert_eq!(decoded.pruning_table.ep_e, table.pruning_table.ep_e);

    // trailing garbage is corruption
    let mut longer = blob.clone();
    longer.push(0);
    assert!(decode_table(&longer).is_err());
    // a truncated blob fails too
    let shorter = &blob[..blob.len() - 1];
    assert!(decode_table(shorter).is_err());
}

#[test]
fn prune_table_wrapper() {
    let mt = MoveTable::new();
    let pt = PruningTable::new(&mt);
    assert_eq!(pt.co_e.len(), 2187);
    assert_eq!(pt.co_e[0].len(), 495);
    assert_eq!(pt.co_e[0][0], 0);
    assert_eq!(pt.eo_e.len(), 2048);
    assert_eq!(pt.cp_e.len(), 40320);
    assert_eq!(pt.ep_e.len(), 40320);
    assert_eq!(pt.ep_e[0][0], 0);
}

#[test]
fn decode_rejects_huge_claimed_length() {
    // A length prefix claiming close to u64::MAX entries, followed by nothing.
    let mut bytes = vec![253u8];
    bytes.extend([0xFFu8; 8]);
    assert!(decode_table(&bytes).is_err());
}

#[test]
fn decode_rejects_trailing_bytes() {
    let table = DataTable::new();
    let mut bytes = encode_table(&table);
    bytes.push(0);
    assert!(decode_table(&bytes).is_err());
}
